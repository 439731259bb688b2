//! A disjoint-set forest over the elements `0..n`, with naive find (no path
//! compression) and union that hangs one set's root under an element of the
//! other set.

use vstd::prelude::*;
use vstd::string::StringExecFns;

verus! {

/// Whether `a` and `b` are linked by the sequence of unions `hist`, applied
/// in order to the singletons: the smallest equivalence relation containing
/// every pair of `hist`.
pub open spec fn joined(hist: Seq<(int, int)>, a: int, b: int) -> bool
    decreases hist.len(),
{
    if hist.len() == 0 {
        a == b
    } else {
        let prev = hist.drop_last();
        let (u, v) = hist.last();
        ||| joined(prev, a, b)
        ||| (joined(prev, a, u) && joined(prev, v, b))
        ||| (joined(prev, a, v) && joined(prev, u, b))
    }
}

/// Number of elements among the first `k` that are their own root.
spec fn roots_upto(root: Seq<int>, k: int) -> int
    decreases k,
{
    if k <= 0 {
        0
    } else {
        roots_upto(root, k - 1) + if root[k - 1] == k - 1 {
            1int
        } else {
            0
        }
    }
}

proof fn lemma_roots_identity(root: Seq<int>, k: int)
    requires
        0 <= k <= root.len(),
        forall|i: int| 0 <= i < root.len() ==> #[trigger] root[i] == i,
    ensures
        roots_upto(root, k) == k,
    decreases k,
{
    if k > 0 {
        lemma_roots_identity(root, k - 1);
    }
}

/// Where `r2` has the roots of `r1` but `rb`, the count drops by one once
/// `rb` is counted.
proof fn lemma_roots_lose_one(r1: Seq<int>, r2: Seq<int>, rb: int, k: int)
    requires
        0 <= k <= r1.len(),
        r1.len() == r2.len(),
        0 <= rb < r1.len(),
        r1[rb] == rb,
        r2[rb] != rb,
        forall|i: int| 0 <= i < r1.len() && i != rb ==> (#[trigger] r2[i] == i <==> r1[i] == i),
    ensures
        roots_upto(r2, k) == roots_upto(r1, k) - if rb < k {
            1int
        } else {
            0
        },
    decreases k,
{
    if k > 0 {
        lemma_roots_lose_one(r1, r2, rb, k - 1);
    }
}

/// Where `r0` is the only root, exactly one is counted once `r0` is.
proof fn lemma_single_root(root: Seq<int>, r0: int, k: int)
    requires
        0 <= k <= root.len(),
        0 <= r0,
        forall|i: int| 0 <= i < root.len() ==> (#[trigger] root[i] == i <==> i == r0),
    ensures
        roots_upto(root, k) == if r0 < k {
            1int
        } else {
            0
        },
    decreases k,
{
    if k > 0 {
        lemma_single_root(root, r0, k - 1);
    }
}

/// The decimal digits of `n`.
pub open spec fn decimal(n: nat) -> Seq<char>
    decreases n,
{
    if n < 10 {
        seq![digit_char(n)]
    } else {
        decimal(n / 10).push(digit_char(n % 10))
    }
}

pub open spec fn digit_char(d: nat) -> char {
    if d == 0 {
        '0'
    } else if d == 1 {
        '1'
    } else if d == 2 {
        '2'
    } else if d == 3 {
        '3'
    } else if d == 4 {
        '4'
    } else if d == 5 {
        '5'
    } else if d == 6 {
        '6'
    } else if d == 7 {
        '7'
    } else if d == 8 {
        '8'
    } else {
        '9'
    }
}

/// Appends the decimal digits of `n`.
fn push_decimal(out: &mut String, n: usize)
    ensures
        final(out)@ == old(out)@ + decimal(n as nat),
    decreases n,
{
    if n >= 10 {
        push_decimal(out, n / 10);
    }
    let d = n % 10;
    proof {
        reveal_strlit("0");
        reveal_strlit("1");
        reveal_strlit("2");
        reveal_strlit("3");
        reveal_strlit("4");
        reveal_strlit("5");
        reveal_strlit("6");
        reveal_strlit("7");
        reveal_strlit("8");
        reveal_strlit("9");
    }
    if d == 0 {
        out.append("0");
    } else if d == 1 {
        out.append("1");
    } else if d == 2 {
        out.append("2");
    } else if d == 3 {
        out.append("3");
    } else if d == 4 {
        out.append("4");
    } else if d == 5 {
        out.append("5");
    } else if d == 6 {
        out.append("6");
    } else if d == 7 {
        out.append("7");
    } else if d == 8 {
        out.append("8");
    } else {
        out.append("9");
    }
}

/// Roots after the tree rooted at `rb` is hung below the tree rooted at `ra`.
spec fn relinked_roots(root: Seq<int>, rb: int, ra: int) -> Seq<int> {
    Seq::new(root.len(), |i: int| if root[i] == rb { ra } else { root[i] })
}

/// Distances after the tree rooted at `rb` is hung `extra` links deeper.
spec fn relinked_dists(root: Seq<int>, dist: Seq<nat>, rb: int, extra: nat) -> Seq<nat> {
    Seq::new(dist.len(), |i: int| if root[i] == rb { dist[i] + extra } else { dist[i] })
}

pub struct UnionFind {
    reps: Vec<usize>,
    /// The root reached from each element.
    root: Ghost<Seq<int>>,
    /// The number of parent links between each element and its root.
    dist: Ghost<Seq<nat>>,
    /// Every union performed so far, oldest first.
    unions: Ghost<Seq<(int, int)>>,
}

impl UnionFind {
    /// Number of elements.
    pub closed spec fn size(&self) -> nat {
        self.reps@.len()
    }

    /// The element that `a` links to; `a` itself for a root.
    pub closed spec fn parent_of(&self, a: int) -> int {
        self.reps@[a] as int
    }

    /// The element reached from `a` by following `k` parent links.
    pub open spec fn follow(&self, a: int, k: nat) -> int
        decreases k,
    {
        if k == 0 {
            a
        } else {
            self.parent_of(self.follow(a, (k - 1) as nat))
        }
    }

    /// The representative that `find` reaches from `a`.
    pub closed spec fn root_of(&self, a: int) -> int {
        self.root@[a]
    }

    /// Number of disjoint sets.
    pub closed spec fn n_sets(&self) -> int {
        roots_upto(self.root@, self.reps@.len() as int)
    }

    /// The unions performed so far, oldest first.
    pub closed spec fn history(&self) -> Seq<(int, int)> {
        self.unions@
    }

    pub open spec fn same(&self, a: int, b: int) -> bool {
        self.root_of(a) == self.root_of(b)
    }

    /// Whether `x` and `y` are in one set once the sets of `a` and `b` are
    /// merged.
    pub open spec fn merged(&self, a: int, b: int, x: int, y: int) -> bool {
        ||| self.same(x, y)
        ||| (self.same(x, a) && self.same(b, y))
        ||| (self.same(x, b) && self.same(a, y))
    }

    /// `m` followed by the element it links to in parentheses: `m(p)`.
    pub open spec fn entry_text(&self, m: int) -> Seq<char> {
        decimal(m as nat) + seq!['('] + decimal(self.parent_of(m) as nat) + seq![')']
    }

    /// The elements among the first `k` that share `r`'s set, as entries
    /// separated by `, `.
    pub open spec fn members_text(&self, r: int, k: int) -> Seq<char>
        decreases k,
    {
        if k <= 0 {
            Seq::empty()
        } else {
            let prev = self.members_text(r, k - 1);
            if self.same(k - 1, r) {
                if prev.len() == 0 {
                    self.entry_text(k - 1)
                } else {
                    prev + seq![',', ' '] + self.entry_text(k - 1)
                }
            } else {
                prev
            }
        }
    }

    /// The sets whose roots are among the first `k` elements, each in
    /// brackets and followed by a space.
    pub open spec fn sets_text(&self, k: int) -> Seq<char>
        decreases k,
    {
        if k <= 0 {
            Seq::empty()
        } else {
            let prev = self.sets_text(k - 1);
            if self.parent_of(k - 1) == k - 1 {
                prev + seq!['['] + self.members_text(k - 1, self.size() as int) + seq![']', ' ']
            } else {
                prev
            }
        }
    }

    /// The whole structure as text: `UnionFind { [0(0), 2(0)] [1(1)] }`.
    pub open spec fn text(&self) -> Seq<char> {
        seq!['U', 'n', 'i', 'o', 'n', 'F', 'i', 'n', 'd', ' ', '{', ' '] + self.sets_text(
            self.size() as int,
        ) + seq!['}']
    }

    /// Parent links stay in range, every chain ends at a self-linked root
    /// after `dist` steps, and two elements share a root exactly when the
    /// union history links them.
    pub closed spec fn wf(&self) -> bool {
        let n = self.reps@.len();
        &&& self.root@.len() == n
        &&& self.dist@.len() == n
        &&& forall|i: int| 0 <= i < n ==> (self.reps@[i] as int) < n
        &&& forall|i: int|
            0 <= i < n ==> 0 <= #[trigger] self.root@[i] < n && self.reps@[self.root@[i]]
                == self.root@[i]
        &&& forall|i: int|
            0 <= i < n && #[trigger] self.reps@[i] == i ==> self.root@[i] == i && self.dist@[i]
                == 0
        &&& forall|i: int|
            0 <= i < n && #[trigger] self.reps@[i] != i ==> self.root@[i]
                == self.root@[self.reps@[i] as int] && self.dist@[i] == self.dist@[self.reps@[
                i] as int] + 1
        &&& forall|i: int|
            0 <= i < self.unions@.len() ==> 0 <= (#[trigger] self.unions@[i]).0 < n && 0
                <= self.unions@[i].1 < n
        &&& forall|a: int, b: int|
            0 <= a < n && 0 <= b < n ==> (self.root@[a] == self.root@[b] <==> #[trigger] joined(
                self.unions@,
                a,
                b,
            ))
    }

    /// `n` singleton sets.
    pub fn new(n: usize) -> (r: UnionFind)
        ensures
            r.wf(),
            r.size() == n,
            r.history() == Seq::<(int, int)>::empty(),
            r.n_sets() == n,
            forall|k: int| 0 <= k < n ==> #[trigger] r.parent_of(k) == k,
            forall|a: int, b: int| 0 <= a < n && 0 <= b < n ==> (r.same(a, b) <==> a == b),
    {
        let mut reps: Vec<usize> = Vec::new();
        let mut i: usize = 0;
        while i < n
            invariant
                i <= n,
                reps@.len() == i,
                forall|k: int| 0 <= k < i ==> reps@[k] == k,
            decreases n - i,
        {
            reps.push(i);
            i = i + 1;
        }
        let r = UnionFind {
            reps,
            root: Ghost(Seq::new(n as nat, |k: int| k)),
            dist: Ghost(Seq::new(n as nat, |k: int| 0nat)),
            unions: Ghost(Seq::empty()),
        };
        proof {
            lemma_roots_identity(r.root@, n as int);
        }
        r
    }

    /// Every set with each member and the element it links to, as
    /// [`UnionFind::text`] describes.
    pub fn to_text(&self) -> (r: String)
        requires
            self.wf(),
        ensures
            r@ == self.text(),
    {
        let mut out = String::new();
        proof {
            reveal_strlit("UnionFind { ");
            reveal_strlit("[");
            reveal_strlit("] ");
            reveal_strlit("(");
            reveal_strlit(")");
            reveal_strlit(", ");
            reveal_strlit("}");
            assert("[" @ =~= seq!['[']);
            assert("] " @ =~= seq![']', ' ']);
            assert("(" @ =~= seq!['(']);
            assert(")" @ =~= seq![')']);
            assert(", " @ =~= seq![',', ' ']);
            assert("}" @ =~= seq!['}']);
        }
        out.append("UnionFind { ");
        let ghost head = out@;
        assert(head == seq!['U', 'n', 'i', 'o', 'n', 'F', 'i', 'n', 'd', ' ', '{', ' ']);
        let n = self.reps.len();
        let mut rep: usize = 0;
        while rep < n
            invariant
                n == self.size(),
                rep <= n,
                self.wf(),
                out@ == head + self.sets_text(rep as int),
                "[" @ == seq!['['],
                "] " @ == seq![']', ' '],
                "(" @ == seq!['('],
                ")" @ == seq![')'],
                ", " @ == seq![',', ' '],
            decreases n - rep,
        {
            if self.reps[rep] == rep {
                out.append("[");
                let ghost before = out@;
                let mut first = true;
                let mut member: usize = 0;
                while member < n
                    invariant
                        n == self.size(),
                        rep < n,
                        member <= n,
                        self.wf(),
                        out@ == before + self.members_text(rep as int, member as int),
                        "[" @ == seq!['['],
                        "] " @ == seq![']', ' '],
                        "(" @ == seq!['('],
                        ")" @ == seq![')'],
                        ", " @ == seq![',', ' '],
                        first == (self.members_text(rep as int, member as int).len() == 0),
                    decreases n - member,
                {
                    let ghost o0 = out@;
                    let ghost prev = self.members_text(rep as int, member as int);
                    if self.in_same_set(member, rep) {
                        if !first {
                            out.append(", ");
                        }
                        let ghost o1 = out@;
                        first = false;
                        push_decimal(&mut out, member);
                        out.append("(");
                        push_decimal(&mut out, self.reps[member]);
                        out.append(")");
                        proof {
                            assert(out@ =~= o1 + self.entry_text(member as int));
                            if prev.len() == 0 {
                                assert(o1 == o0);
                                assert(self.members_text(rep as int, member + 1) == self.entry_text(member as int));
                                assert(out@ =~= before + self.members_text(rep as int, member + 1));
                            } else {
                                assert(o1 =~= o0 + seq![',', ' ']);
                                assert(out@ =~= before + self.members_text(rep as int, member + 1));
                            }
                        }
                    }
                    member = member + 1;
                }
                out.append("] ");
                assert(out@ =~= head + self.sets_text(rep + 1));
            }
            rep = rep + 1;
        }
        out.append("}");
        assert(out@ =~= self.text());
        out
    }

    /// Number of elements.
    pub fn len(&self) -> (r: usize)
        ensures
            r == self.size(),
    {
        self.reps.len()
    }

    /// The element that `a` links to.
    pub fn parent(&self, a: usize) -> (r: usize)
        requires
            self.wf(),
            a < self.size(),
        ensures
            r == self.parent_of(a as int),
            r < self.size(),
            (r == a) == (self.root_of(a as int) == a),
    {
        self.reps[a]
    }

    /// The representative of `a`'s set, found by following parent links.
    pub fn rep(&self, a: usize) -> (r: usize)
        requires
            self.wf(),
            a < self.size(),
        ensures
            r == self.root_of(a as int),
            r < self.size(),
            self.root_of(r as int) == r,
            self.parent_of(r as int) == r,
            exists|k: nat| #[trigger] self.follow(a as int, k) == r,
    {
        let mut cur = a;
        let ghost mut steps: nat = 0;
        while self.reps[cur] != cur
            invariant
                self.wf(),
                cur < self.size(),
                self.root@[cur as int] == self.root@[a as int],
                self.follow(a as int, steps) == cur,
            decreases self.dist@[cur as int],
        {
            cur = self.reps[cur];
            proof {
                steps = steps + 1;
            }
        }
        cur
    }

    /// Whether `a` and `b` are in one set, that is, linked by the unions made
    /// so far.
    pub fn in_same_set(&self, a: usize, b: usize) -> (r: bool)
        requires
            self.wf(),
            a < self.size(),
            b < self.size(),
        ensures
            r == self.same(a as int, b as int),
            r == joined(self.history(), a as int, b as int),
    {
        self.rep(a) == self.rep(b)
    }

    /// Merges the sets of `a` and `b` by linking the root of `b`'s set to
    /// `a`; nothing changes where they already share a set.
    pub fn join(&mut self, a: usize, b: usize)
        requires
            old(self).wf(),
            a < old(self).size(),
            b < old(self).size(),
        ensures
            final(self).wf(),
            final(self).size() == old(self).size(),
            final(self).history() == old(self).history().push((a as int, b as int)),
            forall|x: int, y: int|
                0 <= x < old(self).size() && 0 <= y < old(self).size() ==> (final(self).same(x, y)
                    <==> old(self).merged(a as int, b as int, x, y)),
            old(self).same(a as int, b as int) ==> final(self).n_sets() == old(self).n_sets(),
            !old(self).same(a as int, b as int) ==> final(self).n_sets() == old(self).n_sets() - 1,
            !old(self).same(a as int, b as int) ==> final(self).parent_of(old(self).root_of(b as int))
                == a,
            forall|i: int|
                0 <= i < old(self).size() && (old(self).same(a as int, b as int)
                    || i != old(self).root_of(b as int)) ==> #[trigger] final(self).parent_of(i)
                    == old(self).parent_of(i),
    {
        let ghost n = self.reps@.len();
        let ghost old_root = self.root@;
        let ghost old_dist = self.dist@;
        let ghost old_unions = self.unions@;
        let ra = self.rep(a);
        let rb = self.rep(b);
        let ghost hist = old_unions.push((a as int, b as int));
        if ra != rb {
            self.reps.set(rb, a);
            let ghost da = old_dist[a as int];
            self.root = Ghost(relinked_roots(old_root, rb as int, ra as int));
            self.dist = Ghost(relinked_dists(old_root, old_dist, rb as int, da + 1));
        }
        self.unions = Ghost(hist);
        proof {
            assert(hist.drop_last() == old_unions);
            assert forall|x: int, y: int| 0 <= x < n && 0 <= y < n implies (self.root@[x]
                == self.root@[y] <==> #[trigger] joined(hist, x, y)) by {
                assert(joined(old_unions, x, y) == (old_root[x] == old_root[y]));
                assert(joined(old_unions, x, a as int) == (old_root[x] == old_root[a as int]));
                assert(joined(old_unions, x, b as int) == (old_root[x] == old_root[b as int]));
                assert(joined(old_unions, b as int, y) == (old_root[b as int] == old_root[y]));
                assert(joined(old_unions, a as int, y) == (old_root[a as int] == old_root[y]));
            }
            if ra != rb {
                assert forall|i: int| 0 <= i < n implies 0 <= #[trigger] self.root@[i] < n
                    && self.reps@[self.root@[i]] == self.root@[i] by {
                    assert(old(self).reps@[old_root[i]] == old_root[i]);
                    assert(old(self).reps@[old_root[ra as int]] == old_root[ra as int]);
                }
                assert forall|i: int| 0 <= i < n && #[trigger] self.reps@[i] != i implies self.root@[i]
                    == self.root@[self.reps@[i] as int] && self.dist@[i] == self.dist@[self.reps@[
                    i] as int] + 1 by {
                    if i != rb as int {
                        assert(old(self).reps@[i] == self.reps@[i]);
                    }
                }
                assert forall|i: int| 0 <= i < n && i != rb implies (#[trigger] self.root@[i] == i <==> old_root[i] == i) by {
                    if old_root[i] == rb as int {
                        assert(old_root[ra as int] == ra as int);
                    }
                }
                lemma_roots_lose_one(old_root, self.root@, rb as int, n as int);
            }
        }
    }
}

/// The representative reached from a representative is itself, and two
/// elements are in one set exactly when the union history links them.
pub proof fn lemma_find_idempotent(uf: &UnionFind, a: int, b: int)
    requires
        uf.wf(),
        0 <= a < uf.size(),
        0 <= b < uf.size(),
    ensures
        uf.root_of(uf.root_of(a)) == uf.root_of(a),
        uf.same(a, b) <==> joined(uf.history(), a, b),
{
    assert(uf.root@[a] == uf.root@[a]);
    assert(joined(uf.unions@, a, b) == (uf.root@[a] == uf.root@[b]));
    let r = uf.root@[a];
    assert(uf.reps@[r] == r);
}

/// Once every pair of elements shares a set, there is one set.
pub proof fn lemma_one_set(uf: &UnionFind)
    requires
        uf.wf(),
        uf.size() > 0,
        forall|a: int, b: int| 0 <= a < uf.size() && 0 <= b < uf.size() ==> #[trigger] uf.same(a, b),
    ensures
        uf.n_sets() == 1,
{
    let r0 = uf.root@[0];
    assert forall|i: int| 0 <= i < uf.root@.len() implies (#[trigger] uf.root@[i] == i <==> i == r0) by {
        assert(uf.same(i, 0));
        assert(uf.reps@[r0] == r0);
        if uf.root@[i] == i {
            assert(uf.reps@[uf.root@[i]] == uf.root@[i]);
        }
    }
    lemma_single_root(uf.root@, r0, uf.root@.len() as int);
}

} // verus!
