//! Grid mazes: cells at odd-odd coordinates, the slots between neighbouring
//! cells at odd-even or even-odd coordinates, walls everywhere else.

use crate::frame::Pos;
use crate::union_find::{joined, lemma_one_set, UnionFind};
use rand::seq::SliceRandom;
use vstd::prelude::*;
use vstd::string::StringExecFns;

verus! {

#[derive(Clone, Copy, Debug, PartialEq, Eq, Structural)]
pub enum Tile {
    Free,
    Wall,
}

/// A grid of tiles, stored row by row: `tiles[y][x]`.
pub struct Maze {
    pub tiles: Vec<Vec<Tile>>,
}

/// Cells sit at odd-odd coordinates.
pub open spec fn is_cell(x: int, y: int) -> bool {
    x % 2 == 1 && y % 2 == 1
}

/// Grid sizes for which every coordinate, and every cell index, fits a
/// `usize`.
pub open spec fn dims_fit(nx: int, ny: int) -> bool {
    &&& 1 <= nx
    &&& 1 <= ny
    &&& 2 * nx + 1 <= usize::MAX
    &&& 2 * ny + 1 <= usize::MAX
    &&& nx * ny <= usize::MAX
}

/// `(x, y)` lies in the `(2 nx + 1) x (2 ny + 1)` grid.
pub open spec fn in_grid(nx: int, ny: int, x: int, y: int) -> bool {
    0 <= x <= 2 * nx && 0 <= y <= 2 * ny
}

/// `(x, y)` lies on the outer ring of the grid.
pub open spec fn on_border(nx: int, ny: int, x: int, y: int) -> bool {
    x == 0 || y == 0 || x == 2 * nx || y == 2 * ny
}

/// The slot between two cells side by side (`(2i, 2j+1)`, `1 <= i < nx`) or
/// one above the other (`(2i+1, 2j)`, `1 <= j < ny`).
pub open spec fn is_edge_slot(nx: int, ny: int, x: int, y: int) -> bool {
    ||| (x % 2 == 0 && y % 2 == 1 && 2 <= x <= 2 * nx - 2 && 0 < y < 2 * ny)
    ||| (x % 2 == 1 && y % 2 == 0 && 2 <= y <= 2 * ny - 2 && 0 < x < 2 * nx)
}

/// Index of the cell at `(x, y)` in `0..nx * ny`, row by row.
pub open spec fn cell_index(nx: int, x: int, y: int) -> int {
    (y / 2) * nx + x / 2
}

/// The two cells that an edge slot separates.
pub open spec fn edge_ends(e: Pos) -> ((int, int), (int, int)) {
    if e.x % 2 == 0 {
        ((e.x - 1, e.y as int), (e.x + 1, e.y as int))
    } else {
        ((e.x as int, e.y - 1), (e.x as int, e.y + 1))
    }
}

pub open spec fn free_in(g: Seq<Vec<Tile>>, p: (int, int)) -> bool {
    0 <= p.1 < g.len() && 0 <= p.0 < g[p.1]@.len() && g[p.1]@[p.0] == Tile::Free
}

pub open spec fn adjacent(a: (int, int), b: (int, int)) -> bool {
    ||| (a.0 == b.0 && (a.1 == b.1 + 1 || b.1 == a.1 + 1))
    ||| (a.1 == b.1 && (a.0 == b.0 + 1 || b.0 == a.0 + 1))
}

/// A walk over free tiles, each step to a side neighbour.
pub open spec fn is_path(g: Seq<Vec<Tile>>, p: Seq<(int, int)>) -> bool {
    &&& p.len() > 0
    &&& forall|i: int| 0 <= i < p.len() ==> free_in(g, #[trigger] p[i])
    &&& forall|i: int| 0 <= i < p.len() - 1 ==> adjacent(#[trigger] p[i], p[i + 1])
}

/// `b` can be reached from `a` by walking over free tiles.
pub open spec fn reachable(g: Seq<Vec<Tile>>, a: (int, int), b: (int, int)) -> bool {
    exists|p: Seq<(int, int)>| is_path(g, p) && p[0] == a && p.last() == b
}

/// The cell `(x, y)` (grid coordinates) exists in the `nx x ny` maze.
pub open spec fn cell_in(nx: int, ny: int, x: int, y: int) -> bool {
    in_grid(nx, ny, x, y) && is_cell(x, y)
}

/// Every cell of the maze can be reached from every other over free tiles.
pub open spec fn connected(g: Seq<Vec<Tile>>, nx: int, ny: int) -> bool {
    forall|ax: int, ay: int, bx: int, by: int|
        cell_in(nx, ny, ax, ay) && cell_in(nx, ny, bx, by) ==> #[trigger] reachable(
            g,
            (ax, ay),
            (bx, by),
        )
}

/// Every tile free in `g` is free in `h`.
pub open spec fn frees_kept(g: Seq<Vec<Tile>>, h: Seq<Vec<Tile>>) -> bool {
    forall|p: (int, int)| free_in(g, p) ==> #[trigger] free_in(h, p)
}

proof fn lemma_reach_refl(g: Seq<Vec<Tile>>, a: (int, int))
    requires
        free_in(g, a),
    ensures
        reachable(g, a, a),
{
    let p = seq![a];
    assert(is_path(g, p));
    assert(p[0] == a && p.last() == a);
}

proof fn lemma_reach_mono(g: Seq<Vec<Tile>>, h: Seq<Vec<Tile>>, a: (int, int), b: (int, int))
    requires
        reachable(g, a, b),
        frees_kept(g, h),
    ensures
        reachable(h, a, b),
{
    let p = choose|p: Seq<(int, int)>| is_path(g, p) && p[0] == a && p.last() == b;
    assert forall|i: int| 0 <= i < p.len() implies free_in(h, #[trigger] p[i]) by {
        assert(free_in(g, p[i]));
    }
    assert(is_path(h, p));
}

proof fn lemma_reach_trans(g: Seq<Vec<Tile>>, a: (int, int), b: (int, int), c: (int, int))
    requires
        reachable(g, a, b),
        reachable(g, b, c),
    ensures
        reachable(g, a, c),
{
    let p1 = choose|p: Seq<(int, int)>| is_path(g, p) && p[0] == a && p.last() == b;
    let p2 = choose|p: Seq<(int, int)>| is_path(g, p) && p[0] == b && p.last() == c;
    let q = p1 + p2.drop_first();
    assert forall|i: int| 0 <= i < q.len() implies free_in(g, #[trigger] q[i]) by {
        if i < p1.len() {
            assert(q[i] == p1[i]);
        } else {
            assert(q[i] == p2[i - p1.len() + 1]);
        }
    }
    assert forall|i: int| 0 <= i < q.len() - 1 implies adjacent(#[trigger] q[i], q[i + 1]) by {
        if i < p1.len() - 1 {
            assert(q[i] == p1[i] && q[i + 1] == p1[i + 1]);
        } else if i == p1.len() - 1 {
            assert(q[i] == p2[0]);
            assert(q[i + 1] == p2[1]);
        } else {
            assert(q[i] == p2[i - p1.len() + 1]);
            assert(q[i + 1] == p2[i - p1.len() + 2]);
        }
    }
    assert(is_path(g, q));
    assert(q[0] == a);
    if p2.len() == 1 {
        assert(q.last() == p1.last());
    } else {
        assert(q.last() == p2.last());
    }
}

proof fn lemma_reach_through(g: Seq<Vec<Tile>>, a: (int, int), e: (int, int), b: (int, int))
    requires
        free_in(g, a),
        free_in(g, e),
        free_in(g, b),
        adjacent(a, e),
        adjacent(e, b),
    ensures
        reachable(g, a, b),
{
    let p = seq![a, e, b];
    assert(p[0] == a && p[1] == e && p[2] == b);
    assert(is_path(g, p));
    assert(p.last() == b);
}

/// Where every slot joins the two cells it separates in one set, all cells are
/// in the set of cell `0`.
proof fn lemma_cells_joined(uf: &UnionFind, nx: int, ny: int, i: int, j: int)
    requires
        1 <= nx,
        1 <= ny,
        0 <= i < nx,
        0 <= j < ny,
        forall|a: int, b: int|
            1 <= a < nx && 0 <= b < ny ==> #[trigger] uf.same(b * nx + a - 1, b * nx + a),
        forall|a: int, b: int|
            0 <= a < nx && 1 <= b < ny ==> #[trigger] uf.same((b - 1) * nx + a, b * nx + a),
    ensures
        uf.same(j * nx + i, 0),
    decreases i + j,
{
    if i > 0 {
        lemma_cells_joined(uf, nx, ny, i - 1, j);
        assert(uf.same(j * nx + i - 1, j * nx + i));
        assert(j * nx + (i - 1) == j * nx + i - 1);
    } else if j > 0 {
        lemma_cells_joined(uf, nx, ny, 0, j - 1);
        assert(uf.same((j - 1) * nx + 0, j * nx + 0));
    } else {
        assert(j * nx + i == 0) by (nonlinear_arith)
            requires
                i == 0,
                j == 0,
                ;
    }
}

/// Indices of the two cells on either side of slot `e`.
pub open spec fn end_indices(nx: int, e: Pos) -> (int, int) {
    let (u, v) = edge_ends(e);
    (cell_index(nx, u.0, u.1), cell_index(nx, v.0, v.1))
}

/// The unions that the spanning phase makes over the first `k` slots of
/// `edges`: a slot's two cells are joined unless earlier unions already link
/// them.
pub open spec fn spanning_unions(nx: int, edges: Seq<Pos>, k: int) -> Seq<(int, int)>
    decreases k,
{
    if k <= 0 {
        Seq::empty()
    } else {
        let prev = spanning_unions(nx, edges, k - 1);
        let (a, b) = end_indices(nx, edges[k - 1]);
        if joined(prev, a, b) {
            prev
        } else {
            prev.push((a, b))
        }
    }
}

/// Whether the spanning phase opens slot `k` of `edges`.
pub open spec fn opens(nx: int, edges: Seq<Pos>, k: int) -> bool {
    let (a, b) = end_indices(nx, edges[k]);
    !joined(spanning_unions(nx, edges, k), a, b)
}

/// The slots among the first `k` of `edges` that the spanning phase leaves
/// closed, in order.
pub open spec fn left_closed(nx: int, edges: Seq<Pos>, k: int) -> Seq<Pos>
    decreases k,
{
    if k <= 0 {
        Seq::empty()
    } else {
        let prev = left_closed(nx, edges, k - 1);
        if opens(nx, edges, k - 1) {
            prev
        } else {
            prev.push(edges[k - 1])
        }
    }
}

/// `(x, y)` is one of the first `k` slots of `edges` that the spanning phase
/// opens.
pub open spec fn opened_among(nx: int, edges: Seq<Pos>, k: int, x: int, y: int) -> bool {
    exists|j: int|
        0 <= j < k && opens(nx, edges, j) && #[trigger] edges[j] == Pos { x: x as usize, y: y as usize }
}

/// The two cells on either side of slot `e` are in one set of `uf`.
pub open spec fn ends_joined(uf: &UnionFind, nx: int, e: Pos) -> bool {
    let (u, v) = edge_ends(e);
    uf.same(cell_index(nx, u.0, u.1), cell_index(nx, v.0, v.1))
}

proof fn lemma_cell_index_range(nx: int, ny: int, x: int, y: int)
    requires
        1 <= nx,
        1 <= ny,
        cell_in(nx, ny, x, y),
    ensures
        0 <= cell_index(nx, x, y) < nx * ny,
        cell_index(nx, x, y) == (y / 2) * nx + x / 2,
{
    let i = x / 2;
    let j = y / 2;
    assert(0 <= j * nx + i < nx * ny) by (nonlinear_arith)
        requires
            0 <= i < nx,
            0 <= j < ny,
            ;
}

proof fn lemma_cell_index_unique(nx: int, ny: int, ax: int, ay: int, bx: int, by: int)
    requires
        1 <= nx,
        1 <= ny,
        cell_in(nx, ny, ax, ay),
        cell_in(nx, ny, bx, by),
        cell_index(nx, ax, ay) == cell_index(nx, bx, by),
    ensures
        ax == bx && ay == by,
{
    let (i1, j1, i2, j2) = (ax / 2, ay / 2, bx / 2, by / 2);
    assert(i1 == i2 && j1 == j2) by (nonlinear_arith)
        requires
            0 <= i1 < nx,
            0 <= i2 < nx,
            0 <= j1,
            0 <= j2,
            j1 * nx + i1 == j2 * nx + i2,
            ;
}

/// Opening an edge slot keeps the maze well formed and every free tile free.
proof fn lemma_open_slot(m0: &Maze, m1: &Maze, nx: int, ny: int, e: Pos)
    requires
        m0.well_formed(nx, ny),
        is_edge_slot(nx, ny, e.x as int, e.y as int),
        m1.tiles@.len() == m0.tiles@.len(),
        forall|r: int| 0 <= r < m0.tiles@.len() && r != e.y ==> #[trigger] m1.tiles@[r] == m0.tiles@[r],
        m1.tiles@[e.y as int]@ == m0.tiles@[e.y as int]@.update(e.x as int, Tile::Free),
    ensures
        m1.well_formed(nx, ny),
        frees_kept(m0.tiles@, m1.tiles@),
        free_in(m1.tiles@, (e.x as int, e.y as int)),
        forall|x: int, y: int|
            !(x == e.x && y == e.y) && in_grid(nx, ny, x, y) ==> #[trigger] m1.tile(x, y)
                == m0.tile(x, y),
{
    assert forall|y: int| 0 <= y <= 2 * ny implies (#[trigger] m1.tiles@[y])@.len() == 2 * nx + 1 by {
        assert(m0.tiles@[y]@.len() == 2 * nx + 1);
    }
    assert forall|x: int, y: int| !(x == e.x && y == e.y) && in_grid(nx, ny, x, y) implies #[trigger] m1.tile(
        x,
        y,
    ) == m0.tile(x, y) by {
        if y != e.y {
            assert(m1.tiles@[y] == m0.tiles@[y]);
        }
    }
    assert forall|p: (int, int)| free_in(m0.tiles@, p) implies #[trigger] free_in(m1.tiles@, p) by {
        if p.1 != e.y {
            assert(m1.tiles@[p.1] == m0.tiles@[p.1]);
        }
    }
    assert forall|x: int, y: int| in_grid(nx, ny, x, y) implies {
        &&& is_cell(x, y) ==> #[trigger] m1.tile(x, y) == Tile::Free
        &&& (!is_cell(x, y) && !is_edge_slot(nx, ny, x, y)) ==> m1.tile(x, y) == Tile::Wall
    } by {
        if !(x == e.x && y == e.y) {
            assert(m1.tile(x, y) == m0.tile(x, y));
            assert(is_cell(x, y) ==> m0.tile(x, y) == Tile::Free);
        }
    }
}

/// After the sets of cells `a` and `b` are merged and the slot `e` between
/// them opened, cells in one set are still reachable from each other.
proof fn lemma_join_keeps_reach(
    s0: &UnionFind,
    s1: &UnionFind,
    g0: Seq<Vec<Tile>>,
    g1: Seq<Vec<Tile>>,
    nx: int,
    ny: int,
    a: (int, int),
    e: (int, int),
    b: (int, int),
)
    requires
        dims_fit(nx, ny),
        s0.size() == nx * ny,
        cell_in(nx, ny, a.0, a.1),
        cell_in(nx, ny, b.0, b.1),
        frees_kept(g0, g1),
        free_in(g1, a),
        free_in(g1, e),
        free_in(g1, b),
        adjacent(a, e),
        adjacent(e, b),
        forall|x: int, y: int|
            0 <= x < s0.size() && 0 <= y < s0.size() ==> (s1.same(x, y) <==> s0.merged(
                cell_index(nx, a.0, a.1),
                cell_index(nx, b.0, b.1),
                x,
                y,
            )),
        forall|ax: int, ay: int, bx: int, by: int|
            cell_in(nx, ny, ax, ay) && cell_in(nx, ny, bx, by) && #[trigger] s0.same(
                cell_index(nx, ax, ay),
                cell_index(nx, bx, by),
            ) ==> reachable(g0, (ax, ay), (bx, by)),
    ensures
        forall|ax: int, ay: int, bx: int, by: int|
            cell_in(nx, ny, ax, ay) && cell_in(nx, ny, bx, by) && #[trigger] s1.same(
                cell_index(nx, ax, ay),
                cell_index(nx, bx, by),
            ) ==> reachable(g1, (ax, ay), (bx, by)),
{
    let ia = cell_index(nx, a.0, a.1);
    let ib = cell_index(nx, b.0, b.1);
    lemma_reach_through(g1, a, e, b);
    lemma_reach_through(g1, b, e, a);
    assert forall|ax: int, ay: int, bx: int, by: int|
        cell_in(nx, ny, ax, ay) && cell_in(nx, ny, bx, by) && #[trigger] s1.same(
            cell_index(nx, ax, ay),
            cell_index(nx, bx, by),
        ) implies reachable(g1, (ax, ay), (bx, by)) by {
        let ca = cell_index(nx, ax, ay);
        let cb = cell_index(nx, bx, by);
        lemma_cell_index_range(nx, ny, ax, ay);
        lemma_cell_index_range(nx, ny, bx, by);
        assert(s0.merged(ia, ib, ca, cb));
        if s0.same(ca, cb) {
            lemma_reach_mono(g0, g1, (ax, ay), (bx, by));
        } else if s0.same(ca, ia) && s0.same(ib, cb) {
            assert(s0.same(cell_index(nx, ax, ay), cell_index(nx, a.0, a.1)));
            assert(s0.same(cell_index(nx, b.0, b.1), cell_index(nx, bx, by)));
            lemma_reach_mono(g0, g1, (ax, ay), a);
            lemma_reach_mono(g0, g1, b, (bx, by));
            lemma_reach_trans(g1, (ax, ay), a, b);
            lemma_reach_trans(g1, (ax, ay), b, (bx, by));
        } else {
            assert(s0.same(cell_index(nx, ax, ay), cell_index(nx, b.0, b.1)));
            assert(s0.same(cell_index(nx, a.0, a.1), cell_index(nx, bx, by)));
            lemma_reach_mono(g0, g1, (ax, ay), b);
            lemma_reach_mono(g0, g1, a, (bx, by));
            lemma_reach_trans(g1, (ax, ay), b, a);
            lemma_reach_trans(g1, (ax, ay), a, (bx, by));
        }
    }
}

/// Every index in `0..nx * ny` is the index of a cell.
proof fn lemma_index_is_cell(nx: int, ny: int, k: int)
    requires
        1 <= nx,
        1 <= ny,
        0 <= k < nx * ny,
    ensures
        cell_in(nx, ny, 2 * (k % nx) + 1, 2 * (k / nx) + 1),
        cell_index(nx, 2 * (k % nx) + 1, 2 * (k / nx) + 1) == k,
{
    vstd::arithmetic::div_mod::lemma_fundamental_div_mod(k, nx);
    let i = k % nx;
    let j = k / nx;
    assert(j < ny) by (nonlinear_arith)
        requires
            k == nx * j + i,
            0 <= i,
            k < nx * ny,
            1 <= nx,
            ;
    assert(0 <= j) by (nonlinear_arith)
        requires
            k == nx * j + i,
            0 <= k,
            i < nx,
            1 <= nx,
            ;
    assert((2 * j + 1) / 2 == j);
    assert((2 * i + 1) / 2 == i);
    assert(j * nx == nx * j) by (nonlinear_arith);
}

/// Once every slot is listed and each listed slot has its two cells in one
/// set, every cell shares a set with every other.
proof fn lemma_all_slots_connect(uf: &UnionFind, edges: Seq<Pos>, nx: int, ny: int)
    requires
        dims_fit(nx, ny),
        every_slot_in(nx, ny, edges),
        forall|k: int| 0 <= k < edges.len() ==> #[trigger] ends_joined(uf, nx, edges[k]),
        only_slots(nx, ny, edges),
    ensures
        forall|ax: int, ay: int, bx: int, by: int|
            cell_in(nx, ny, ax, ay) && cell_in(nx, ny, bx, by) ==> #[trigger] uf.same(
                cell_index(nx, ax, ay),
                cell_index(nx, bx, by),
            ),
{
    assert forall|a: int, b: int| 1 <= a < nx && 0 <= b < ny implies #[trigger] uf.same(b * nx + a - 1, b * nx + a) by {
        let x = 2 * a;
        let y = 2 * b + 1;
        assert(is_edge_slot(nx, ny, x, y));
        let k = choose|k: int| 0 <= k < edges.len() && edges[k] == Pos { x: x as usize, y: y as usize };
        assert(ends_joined(uf, nx, edges[k]));
        assert(cell_index(nx, x - 1, y) == b * nx + a - 1);
        assert(cell_index(nx, x + 1, y) == b * nx + a);
    }
    assert forall|a: int, b: int| 0 <= a < nx && 1 <= b < ny implies #[trigger] uf.same(
        (b - 1) * nx + a,
        b * nx + a,
    ) by {
        let x = 2 * a + 1;
        let y = 2 * b;
        assert(is_edge_slot(nx, ny, x, y));
        let k = choose|k: int| 0 <= k < edges.len() && edges[k] == Pos { x: x as usize, y: y as usize };
        assert(ends_joined(uf, nx, edges[k]));
        assert(cell_index(nx, x, y - 1) == (b - 1) * nx + a);
        assert(cell_index(nx, x, y + 1) == b * nx + a);
    }
    assert forall|ax: int, ay: int, bx: int, by: int|
        cell_in(nx, ny, ax, ay) && cell_in(nx, ny, bx, by) implies #[trigger] uf.same(
            cell_index(nx, ax, ay),
            cell_index(nx, bx, by),
        ) by {
        lemma_cells_joined(uf, nx, ny, ax / 2, ay / 2);
        lemma_cells_joined(uf, nx, ny, bx / 2, by / 2);
    }
}

/// `(x, y)` is one of the first `n` positions of `edges`.
pub open spec fn among_first(edges: Seq<Pos>, n: int, x: int, y: int) -> bool {
    exists|k: int| 0 <= k < n && k < edges.len() && edges[k] == Pos { x: x as usize, y: y as usize }
}

/// `order` lists every edge slot of the `nx x ny` maze once, and nothing
/// else.
pub open spec fn lists_all_slots(nx: int, ny: int, order: Seq<Pos>) -> bool {
    only_slots(nx, ny, order) && every_slot_in(nx, ny, order) && order.no_duplicates()
}

/// How many of the `unused` slots that the spanning phase left closed are
/// reopened: `nx * ny / 2`, or half of them where there are fewer than that.
pub open spec fn reopen_count(nx: int, ny: int, unused: int) -> int {
    if unused >= (nx * ny) / 2 {
        (nx * ny) / 2
    } else {
        unused / 2
    }
}

/// The tiles of `m` are those that the randomised Kruskal construction gives
/// when the slots are taken in `order` and the slots left closed are then
/// reopened in `extra` order: the cells, the `nx * ny - 1` slots that the
/// spanning phase opens, and the first `reopen_count` of `extra`.
pub open spec fn kruskal_outcome(nx: int, ny: int, order: Seq<Pos>, extra: Seq<Pos>, m: Maze) -> bool {
    &&& lists_all_slots(nx, ny, order)
    &&& extra.to_multiset() == left_closed(nx, order, order.len() as int).to_multiset()
    &&& spanning_unions(nx, order, order.len() as int).len() == nx * ny - 1
    &&& extra.len() == order.len() - (nx * ny - 1)
    &&& forall|x: int, y: int|
        in_grid(nx, ny, x, y) ==> (#[trigger] m.tile(x, y) == Tile::Free <==> (is_cell(x, y)
            || opened_among(nx, order, order.len() as int, x, y) || among_first(
            extra,
            reopen_count(nx, ny, extra.len() as int),
            x,
            y,
        )))
}

/// Relies on `rand::seq::SliceRandom::shuffle` with `rand::rng()`: it
/// reorders the vector by swapping elements, so it holds the same positions,
/// each as often as before.
#[verifier::external_body]
fn shuffle_positions(v: &mut Vec<Pos>)
    ensures
        final(v)@.to_multiset() == old(v)@.to_multiset(),
{
    v.shuffle(&mut rand::rng());
}

/// A tile as text: a space where free, `O` for a wall.
pub open spec fn tile_char(t: Tile) -> char {
    match t {
        Tile::Free => ' ',
        Tile::Wall => 'O',
    }
}

/// One row as text, without its line break.
pub open spec fn row_text(row: Seq<Tile>) -> Seq<char>
    decreases row.len(),
{
    if row.len() == 0 {
        Seq::empty()
    } else {
        row_text(row.drop_last()).push(tile_char(row.last()))
    }
}

/// The rows as text, each followed by a line break.
pub open spec fn grid_text(rows: Seq<Vec<Tile>>) -> Seq<char>
    decreases rows.len(),
{
    if rows.len() == 0 {
        Seq::empty()
    } else {
        grid_text(rows.drop_last()) + row_text(rows.last()@).push('\n')
    }
}

impl Maze {
    pub open spec fn tile(&self, x: int, y: int) -> Tile {
        self.tiles@[y]@[x]
    }

    /// The grid has `2 ny + 1` rows of `2 nx + 1` tiles.
    pub open spec fn shaped(&self, nx: int, ny: int) -> bool {
        &&& self.tiles@.len() == 2 * ny + 1
        &&& forall|y: int| 0 <= y <= 2 * ny ==> (#[trigger] self.tiles@[y])@.len() == 2 * nx + 1
    }

    /// Shaped, every cell free, and everything but cells and edge slots a
    /// wall (the outer ring in particular).
    pub open spec fn well_formed(&self, nx: int, ny: int) -> bool {
        &&& self.shaped(nx, ny)
        &&& forall|x: int, y: int|
            in_grid(nx, ny, x, y) ==> {
                &&& is_cell(x, y) ==> #[trigger] self.tile(x, y) == Tile::Free
                &&& (!is_cell(x, y) && !is_edge_slot(nx, ny, x, y)) ==> self.tile(x, y)
                    == Tile::Wall
            }
    }

    /// The maze with every cell free and every other tile a wall.
    pub fn empty(nx: usize, ny: usize) -> (r: Maze)
        requires
            dims_fit(nx as int, ny as int),
        ensures
            r.shaped(nx as int, ny as int),
            forall|x: int, y: int|
                in_grid(nx as int, ny as int, x, y) ==> (#[trigger] r.tile(x, y) == Tile::Free
                    <==> is_cell(x, y)),
    {
        let mut maze = Maze { tiles: Vec::new() };
        let mut line: usize = 0;
        while line < 2 * ny + 1
            invariant
                line <= 2 * ny + 1,
                dims_fit(nx as int, ny as int),
                maze.tiles@.len() == line,
                forall|y: int| 0 <= y < line ==> (#[trigger] maze.tiles@[y])@.len() == 2 * nx + 1,
                forall|x: int, y: int|
                    0 <= x <= 2 * nx && 0 <= y < line ==> (#[trigger] maze.tile(x, y)
                        == Tile::Free <==> is_cell(x, y)),
            decreases 2 * ny + 1 - line,
        {
            let mut ln: Vec<Tile> = Vec::new();
            let mut x: usize = 0;
            while x < 2 * nx + 1
                invariant
                    x <= 2 * nx + 1,
                    dims_fit(nx as int, ny as int),
                    ln@.len() == x,
                    forall|i: int|
                        0 <= i < x ==> (#[trigger] ln@[i] == Tile::Free <==> is_cell(
                            i,
                            line as int,
                        )),
                decreases 2 * nx + 1 - x,
            {
                if line % 2 == 1 && x % 2 == 1 {
                    ln.push(Tile::Free);
                } else {
                    ln.push(Tile::Wall);
                }
                x = x + 1;
            }
            let ghost before = maze.tiles@;
            let ghost m0 = maze;
            maze.tiles.push(ln);
            proof {
                assert forall|x: int, y: int|
                    0 <= x <= 2 * nx && 0 <= y < line + 1 implies (#[trigger] maze.tile(x, y)
                        == Tile::Free <==> is_cell(x, y)) by {
                    if y < line {
                        assert(maze.tiles@[y] == before[y]);
                        assert(m0.tile(x, y) == Tile::Free <==> is_cell(x, y));
                    } else {
                        assert(maze.tiles@[y] == ln);
                        assert(ln@[x] == Tile::Free <==> is_cell(x, y));
                    }
                }
            }
            line = line + 1;
        }
        maze
    }

    /// The maze as text, one line per row: a space for a free tile, `O` for
    /// a wall.
    pub fn to_text(&self) -> (r: String)
        ensures
            r@ == grid_text(self.tiles@),
    {
        let mut out = String::new();
        let mut y: usize = 0;
        while y < self.tiles.len()
            invariant
                y <= self.tiles@.len(),
                out@ == grid_text(self.tiles@.take(y as int)),
            decreases self.tiles@.len() - y,
        {
            let row = &self.tiles[y];
            let ghost before = out@;
            let mut x: usize = 0;
            while x < row.len()
                invariant
                    x <= row@.len(),
                    row == self.tiles@[y as int],
                    out@ == before + row_text(row@.take(x as int)),
                decreases row@.len() - x,
            {
                proof {
                    reveal_strlit(" ");
                    reveal_strlit("O");
                    assert(row@.take(x as int + 1).drop_last() == row@.take(x as int));
                }
                match row[x] {
                    Tile::Free => out.append(" "),
                    Tile::Wall => out.append("O"),
                }
                x = x + 1;
            }
            proof {
                reveal_strlit("\n");
                assert(row@.take(x as int) == row@);
                assert(self.tiles@.take(y as int + 1).drop_last() == self.tiles@.take(y as int));
            }
            out.append("\n");
            y = y + 1;
        }
        proof {
            assert(self.tiles@.take(y as int) == self.tiles@);
        }
        out
    }

    /// Sets the tile at `(x, y)`.
    fn set_tile(&mut self, x: usize, y: usize, t: Tile)
        requires
            y < old(self).tiles@.len(),
            x < old(self).tiles@[y as int]@.len(),
        ensures
            final(self).tiles@.len() == old(self).tiles@.len(),
            forall|r: int|
                0 <= r < old(self).tiles@.len() && r != y ==> #[trigger] final(self).tiles@[r]
                    == old(self).tiles@[r],
            final(self).tiles@[y as int]@ == old(self).tiles@[y as int]@.update(x as int, t),
    {
        self.tiles[y].set(x, t);
    }

    /// The spanning phase: walks `edges` in order and opens each slot whose
    /// two cells are not yet connected, joining their sets; returns, in order,
    /// the slots that were left closed.
    #[verifier::rlimit(60)]
    #[verifier::spinoff_prover]
    pub fn carve_spanning(&mut self, nx: usize, ny: usize, edges: &Vec<Pos>) -> (unused: Vec<Pos>)
        requires
            dims_fit(nx as int, ny as int),
            old(self).well_formed(nx as int, ny as int),
            only_slots(nx as int, ny as int, edges@),
        ensures
            final(self).well_formed(nx as int, ny as int),
            frees_kept(old(self).tiles@, final(self).tiles@),
            forall|x: int, y: int|
                in_grid(nx as int, ny as int, x, y) ==> (#[trigger] final(self).tile(x, y) == Tile::Free
                    <==> (old(self).tile(x, y) == Tile::Free || opened_among(
                    nx as int,
                    edges@,
                    edges@.len() as int,
                    x,
                    y,
                ))),
            unused@ == left_closed(nx as int, edges@, edges@.len() as int),
            forall|k: int| 0 <= k < unused@.len() ==> edges@.contains(#[trigger] unused@[k]),
            every_slot_in(nx as int, ny as int, edges@) ==> connected(final(self).tiles@, nx as int, ny as int),
            every_slot_in(nx as int, ny as int, edges@) ==> spanning_unions(nx as int, edges@, edges@.len() as int).len() == nx * ny - 1
                && unused@.len() == edges@.len() - (nx * ny - 1),
    {
        let ghost orig = *self;
        let ghost nxi = nx as int;
        let ghost nyi = ny as int;
        let mut sets = UnionFind::new(nx * ny);
        let mut unused: Vec<Pos> = Vec::new();
        let mut i: usize = 0;
        proof {
            assert forall|ax: int, ay: int, bx: int, by: int|
                cell_in(nxi, nyi, ax, ay) && cell_in(nxi, nyi, bx, by) && #[trigger] sets.same(
                    cell_index(nxi, ax, ay),
                    cell_index(nxi, bx, by),
                ) implies reachable(self.tiles@, (ax, ay), (bx, by)) by {
                lemma_cell_index_range(nxi, nyi, ax, ay);
                lemma_cell_index_range(nxi, nyi, bx, by);
                lemma_cell_index_unique(nxi, nyi, ax, ay, bx, by);
                assert(self.tile(ax, ay) == Tile::Free);
                lemma_reach_refl(self.tiles@, (ax, ay));
            }
        }
        while i < edges.len()
            invariant
                i <= edges@.len(),
                dims_fit(nxi, nyi),
                nxi == nx,
                nyi == ny,
                only_slots(nxi, nyi, edges@),
                self.well_formed(nxi, nyi),
                frees_kept(orig.tiles@, self.tiles@),
                forall|x: int, y: int|
                    in_grid(nxi, nyi, x, y) ==> (#[trigger] self.tile(x, y) == Tile::Free
                        <==> (orig.tile(x, y) == Tile::Free || opened_among(nxi, edges@, i as int, x, y))),
                unused@ == left_closed(nxi, edges@, i as int),
                sets.history() == spanning_unions(nxi, edges@, i as int),
                sets.n_sets() + sets.history().len() == nx * ny,
                unused@.len() + sets.history().len() == i,
                forall|k: int| 0 <= k < unused@.len() ==> edges@.contains(#[trigger] unused@[k]),
                sets.wf(),
                sets.size() == nx * ny,
                forall|ax: int, ay: int, bx: int, by: int|
                    cell_in(nxi, nyi, ax, ay) && cell_in(nxi, nyi, bx, by) && #[trigger] sets.same(
                        cell_index(nxi, ax, ay),
                        cell_index(nxi, bx, by),
                    ) ==> reachable(self.tiles@, (ax, ay), (bx, by)),
                forall|k: int|
                    0 <= k < i ==> #[trigger] ends_joined(&sets, nxi, edges@[k]),
            decreases edges@.len() - i,
        {
            let edge = edges[i];
            let (pa, pb) = if is_horizontal_edge(edge) {
                (Pos { x: edge.x - 1, y: edge.y }, Pos { x: edge.x + 1, y: edge.y })
            } else {
                (Pos { x: edge.x, y: edge.y - 1 }, Pos { x: edge.x, y: edge.y + 1 })
            };
            assert(is_edge_slot(nxi, nyi, edges@[i as int].x as int, edges@[i as int].y as int));
            let ia = node_to_idx(pa, nx, ny);
            let ib = node_to_idx(pb, nx, ny);
            let ghost a = (pa.x as int, pa.y as int);
            let ghost b = (pb.x as int, pb.y as int);
            let ghost e = (edge.x as int, edge.y as int);
            if !sets.in_same_set(ia, ib) {
                let ghost s0 = sets;
                let ghost m0 = *self;
                sets.join(ia, ib);
                self.set_tile(edge.x, edge.y, Tile::Free);
                proof {
                    lemma_open_slot(&m0, self, nxi, nyi, edge);
                    let g = self.tiles@;
                    assert(free_in(g, a) && free_in(g, b) && free_in(g, e)) by {
                        assert(m0.tile(a.0, a.1) == Tile::Free);
                        assert(m0.tile(b.0, b.1) == Tile::Free);
                    }
                    lemma_cell_index_range(nxi, nyi, a.0, a.1);
                    lemma_cell_index_range(nxi, nyi, b.0, b.1);
                    lemma_join_keeps_reach(&s0, &sets, m0.tiles@, g, nxi, nyi, a, e, b);
                    assert forall|k: int| 0 <= k < i + 1 implies #[trigger] ends_joined(&sets, nxi, edges@[k]) by {
                        let (u, v) = edge_ends(edges@[k]);
                        let cu = cell_index(nxi, u.0, u.1);
                        let cv = cell_index(nxi, v.0, v.1);
                        assert(is_edge_slot(nxi, nyi, edges@[k].x as int, edges@[k].y as int));
                        lemma_cell_index_range(nxi, nyi, u.0, u.1);
                        lemma_cell_index_range(nxi, nyi, v.0, v.1);
                        if k < i {
                            assert(ends_joined(&s0, nxi, edges@[k]));
                            assert(s0.merged(ia as int, ib as int, cu, cv));
                        } else {
                            assert(s0.merged(ia as int, ib as int, ia as int, ib as int));
                        }
                    }
                    assert(end_indices(nxi, edges@[i as int]) == (ia as int, ib as int));
                    assert(opens(nxi, edges@, i as int));
                    assert forall|x: int, y: int|
                        in_grid(nxi, nyi, x, y) implies (#[trigger] self.tile(x, y) == Tile::Free
                            <==> (orig.tile(x, y) == Tile::Free || opened_among(nxi, edges@, i + 1, x, y))) by {
                        if x == edge.x && y == edge.y {
                            assert(edges@[i as int] == Pos { x: x as usize, y: y as usize });
                        } else {
                            assert(self.tile(x, y) == m0.tile(x, y));
                            if opened_among(nxi, edges@, i + 1, x, y) {
                                let j = choose|j: int|
                                    0 <= j < i + 1 && opens(nxi, edges@, j) && #[trigger] edges@[j] == Pos {
                                        x: x as usize,
                                        y: y as usize,
                                    };
                                assert(j != i);
                                assert(opened_among(nxi, edges@, i as int, x, y));
                            }
                        }
                    }
                }
            } else {
                unused.push(edge);
                proof {
                    assert forall|k: int| 0 <= k < unused@.len() implies edges@.contains(#[trigger] unused@[k]) by {
                        if k == unused@.len() - 1 {
                            assert(edges@[i as int] == unused@[k]);
                        }
                    }
                    assert(ends_joined(&sets, nxi, edges@[i as int]));
                    assert(end_indices(nxi, edges@[i as int]) == (ia as int, ib as int));
                    assert(!opens(nxi, edges@, i as int));
                    assert forall|x: int, y: int|
                        in_grid(nxi, nyi, x, y) implies (#[trigger] self.tile(x, y) == Tile::Free
                            <==> (orig.tile(x, y) == Tile::Free || opened_among(nxi, edges@, i + 1, x, y))) by {
                        if opened_among(nxi, edges@, i + 1, x, y) {
                            let j = choose|j: int|
                                0 <= j < i + 1 && opens(nxi, edges@, j) && #[trigger] edges@[j] == Pos {
                                        x: x as usize,
                                        y: y as usize,
                                    };
                            assert(j != i);
                            assert(opened_among(nxi, edges@, i as int, x, y));
                        }
                        if opened_among(nxi, edges@, i as int, x, y) {
                            let j = choose|j: int|
                                0 <= j < i && opens(nxi, edges@, j) && #[trigger] edges@[j] == Pos { x: x as usize, y: y as usize };
                            assert(opened_among(nxi, edges@, i + 1, x, y));
                        }
                    }
                }
            }
            i = i + 1;
        }
        proof {
            if every_slot_in(nxi, nyi, edges@) {
                lemma_all_slots_connect(&sets, edges@, nxi, nyi);
                assert forall|ax: int, ay: int, bx: int, by: int|
                    cell_in(nxi, nyi, ax, ay) && cell_in(nxi, nyi, bx, by) implies #[trigger] reachable(
                        self.tiles@,
                        (ax, ay),
                        (bx, by),
                    ) by {
                    lemma_cell_index_range(nxi, nyi, ax, ay);
                    lemma_cell_index_range(nxi, nyi, bx, by);
                    assert(sets.same(cell_index(nxi, ax, ay), cell_index(nxi, bx, by)));
                }
                assert forall|p: int, q: int| 0 <= p < sets.size() && 0 <= q < sets.size() implies #[trigger] sets.same(p, q) by {
                    lemma_index_is_cell(nxi, nyi, p);
                    lemma_index_is_cell(nxi, nyi, q);
                    assert(sets.same(
                        cell_index(nxi, 2 * (p % nxi) + 1, 2 * (p / nxi) + 1),
                        cell_index(nxi, 2 * (q % nxi) + 1, 2 * (q / nxi) + 1),
                    ));
                }
                assert(nxi * nyi > 0) by (nonlinear_arith)
                    requires
                        nxi >= 1,
                        nyi >= 1,
                        ;
                lemma_one_set(&sets);
            }
        }
        unused
    }

    /// Opens the first `count` slots of `edges` (all of them where there are
    /// fewer).
    pub fn open_edges(&mut self, nx: usize, ny: usize, edges: &Vec<Pos>, count: usize)
        requires
            dims_fit(nx as int, ny as int),
            old(self).well_formed(nx as int, ny as int),
            only_slots(nx as int, ny as int, edges@),
        ensures
            final(self).well_formed(nx as int, ny as int),
            frees_kept(old(self).tiles@, final(self).tiles@),
            forall|k: int|
                0 <= k < count && k < edges@.len() ==> #[trigger] final(self).tile(
                    edges@[k].x as int,
                    edges@[k].y as int,
                ) == Tile::Free,
            forall|x: int, y: int|
                in_grid(nx as int, ny as int, x, y) && #[trigger] final(self).tile(x, y) != old(self).tile(x, y)
                    ==> among_first(edges@, count as int, x, y),
    {
        let ghost orig = *self;
        let n = if count < edges.len() { count } else { edges.len() };
        let mut i: usize = 0;
        while i < n
            invariant
                i <= n,
                n <= count,
                n <= edges@.len(),
                n == count || n == edges@.len(),
                only_slots(nx as int, ny as int, edges@),
                self.well_formed(nx as int, ny as int),
                frees_kept(orig.tiles@, self.tiles@),
                forall|k: int| 0 <= k < i ==> #[trigger] self.tile(edges@[k].x as int, edges@[k].y as int) == Tile::Free,
                forall|x: int, y: int|
                    in_grid(nx as int, ny as int, x, y) && #[trigger] self.tile(x, y) != orig.tile(x, y)
                        ==> among_first(edges@, i as int, x, y),
            decreases n - i,
        {
            let edge = edges[i];
            assert(is_edge_slot(nx as int, ny as int, edges@[i as int].x as int, edges@[i as int].y as int));
            let ghost m0 = *self;
            self.set_tile(edge.x, edge.y, Tile::Free);
            proof {
                lemma_open_slot(&m0, self, nx as int, ny as int, edge);
                assert forall|k: int| 0 <= k < i + 1 implies #[trigger] self.tile(edges@[k].x as int, edges@[k].y as int) == Tile::Free by {
                    if k < i {
                        assert(m0.tile(edges@[k].x as int, edges@[k].y as int) == Tile::Free);
                        assert(is_edge_slot(nx as int, ny as int, edges@[k].x as int, edges@[k].y as int));
                        assert(free_in(m0.tiles@, (edges@[k].x as int, edges@[k].y as int)));
                    }
                }
                assert forall|x: int, y: int|
                    in_grid(nx as int, ny as int, x, y) && #[trigger] self.tile(x, y) != orig.tile(x, y)
                        implies among_first(edges@, i + 1, x, y) by {
                    if x == edge.x && y == edge.y {
                        assert(edges@[i as int] == Pos { x: x as usize, y: y as usize });
                    } else {
                        assert(self.tile(x, y) == m0.tile(x, y));
                        let k = choose|k: int| 0 <= k < i && k < edges@.len() && edges@[k] == Pos { x: x as usize, y: y as usize };
                    }
                }
            }
            i = i + 1;
        }
    }

    /// A random maze of `nx x ny` cells: the slots are shuffled and carved
    /// in that order wherever they join two unconnected cells, then
    /// `nx * ny / 2` of the slots left closed (half of them where there are
    /// fewer than that) are opened at random as well.
    pub fn kruskal(nx: usize, ny: usize) -> (r: Maze)
        requires
            dims_fit(nx as int, ny as int),
        ensures
            r.well_formed(nx as int, ny as int),
            connected(r.tiles@, nx as int, ny as int),
            forall|x: int, y: int|
                in_grid(nx as int, ny as int, x, y) && on_border(nx as int, ny as int, x, y)
                    ==> #[trigger] r.tile(x, y) == Tile::Wall,
            exists|order: Seq<Pos>, extra: Seq<Pos>| #[trigger] kruskal_outcome(nx as int, ny as int, order, extra, r),
    {
        let mut maze = Self::empty(nx, ny);
        let ghost fresh = maze;
        let mut edges = edge_slots(nx, ny);
        let ghost listed = edges@;
        shuffle_positions(&mut edges);
        proof {
            broadcast use vstd::seq_lib::group_to_multiset_ensures;

            assert forall|k: int|
                0 <= k < edges@.len() implies is_edge_slot(nx as int, ny as int, #[trigger] edges@[k].x as int, edges@[k].y as int) by {
                assert(edges@.to_multiset().count(edges@[k]) > 0);
                assert(listed.contains(edges@[k]));
            }
            assert forall|x: int, y: int|
                is_edge_slot(nx as int, ny as int, x, y) implies edges@.contains(
                    Pos { x: x as usize, y: y as usize },
                ) by {
                assert(listed.contains(Pos { x: x as usize, y: y as usize }));
                assert(listed.to_multiset().count(Pos { x: x as usize, y: y as usize }) > 0);
            }
            listed.lemma_multiset_has_no_duplicates();
            edges@.lemma_multiset_has_no_duplicates_conv();
        }
        let mut unused = maze.carve_spanning(nx, ny, &edges);
        let ghost spanning = maze.tiles@;
        let ghost carved = maze;
        let ghost before = unused@;
        shuffle_positions(&mut unused);
        proof {
            broadcast use vstd::seq_lib::group_to_multiset_ensures;

            assert(unused@.len() == unused@.to_multiset().len());
            assert(before.len() == before.to_multiset().len());
            assert(unused@.len() == before.len());

            assert forall|k: int|
                0 <= k < unused@.len() implies is_edge_slot(nx as int, ny as int, #[trigger] unused@[k].x as int, unused@[k].y as int) by {
                assert(unused@.to_multiset().count(unused@[k]) > 0);
                assert(before.contains(unused@[k]));
                let j = choose|j: int| 0 <= j < before.len() && before[j] == unused@[k];
                assert(edges@.contains(before[j]));
            }
        }
        let half = (nx * ny) / 2;
        let n = if unused.len() >= half {
            half
        } else {
            unused.len() / 2
        };
        maze.open_edges(nx, ny, &unused, n);
        proof {
            assert forall|ax: int, ay: int, bx: int, by: int|
                cell_in(nx as int, ny as int, ax, ay) && cell_in(nx as int, ny as int, bx, by) implies #[trigger] reachable(
                    maze.tiles@,
                    (ax, ay),
                    (bx, by),
                ) by {
                assert(reachable(spanning, (ax, ay), (bx, by)));
                lemma_reach_mono(spanning, maze.tiles@, (ax, ay), (bx, by));
            }
            let order = edges@;
            let extra = unused@;
            let n2 = n;
            assert(n2 == reopen_count(nx as int, ny as int, extra.len() as int));
            assert forall|x: int, y: int|
                in_grid(nx as int, ny as int, x, y) implies (#[trigger] maze.tile(x, y) == Tile::Free <==> (
                is_cell(x, y) || opened_among(nx as int, order, order.len() as int, x, y) || among_first(
                    extra,
                    n2 as int,
                    x,
                    y,
                ))) by {
                assert(fresh.tile(x, y) == Tile::Free <==> is_cell(x, y));
                assert(carved.tile(x, y) == Tile::Free <==> (fresh.tile(x, y) == Tile::Free || opened_among(
                    nx as int,
                    order,
                    order.len() as int,
                    x,
                    y,
                )));
                if carved.tile(x, y) == Tile::Free {
                    assert(free_in(carved.tiles@, (x, y)));
                    assert(free_in(maze.tiles@, (x, y)));
                }
                if among_first(extra, n2 as int, x, y) {
                    let k = choose|k: int|
                        0 <= k < n2 && k < extra.len() && extra[k] == Pos { x: x as usize, y: y as usize };
                    assert(maze.tile(extra[k].x as int, extra[k].y as int) == Tile::Free);
                }
            }
            assert(every_slot_in(nx as int, ny as int, order));
            assert(spanning_unions(nx as int, order, order.len() as int).len() == nx * ny - 1);
            assert(extra.len() == order.len() - (nx * ny - 1));
            assert(kruskal_outcome(nx as int, ny as int, order, extra, maze));
        }
        maze
    }
}

/// The slot between cells `(i - 1, j)` and `(i, j)`.
pub open spec fn h_slot(i: int, j: int) -> Pos {
    Pos { x: (2 * i) as usize, y: (2 * j + 1) as usize }
}

/// The slot between cells `(i, j - 1)` and `(i, j)`.
pub open spec fn v_slot(i: int, j: int) -> Pos {
    Pos { x: (2 * i + 1) as usize, y: (2 * j) as usize }
}

/// Every position of `s` is an edge slot.
pub open spec fn only_slots(nx: int, ny: int, s: Seq<Pos>) -> bool {
    forall|k: int| 0 <= k < s.len() ==> is_edge_slot(nx, ny, #[trigger] s[k].x as int, s[k].y as int)
}

/// Every edge slot is in `s`.
pub open spec fn every_slot_in(nx: int, ny: int, s: Seq<Pos>) -> bool {
    forall|x: int, y: int| is_edge_slot(nx, ny, x, y) ==> s.contains(Pos { x: x as usize, y: y as usize })
}

proof fn lemma_push_contains(s: Seq<Pos>, a: Pos)
    ensures
        s.push(a).contains(a),
        forall|q: Pos| s.contains(q) ==> #[trigger] s.push(a).contains(q),
{
    assert(s.push(a)[s.len() as int] == a);
    assert forall|q: Pos| s.contains(q) implies #[trigger] s.push(a).contains(q) by {
        let i = choose|i: int| 0 <= i < s.len() && s[i] == q;
        assert(s.push(a)[i] == q);
    }
}

proof fn lemma_push_distinct(s: Seq<Pos>, a: Pos)
    requires
        s.no_duplicates(),
        forall|k: int| 0 <= k < s.len() ==> #[trigger] s[k] != a,
    ensures
        s.push(a).no_duplicates(),
{
    let t = s.push(a);
    assert forall|i: int, j: int| 0 <= i < t.len() && 0 <= j < t.len() && i != j implies t[i] != t[j] by {
        if i < s.len() && j < s.len() {
            assert(t[i] == s[i] && t[j] == s[j]);
        } else if i < s.len() {
            assert(t[i] == s[i]);
        } else {
            assert(t[j] == s[j]);
        }
    }
}

/// Every edge slot of the `nx x ny` cell grid, each once: first those between
/// cells side by side, row by row, then those between cells one above the
/// other, column by column.
pub fn edge_slots(nx: usize, ny: usize) -> (r: Vec<Pos>)
    requires
        dims_fit(nx as int, ny as int),
    ensures
        only_slots(nx as int, ny as int, r@),
        every_slot_in(nx as int, ny as int, r@),
        r@.no_duplicates(),
{
    let mut edges: Vec<Pos> = Vec::new();
    let mut y: usize = 0;
    while y < ny
        invariant
            y <= ny,
            dims_fit(nx as int, ny as int),
            only_slots(nx as int, ny as int, edges@),
            forall|i: int, j: int| 1 <= i < nx && 0 <= j < y ==> edges@.contains(#[trigger] h_slot(i, j)),
            edges@.no_duplicates(),
            forall|k: int|
                0 <= k < edges@.len() ==> (#[trigger] edges@[k]).x % 2 == 0 && edges@[k].y < 2 * y,
        decreases ny - y,
    {
        let mut x: usize = 1;
        while x < nx
            invariant
                1 <= x <= nx,
                y < ny,
                dims_fit(nx as int, ny as int),
                only_slots(nx as int, ny as int, edges@),
                forall|i: int, j: int| 1 <= i < nx && 0 <= j < y ==> edges@.contains(#[trigger] h_slot(i, j)),
                forall|i: int| 1 <= i < x ==> edges@.contains(#[trigger] h_slot(i, y as int)),
                edges@.no_duplicates(),
                forall|k: int|
                    0 <= k < edges@.len() ==> (#[trigger] edges@[k]).x % 2 == 0 && (edges@[k].y < 2 * y
                        || (edges@[k].y == 2 * y + 1 && edges@[k].x < 2 * x)),
            decreases nx - x,
        {
            let e = Pos { x: 2 * x, y: 2 * y + 1 };
            proof {
                lemma_push_contains(edges@, e);
                lemma_push_distinct(edges@, e);
            }
            edges.push(e);
            x = x + 1;
        }
        y = y + 1;
    }
    let mut x: usize = 0;
    while x < nx
        invariant
            x <= nx,
            dims_fit(nx as int, ny as int),
            only_slots(nx as int, ny as int, edges@),
            forall|i: int, j: int| 1 <= i < nx && 0 <= j < ny ==> edges@.contains(#[trigger] h_slot(i, j)),
            forall|i: int, j: int| 0 <= i < x && 1 <= j < ny ==> edges@.contains(#[trigger] v_slot(i, j)),
            edges@.no_duplicates(),
            forall|k: int|
                0 <= k < edges@.len() ==> (#[trigger] edges@[k]).x % 2 == 0 || edges@[k].x < 2 * x,
        decreases nx - x,
    {
        let mut y: usize = 1;
        while y < ny
            invariant
                1 <= y <= ny,
                x < nx,
                dims_fit(nx as int, ny as int),
                only_slots(nx as int, ny as int, edges@),
                forall|i: int, j: int| 1 <= i < nx && 0 <= j < ny ==> edges@.contains(#[trigger] h_slot(i, j)),
                forall|i: int, j: int| 0 <= i < x && 1 <= j < ny ==> edges@.contains(#[trigger] v_slot(i, j)),
                forall|j: int| 1 <= j < y ==> edges@.contains(#[trigger] v_slot(x as int, j)),
                edges@.no_duplicates(),
                forall|k: int|
                    0 <= k < edges@.len() ==> (#[trigger] edges@[k]).x % 2 == 0 || edges@[k].x < 2 * x
                        || (edges@[k].x == 2 * x + 1 && edges@[k].y < 2 * y),
            decreases ny - y,
        {
            let e = Pos { x: 2 * x + 1, y: 2 * y };
            proof {
                lemma_push_contains(edges@, e);
                lemma_push_distinct(edges@, e);
            }
            edges.push(e);
            y = y + 1;
        }
        x = x + 1;
    }
    proof {
        assert forall|x: int, y: int|
            is_edge_slot(nx as int, ny as int, x, y) implies edges@.contains(
                Pos { x: x as usize, y: y as usize },
            ) by {
            if x % 2 == 0 {
                assert(h_slot(x / 2, y / 2) == Pos { x: x as usize, y: y as usize });
            } else {
                assert(v_slot(x / 2, y / 2) == Pos { x: x as usize, y: y as usize });
            }
        }
    }
    edges
}

/// Whether the edge slot `pos` separates two cells side by side.
pub fn is_horizontal_edge(pos: Pos) -> (r: bool)
    ensures
        r == (pos.x % 2 == 0),
{
    pos.x % 2 == 0
}

/// Index of the cell at `pos`, row by row.
pub fn node_to_idx(pos: Pos, nx: usize, ny: usize) -> (r: usize)
    requires
        dims_fit(nx as int, ny as int),
        pos.x < 2 * nx,
        pos.y < 2 * ny,
    ensures
        r == cell_index(nx as int, pos.x as int, pos.y as int),
        r < nx * ny,
{
    let row = pos.y / 2;
    let col = pos.x / 2;
    assert(row * nx + col < nx * ny) by (nonlinear_arith)
        requires
            row < ny,
            col < nx,
            ;
    row * nx + col
}

} // verus!
