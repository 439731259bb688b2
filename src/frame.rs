//! Cardinal directions, absolute grid positions and offsets expressed in a
//! walker's own frame of reference.

use vstd::prelude::*;

verus! {

/// One of the four cardinal directions; north is the grid's reference frame
/// (towards decreasing `y`).
#[derive(Clone, Copy, Debug, PartialEq, Eq, Structural)]
pub enum Direction {
    N,
    E,
    S,
    W,
}

/// Position of a direction in clockwise order, starting at north.
pub open spec fn dir_index(d: Direction) -> int {
    match d {
        Direction::N => 0,
        Direction::E => 1,
        Direction::S => 2,
        Direction::W => 3,
    }
}

pub open spec fn right_spec(d: Direction) -> Direction {
    match d {
        Direction::N => Direction::E,
        Direction::E => Direction::S,
        Direction::S => Direction::W,
        Direction::W => Direction::N,
    }
}

pub open spec fn left_spec(d: Direction) -> Direction {
    match d {
        Direction::N => Direction::W,
        Direction::E => Direction::N,
        Direction::S => Direction::E,
        Direction::W => Direction::S,
    }
}

/// Number of quarter turns to the right that lead from `from` to `to`.
pub open spec fn right_turns(from: Direction, to: Direction) -> int {
    (dir_index(to) - dir_index(from) + 4) % 4
}

impl Direction {
    /// The direction a quarter turn clockwise from this one.
    pub fn right(self) -> (r: Direction)
        ensures
            r == right_spec(self),
    {
        match self {
            Direction::N => Direction::E,
            Direction::E => Direction::S,
            Direction::S => Direction::W,
            Direction::W => Direction::N,
        }
    }

    /// The direction a quarter turn counter-clockwise from this one.
    pub fn left(self) -> (r: Direction)
        ensures
            r == left_spec(self),
    {
        match self {
            Direction::N => Direction::W,
            Direction::E => Direction::N,
            Direction::S => Direction::E,
            Direction::W => Direction::S,
        }
    }
}

/// An absolute grid position.
#[derive(Clone, Copy, Debug, PartialEq, Eq, Structural)]
pub struct Pos {
    pub x: usize,
    pub y: usize,
}

/// An offset `(x, y)` given in the frame of a walker facing `dir`: `(0, -1)`
/// is straight ahead, `(1, 0)` to its right.
#[derive(Clone, Copy, Debug, PartialEq, Eq, Structural)]
pub struct RelPos {
    pub x: isize,
    pub y: isize,
    pub dir: Direction,
}

/// Neither component is `isize::MIN`, so every rotation of the offset is
/// representable.
pub open spec fn rotatable(r: RelPos) -> bool {
    r.x > isize::MIN && r.y > isize::MIN
}

/// The offset turned by one quarter: `(x, y)` becomes `(y, -x)` and the
/// reference direction moves one step to the right.
pub open spec fn rotate_right_spec(r: RelPos) -> RelPos {
    RelPos { x: r.y, y: -r.x as isize, dir: right_spec(r.dir) }
}

/// The offset turned `k` quarters to the right (`0 <= k < 4`).
pub open spec fn rotate_by(r: RelPos, k: int) -> RelPos {
    if k == 0 {
        r
    } else if k == 1 {
        RelPos { x: r.y, y: -r.x as isize, dir: right_spec(r.dir) }
    } else if k == 2 {
        RelPos { x: -r.x as isize, y: -r.y as isize, dir: right_spec(right_spec(r.dir)) }
    } else {
        RelPos { x: -r.y as isize, y: r.x, dir: left_spec(r.dir) }
    }
}

/// The same offset expressed with `to` as its reference direction.
pub open spec fn reorient_spec(r: RelPos, to: Direction) -> RelPos {
    rotate_by(r, right_turns(r.dir, to))
}

/// `p` moved by the offset `r` once `r` is expressed in the grid's frame, or
/// `None` when a resulting coordinate is negative or does not fit a `usize`.
pub open spec fn add_spec(p: Pos, r: RelPos) -> Option<Pos> {
    let a = reorient_spec(r, Direction::N);
    let nx = p.x + a.x;
    let ny = p.y + a.y;
    if 0 <= nx <= usize::MAX && 0 <= ny <= usize::MAX {
        Some(Pos { x: nx as usize, y: ny as usize })
    } else {
        None
    }
}

/// The coordinate `c` moved by `d`, or `None` when the result is negative or
/// does not fit a `usize`.
fn shift(c: usize, d: isize) -> (r: Option<usize>)
    ensures
        r == if 0 <= c + d <= usize::MAX {
            Some((c + d) as usize)
        } else {
            None::<usize>
        },
{
    if d >= 0 {
        c.checked_add(d as usize)
    } else {
        let m: usize = (-(d + 1)) as usize + 1;
        if c >= m {
            Some(c - m)
        } else {
            None
        }
    }
}

impl Pos {
    pub fn new(x: usize, y: usize) -> (r: Pos)
        ensures
            r.x == x,
            r.y == y,
    {
        Pos { x, y }
    }

    /// This position moved by `rhs`, rotated into the grid's frame first;
    /// `None` where a resulting coordinate would be negative or too large.
    pub fn add(self, rhs: RelPos) -> (r: Option<Pos>)
        requires
            rotatable(rhs) || rhs.dir == Direction::N,
        ensures
            r == add_spec(self, rhs),
    {
        let a = rhs.reorient(Direction::N);
        match (shift(self.x, a.x), shift(self.y, a.y)) {
            (Some(x), Some(y)) => Some(Pos { x, y }),
            _ => None,
        }
    }
}

impl RelPos {
    pub fn new(x: isize, y: isize, dir: Direction) -> (r: RelPos)
        ensures
            r.x == x,
            r.y == y,
            r.dir == dir,
    {
        RelPos { x, y, dir }
    }

    /// The same offset with its reference direction turned one quarter right.
    pub fn reorient_right(self) -> (r: RelPos)
        requires
            self.x > isize::MIN,
        ensures
            r == rotate_right_spec(self),
    {
        RelPos::new(self.y, -self.x, self.dir.right())
    }

    /// The same offset expressed with `new_dir` as its reference direction,
    /// reached by at most three quarter turns to the right.
    pub fn reorient(self, new_dir: Direction) -> (r: RelPos)
        requires
            rotatable(self) || self.dir == new_dir,
        ensures
            r == reorient_spec(self, new_dir),
            rotatable(self) ==> rotatable(r),
            r.dir == new_dir,
    {
        let mut cur = self;
        let ghost mut k: int = 0;
        while cur.dir != new_dir
            invariant
                0 <= k < 4,
                k + right_turns(cur.dir, new_dir) == right_turns(self.dir, new_dir),
                cur == rotate_by(self, k),
                k > 0 ==> self.dir != new_dir,
                self.dir != new_dir ==> rotatable(self),
            decreases right_turns(cur.dir, new_dir),
        {
            cur = cur.reorient_right();
            proof {
                k = k + 1;
            }
        }
        cur
    }
}

/// Turning right undoes turning left and the reverse, four right turns give
/// back the starting direction, and an offset already expressed relative to
/// its own direction is left unchanged by reorienting it there.
pub proof fn lemma_rotation_algebra(d: Direction, r: RelPos)
    ensures
        right_spec(left_spec(d)) == d,
        left_spec(right_spec(d)) == d,
        right_spec(right_spec(right_spec(right_spec(d)))) == d,
        reorient_spec(r, r.dir) == r,
{
}

} // verus!
