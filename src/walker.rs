//! The explorer: a walker that senses the 3x3 neighbourhood in its own frame,
//! moves to an unvisited free tile ahead, to its right or to its left (chosen
//! uniformly at random among those that qualify), backtracks along its stack
//! when none does, and starts over on a fresh maze once the stack is empty.

use crate::frame::{add_spec, left_spec, right_spec, Direction, Pos, RelPos};
use crate::maze::{connected, dims_fit, kruskal_outcome, Maze, Tile};
use crate::tile::{AlphaTileMap, TileMap};
use vstd::prelude::*;

verus! {

/// What the background layer shows at a tile.
#[derive(Debug, Copy, Clone, PartialEq, Eq, Structural)]
pub enum BackgroundTile {
    Free,
    Wall,
}

impl Default for BackgroundTile {
    fn default() -> (r: BackgroundTile)
        ensures
            r == BackgroundTile::Free,
    {
        BackgroundTile::Free
    }
}

/// Mark of a tile the walker has visited.
#[derive(Debug, Copy, Clone, PartialEq, Eq, Structural)]
pub enum VisitedTile {
    Visited,
}

impl Default for VisitedTile {
    fn default() -> (r: VisitedTile)
        ensures
            r == VisitedTile::Visited,
    {
        VisitedTile::Visited
    }
}

/// What the foreground layer shows: a tile on the backtrack stack, or the
/// walker itself.
#[derive(Debug, Copy, Clone, PartialEq, Eq, Structural)]
pub enum ForegroundTile {
    Stack,
    Robot,
}

impl Default for ForegroundTile {
    fn default() -> (r: ForegroundTile)
        ensures
            r == ForegroundTile::Stack,
    {
        ForegroundTile::Stack
    }
}

/// Grid step for one tile in direction `d` (north is decreasing `y`).
pub open spec fn delta(d: Direction) -> (int, int) {
    match d {
        Direction::N => (0, -1),
        Direction::E => (1, 0),
        Direction::S => (0, 1),
        Direction::W => (-1, 0),
    }
}

/// The tile next to `p` in direction `d`.
pub open spec fn ahead(p: Pos, d: Direction) -> (int, int) {
    (p.x + delta(d).0, p.y + delta(d).1)
}

pub open spec fn as_pos(p: (int, int)) -> Option<Pos> {
    if p.0 >= 0 && p.1 >= 0 {
        Some(Pos { x: p.0 as usize, y: p.1 as usize })
    } else {
        None
    }
}

pub open spec fn xy(p: Pos) -> (int, int) {
    (p.x as int, p.y as int)
}

pub open spec fn neighbours(a: Pos, b: Pos) -> bool {
    exists|d: Direction| ahead(a, d) == xy(b)
}

/// The three directions the walker may move in, in order of preference:
/// ahead, right, left.
pub open spec fn candidate(d: Direction, k: int) -> Direction {
    if k == 0 {
        d
    } else if k == 1 {
        right_spec(d)
    } else {
        left_spec(d)
    }
}

/// Sensing straight ahead, to the right and to the left in the walker's frame
/// is stepping one tile in the corresponding grid direction.
pub proof fn lemma_unit_offsets(p: Pos, d: Direction)
    requires
        p.x < usize::MAX,
        p.y < usize::MAX,
    ensures
        add_spec(p, RelPos { x: 0, y: -1isize, dir: d }) == as_pos(ahead(p, d)),
        add_spec(p, RelPos { x: 1, y: 0, dir: d }) == as_pos(ahead(p, right_spec(d))),
        add_spec(p, RelPos { x: -1isize, y: 0, dir: d }) == as_pos(ahead(p, left_spec(d))),
{
    match d {
        Direction::N => {},
        Direction::E => {},
        Direction::S => {},
        Direction::W => {},
    }
}

/// Number of `true` values in `s`.
pub open spec fn count_true(s: Seq<bool>) -> int
    decreases s.len(),
{
    if s.len() == 0 {
        0
    } else {
        count_true(s.drop_last()) + if s.last() {
            1int
        } else {
            0
        }
    }
}

/// Relies on `rand::random_range` over `0..n` with the thread-local
/// generator: a value in that range (it panics on an empty range).
#[verifier::external_body]
fn random_below(n: usize) -> (r: usize)
    requires
        n > 0,
    ensures
        r < n,
{
    rand::random_range(0..n)
}

/// Index of the `n`-th `true` in `values`, counting from zero.
pub fn nth_true(values: &[bool; 3], n: usize) -> (r: usize)
    requires
        n < count_true(values@),
    ensures
        r < 3,
        values@[r as int],
        count_true(values@.take(r as int)) == n,
{
    let mut idx: usize = 0;
    let mut m: usize = 0;
    while idx < 3
        invariant
            idx <= 3,
            m == count_true(values@.take(idx as int)),
            m <= n,
            n < count_true(values@),
        decreases 3 - idx,
    {
        assert(values@.take(idx as int + 1).drop_last() == values@.take(idx as int));
        if values[idx] {
            if n == m {
                return idx;
            }
            m = m + 1;
        }
        idx = idx + 1;
    }
    assert(values@.take(3) == values@);
    idx
}

/// A uniformly random index among those where `values` is `true`.
pub fn select_idx(values: &[bool; 3]) -> (r: usize)
    requires
        count_true(values@) > 0,
    ensures
        r < 3,
        values@[r as int],
{
    let mut ntrue: usize = 0;
    let mut i: usize = 0;
    while i < 3
        invariant
            i <= 3,
            ntrue <= i,
            ntrue == count_true(values@.take(i as int)),
        decreases 3 - i,
    {
        assert(values@.take(i as int + 1).drop_last() == values@.take(i as int));
        if values[i] {
            ntrue = ntrue + 1;
        }
        i = i + 1;
    }
    assert(values@.take(3) == values@);
    let n = random_below(ntrue);
    nth_true(values, n)
}

/// The walker after one move in candidate direction `k` (0 ahead, 1 right,
/// 2 left): the old position pushed on the stack, facing that direction, on
/// the tile next to the old one, which is now visited.
pub open spec fn advanced(old: &App, new: &App, k: int) -> bool {
    let d = candidate(old.dir(), k);
    let t = ahead(old.pos(), d);
    &&& xy(new.pos()) == t
    &&& new.dir() == d
    &&& new.stack() == old.stack().push(old.pos())
    &&& new.bg() == old.bg()
    &&& forall|p: (int, int)| #[trigger] new.visited(p) <==> (old.visited(p) || p == t)
    &&& new.exiting() == old.exiting()
    &&& new.cells_x() == old.cells_x() && new.cells_y() == old.cells_y()
    &&& new.fg().w() == old.fg().w() && new.fg().h() == old.fg().h()
    &&& forall|x: int, y: int|
        old.in_map((x, y)) ==> #[trigger] new.fg().at(x, y) == if (x, y) == t {
            Some(ForegroundTile::Robot)
        } else if (x, y) == xy(old.pos()) {
            Some(ForegroundTile::Stack)
        } else {
            old.fg().at(x, y)
        }
}

/// The walker after one step back: on the tile popped from the stack,
/// facing it from where it stood, with nothing newly visited.
pub open spec fn backtracked(old: &App, new: &App) -> bool {
    &&& new.pos() == old.stack().last()
    &&& new.stack() == old.stack().drop_last()
    &&& ahead(old.pos(), new.dir()) == xy(old.stack().last())
    &&& new.bg() == old.bg()
    &&& new.visited_layer() == old.visited_layer()
    &&& new.exiting() == old.exiting()
    &&& new.cells_x() == old.cells_x() && new.cells_y() == old.cells_y()
    &&& new.fg().w() == old.fg().w() && new.fg().h() == old.fg().h()
    &&& forall|x: int, y: int|
        old.in_map((x, y)) ==> #[trigger] new.fg().at(x, y) == App::fg_moved(
            old.fg(),
            xy(old.pos()),
            xy(new.pos()),
            x,
            y,
        )
}

/// Grid sizes whose maze fits layers with `u16` coordinates.
pub open spec fn maze_fits(nx: int, ny: int) -> bool {
    dims_fit(nx, ny) && 2 * nx + 1 <= u16::MAX && 2 * ny + 1 <= u16::MAX
}

/// Number of the first `k` positions of a grid `w` wide, taken row by row,
/// at which `f` holds.
pub open spec fn count_where(f: spec_fn((int, int)) -> bool, w: int, k: int) -> int
    decreases k,
{
    if k <= 0 || w <= 0 {
        0
    } else {
        count_where(f, w, k - 1) + if f(((k - 1) % w, (k - 1) / w)) {
            1int
        } else {
            0
        }
    }
}

proof fn lemma_count_nonneg(f: spec_fn((int, int)) -> bool, w: int, k: int)
    ensures
        count_where(f, w, k) >= 0,
    decreases k,
{
    if k > 0 {
        lemma_count_nonneg(f, w, k - 1);
    }
}

proof fn lemma_count_ext(f: spec_fn((int, int)) -> bool, g: spec_fn((int, int)) -> bool, w: int, k: int)
    requires
        forall|p: (int, int)| #[trigger] f(p) == g(p),
    ensures
        count_where(f, w, k) == count_where(g, w, k),
    decreases k,
{
    if k > 0 {
        lemma_count_ext(f, g, w, k - 1);
    }
}

/// Where `g` agrees with `f` but at `t`, which `f` holds of and `g` not, the
/// count drops by one once `t` is among the positions counted.
proof fn lemma_count_drop(
    f: spec_fn((int, int)) -> bool,
    g: spec_fn((int, int)) -> bool,
    w: int,
    k: int,
    t: (int, int),
)
    requires
        w > 0,
        0 <= t.0 < w,
        0 <= t.1,
        f(t),
        !g(t),
        forall|p: (int, int)| p != t ==> #[trigger] f(p) == g(p),
    ensures
        count_where(g, w, k) == count_where(f, w, k) - if t.1 * w + t.0 < k {
            1int
        } else {
            0
        },
    decreases k,
{
    if k > 0 {
        lemma_count_drop(f, g, w, k - 1, t);
        let i = k - 1;
        let q = (i % w, i / w);
        if i == t.1 * w + t.0 {
            vstd::arithmetic::div_mod::lemma_fundamental_div_mod_converse(i, w, t.1, t.0);
            assert(q == t);
        } else {
            vstd::arithmetic::div_mod::lemma_fundamental_div_mod(i, w);
            if q == t {
                assert(i == w * t.1 + t.0);
                assert(w * t.1 == t.1 * w) by (nonlinear_arith);
            }
            assert(q != t);
            assert(f(q) == g(q));
        }
    }
}

/// The walker on its maze, with the layers that show it.
pub struct App {
    exit: bool,
    layer_bg: TileMap<BackgroundTile>,
    layer_visited: AlphaTileMap<VisitedTile>,
    layer_fg: AlphaTileMap<ForegroundTile>,
    robot_pos: Pos,
    robot_dir: Direction,
    robot_stack: Vec<Pos>,
    /// Size of the current maze, in cells.
    nx: usize,
    ny: usize,
}

impl App {
    pub closed spec fn pos(&self) -> Pos {
        self.robot_pos
    }

    pub closed spec fn dir(&self) -> Direction {
        self.robot_dir
    }

    /// The backtrack stack, oldest first.
    pub closed spec fn stack(&self) -> Seq<Pos> {
        self.robot_stack@
    }

    pub closed spec fn bg(&self) -> TileMap<BackgroundTile> {
        self.layer_bg
    }

    pub closed spec fn visited_layer(&self) -> TileMap<Option<VisitedTile>> {
        self.layer_visited.0
    }

    pub closed spec fn fg(&self) -> TileMap<Option<ForegroundTile>> {
        self.layer_fg.0
    }

    pub closed spec fn exiting(&self) -> bool {
        self.exit
    }

    /// Width of the current maze, in cells.
    pub closed spec fn cells_x(&self) -> int {
        self.nx as int
    }

    /// Height of the current maze, in cells.
    pub closed spec fn cells_y(&self) -> int {
        self.ny as int
    }

    pub open spec fn in_map(&self, p: (int, int)) -> bool {
        self.bg().contains_xy(p.0, p.1)
    }

    pub open spec fn free_at(&self, p: (int, int)) -> bool {
        self.in_map(p) && self.bg().at(p.0, p.1) == BackgroundTile::Free
    }

    pub open spec fn visited(&self, p: (int, int)) -> bool {
        self.in_map(p) && self.visited_layer().at(p.0, p.1).is_some()
    }

    /// Moving one tile in direction `d` reaches a free tile not yet visited.
    pub open spec fn open_towards(&self, d: Direction) -> bool {
        self.free_at(ahead(self.pos(), d)) && !self.visited(ahead(self.pos(), d))
    }

    /// Candidate `k` (0 ahead, 1 right, 2 left) qualifies for a move.
    pub open spec fn eligible(&self, k: int) -> bool {
        self.open_towards(candidate(self.dir(), k))
    }

    pub open spec fn n_eligible(&self) -> int {
        (if self.eligible(0) { 1int } else { 0 }) + (if self.eligible(1) { 1int } else { 0 }) + (
        if self.eligible(2) { 1int } else { 0 })
    }

    /// Layers of one size, the walker on a visited free tile, and the stack a
    /// chain of visited free tiles, each next to the one after it and the
    /// last next to the walker.
    pub open spec fn wf(&self) -> bool {
        &&& maze_fits(self.cells_x(), self.cells_y())
        &&& self.bg().wf()
        &&& self.visited_layer().wf()
        &&& self.fg().wf()
        &&& self.visited_layer().w() == self.bg().w() && self.visited_layer().h() == self.bg().h()
        &&& self.fg().w() == self.bg().w() && self.fg().h() == self.bg().h()
        &&& self.free_at(xy(self.pos()))
        &&& self.visited(xy(self.pos()))
        &&& forall|k: int|
            0 <= k < self.stack().len() ==> self.free_at(xy(#[trigger] self.stack()[k]))
                && self.visited(xy(self.stack()[k]))
        &&& forall|k: int|
            0 <= k < self.stack().len() - 1 ==> neighbours(
                #[trigger] self.stack()[k],
                self.stack()[k + 1],
            )
        &&& self.stack().len() > 0 ==> neighbours(self.stack().last(), self.pos())
    }

    /// The free tiles of the map.
    pub open spec fn free_pred(&self) -> spec_fn((int, int)) -> bool {
        |p: (int, int)| self.free_at(p)
    }

    /// The free tiles of the map not visited yet.
    pub open spec fn unexplored_pred(&self) -> spec_fn((int, int)) -> bool {
        |p: (int, int)| self.free_at(p) && !self.visited(p)
    }

    /// Number of free tiles of the map.
    pub open spec fn free_tiles(&self) -> int {
        count_where(self.free_pred(), self.bg().w() as int, self.bg().w() * self.bg().h())
    }

    /// Number of free tiles not visited yet.
    pub open spec fn unexplored(&self) -> int {
        count_where(self.unexplored_pred(), self.bg().w() as int, self.bg().w() * self.bg().h())
    }

    /// Ticks of work left before the walk is over: each unexplored tile is
    /// entered once and left once, each tile on the stack left once.
    pub open spec fn pending_work(&self) -> int {
        2 * self.unexplored() + self.stack().len()
    }

    /// The layers have one size and the walker stands inside them.
    pub open spec fn layers_ok(&self) -> bool {
        &&& self.bg().wf()
        &&& self.visited_layer().wf()
        &&& self.fg().wf()
        &&& self.visited_layer().w() == self.bg().w() && self.visited_layer().h() == self.bg().h()
        &&& self.fg().w() == self.bg().w() && self.fg().h() == self.bg().h()
        &&& self.in_map(xy(self.pos()))
    }

    /// What sensing reports for the offset `(dx, dy)` in the walker's frame:
    /// `.` for a free tile, `O` for a wall or a tile outside the map.
    pub open spec fn sense(&self, dx: int, dy: int) -> u8 {
        match add_spec(self.pos(), RelPos { x: dx as isize, y: dy as isize, dir: self.dir() }) {
            Some(g) => if self.free_at(xy(g)) {
                46u8
            } else {
                79u8
            },
            None => 79u8,
        }
    }

    /// The foreground after the walker marker moves from `from` to `to`.
    pub open spec fn fg_moved(
        old_fg: TileMap<Option<ForegroundTile>>,
        from: (int, int),
        to: (int, int),
        x: int,
        y: int,
    ) -> Option<ForegroundTile> {
        if (x, y) == to {
            Some(ForegroundTile::Robot)
        } else if (x, y) == from && old_fg.at(x, y) == Some(ForegroundTile::Robot) {
            None
        } else {
            old_fg.at(x, y)
        }
    }

    /// A walker at the start of a fresh maze of `nx x ny` cells: at cell
    /// `(1, 1)` facing east, with an empty stack, only its own tile visited,
    /// and only its own marker on the foreground.
    pub open spec fn fresh(&self, nx: int, ny: int) -> bool {
        &&& self.cells_x() == nx
        &&& self.cells_y() == ny
        &&& self.bg().w() == 2 * nx + 1
        &&& self.bg().h() == 2 * ny + 1
        &&& self.pos() == Pos { x: 1, y: 1 }
        &&& self.dir() == Direction::E
        &&& self.stack().len() == 0
        &&& forall|p: (int, int)| #[trigger] self.visited(p) <==> p == (1int, 1int)
        &&& forall|x: int, y: int|
            self.in_map((x, y)) ==> #[trigger] self.fg().at(x, y) == if (x, y) == (1int, 1int) {
                Some(ForegroundTile::Robot)
            } else {
                None
            }
    }

    /// The background shows exactly the free tiles of `m`.
    pub open spec fn shows(&self, m: Maze) -> bool {
        forall|x: int, y: int| self.in_map((x, y)) ==> (#[trigger] self.free_at((x, y)) <==> m.tile(x, y) == Tile::Free)
    }

    /// The background shows a connected, well-formed maze of `nx x ny`
    /// cells built by the randomised Kruskal construction, for some order of
    /// the slots and some order of the slots it left closed.
    pub open spec fn on_maze(&self, nx: int, ny: int) -> bool {
        exists|m: Maze, order: Seq<Pos>, extra: Seq<Pos>|
            #![trigger kruskal_outcome(nx, ny, order, extra, m), self.shows(m)]
            m.well_formed(nx, ny) && connected(m.tiles@, nx, ny) && kruskal_outcome(nx, ny, order, extra, m)
                && self.shows(m)
    }

    /// Puts the walker at the start of `maze`.
    pub fn load_maze(&mut self, maze: &Maze, nx: usize, ny: usize)
        requires
            maze_fits(nx as int, ny as int),
            maze.well_formed(nx as int, ny as int),
        ensures
            final(self).wf(),
            final(self).fresh(nx as int, ny as int),
            final(self).shows(*maze),
            final(self).exiting() == old(self).exiting(),
    {
        let pw: usize = 2 * nx + 1;
        let ph: usize = 2 * ny + 1;
        let mut map: TileMap<BackgroundTile> = TileMap::with_default(pw as u16, ph as u16);
        let mut cy: usize = 0;
        while cy < ph
            invariant
                cy <= ph,
                pw == 2 * nx + 1,
                ph == 2 * ny + 1,
                maze_fits(nx as int, ny as int),
                maze.well_formed(nx as int, ny as int),
                map.wf(),
                map.w() == pw,
                map.h() == ph,
                forall|x: int, y: int|
                    0 <= x < pw && 0 <= y < cy ==> (#[trigger] map.at(x, y) == BackgroundTile::Free
                        <==> maze.tile(x, y) == Tile::Free),
            decreases ph - cy,
        {
            let mut cx: usize = 0;
            while cx < pw
                invariant
                    cx <= pw,
                    cy < ph,
                    pw == 2 * nx + 1,
                    ph == 2 * ny + 1,
                    maze_fits(nx as int, ny as int),
                    maze.well_formed(nx as int, ny as int),
                    map.wf(),
                    map.w() == pw,
                    map.h() == ph,
                    forall|x: int, y: int|
                        0 <= x < pw && 0 <= y < cy ==> (#[trigger] map.at(x, y) == BackgroundTile::Free
                        <==> maze.tile(x, y) == Tile::Free),
                    forall|x: int|
                        0 <= x < cx ==> (#[trigger] map.at(x, cy as int) == BackgroundTile::Free
                        <==> maze.tile(x, cy as int) == Tile::Free),
                decreases pw - cx,
            {
                let t = match maze.tiles[cy][cx] {
                    Tile::Free => BackgroundTile::Free,
                    Tile::Wall => BackgroundTile::Wall,
                };
                map.set(cx as u16, cy as u16, t);
                cx = cx + 1;
            }
            cy = cy + 1;
        }
        self.layer_bg = map;
        let mut visited: AlphaTileMap<VisitedTile> = AlphaTileMap::empty(pw as u16, ph as u16);
        visited.0.set(1, 1, Some(VisitedTile::Visited));
        self.layer_visited = visited;
        let mut fg: AlphaTileMap<ForegroundTile> = AlphaTileMap::empty(pw as u16, ph as u16);
        fg.0.set(1, 1, Some(ForegroundTile::Robot));
        self.layer_fg = fg;
        self.robot_pos = Pos::new(1, 1);
        self.robot_dir = Direction::E;
        self.robot_stack = Vec::new();
        self.nx = nx;
        self.ny = ny;
        proof {
            assert(maze.tile(1, 1) == Tile::Free);
            assert forall|p: (int, int)| #[trigger] self.visited(p) <==> p == (1int, 1int) by {
                if self.in_map(p) {
                    assert(self.visited_layer().at(p.0, p.1) == if p == (1int, 1int) {
                        Some(VisitedTile::Visited)
                    } else {
                        None
                    });
                }
            }
        }
    }

    /// Discards the maze and the walk, and starts over on a new random maze
    /// of `nx x ny` cells.
    pub fn regenerate(&mut self, nx: usize, ny: usize)
        requires
            maze_fits(nx as int, ny as int),
        ensures
            final(self).wf(),
            final(self).fresh(nx as int, ny as int),
            final(self).on_maze(nx as int, ny as int),
            final(self).exiting() == old(self).exiting(),
    {
        let maze = Maze::kruskal(nx, ny);
        self.load_maze(&maze, nx, ny);
        proof {
            let (order, extra) = choose|order: Seq<Pos>, extra: Seq<Pos>|
                kruskal_outcome(nx as int, ny as int, order, extra, maze);
            assert(kruskal_outcome(nx as int, ny as int, order, extra, maze) && self.shows(maze));
        }
    }

    /// Starts over on a new random maze of the current size.
    pub fn reinit(&mut self)
        requires
            maze_fits(old(self).cells_x(), old(self).cells_y()),
        ensures
            final(self).wf(),
            final(self).fresh(old(self).cells_x(), old(self).cells_y()),
            final(self).on_maze(old(self).cells_x(), old(self).cells_y()),
            final(self).exiting() == old(self).exiting(),
    {
        self.regenerate(self.nx, self.ny);
    }

    /// A walker at the start of a new random maze of 16 x 16 cells.
    pub fn new() -> (r: App)
        ensures
            r.wf(),
            r.fresh(16, 16),
            r.on_maze(16, 16),
            !r.exiting(),
    {
        let mut app = App {
            exit: false,
            layer_bg: TileMap::filled(1, 1, BackgroundTile::Free),
            layer_visited: AlphaTileMap::empty(1, 1),
            layer_fg: AlphaTileMap::empty(1, 1),
            robot_pos: Pos::new(1, 1),
            robot_dir: Direction::E,
            robot_stack: Vec::new(),
            nx: 16,
            ny: 16,
        };
        app.reinit();
        app
    }

    /// Whether the tile ahead of the walker is `p`.
    fn faces(&self, p: Pos) -> (r: bool)
        requires
            self.layers_ok(),
        ensures
            r == (ahead(self.pos(), self.dir()) == xy(p)),
    {
        proof {
            lemma_unit_offsets(self.robot_pos, self.robot_dir);
        }
        match self.robot_pos_with_offset((0, -1)) {
            Some(g) => g.x == p.x && g.y == p.y,
            None => false,
        }
    }

    /// Whether `p` is a tile of the map that has not been visited.
    fn unvisited(&self, p: Option<Pos>) -> (r: bool)
        requires
            self.layers_ok(),
        ensures
            r == match p {
                Some(g) => self.in_map(xy(g)) && !self.visited(xy(g)),
                None => false,
            },
    {
        match p {
            Some(g) => {
                if g.x < self.layer_visited.0.width() as usize && g.y < self.layer_visited.0.height() as usize {
                    self.layer_visited.0.get(g.x as u16, g.y as u16).is_none()
                } else {
                    false
                }
            },
            None => false,
        }
    }

    /// Moves in candidate direction `k` (0 ahead, 1 right, 2 left), which
    /// must qualify: marks the target visited, pushes the current tile, turns
    /// and steps.
    pub fn advance(&mut self, k: usize)
        requires
            old(self).wf(),
            k < 3,
            old(self).eligible(k as int),
        ensures
            final(self).wf(),
            advanced(&*old(self), &*final(self), k as int),
            final(self).pending_work() == old(self).pending_work() - 1,
    {
        proof {
            lemma_unit_offsets(self.robot_pos, self.robot_dir);
        }
        let offset: (isize, isize) = if k == 0 {
            (0, -1)
        } else if k == 1 {
            (1, 0)
        } else {
            (-1, 0)
        };
        let target = self.robot_pos_with_offset(offset).unwrap();
        let ghost t = xy(target);
        self.layer_visited.0.set(target.x as u16, target.y as u16, Some(VisitedTile::Visited));
        let here = self.robot_pos;
        self.robot_stack_push(here);
        if k == 1 {
            self.robot_turn_right();
        } else if k == 2 {
            self.robot_turn_left();
        }
        assert(ahead(self.pos(), self.dir()) == t);
        self.robot_step();
        proof {
            let d = candidate(old(self).dir(), k as int);
            assert(ahead(here, d) == xy(self.pos()));
            assert(neighbours(here, self.pos()));
            assert forall|p: (int, int)| #[trigger] self.visited(p) <==> (old(self).visited(p) || p == t) by {
                if self.in_map(p) {
                    assert(self.visited_layer().at(p.0, p.1) == if p == t {
                        Some(VisitedTile::Visited)
                    } else {
                        old(self).visited_layer().at(p.0, p.1)
                    });
                }
            }
            let st = self.stack();
            assert(st.last() == here);
            assert forall|j: int| 0 <= j < st.len() - 1 implies neighbours(#[trigger] st[j], st[j + 1]) by {
                if j < st.len() - 2 {
                    assert(st[j] == old(self).stack()[j] && st[j + 1] == old(self).stack()[j + 1]);
                } else {
                    assert(st[j] == old(self).stack().last());
                }
            }
            assert forall|j: int| 0 <= j < st.len() implies self.free_at(xy(#[trigger] st[j]))
                && self.visited(xy(st[j])) by {
                if j < st.len() - 1 {
                    assert(st[j] == old(self).stack()[j]);
                }
            }
            let w = self.bg().w() as int;
            let h = self.bg().h() as int;
            let f = old(self).unexplored_pred();
            let g = self.unexplored_pred();
            assert forall|p: (int, int)| p != t implies #[trigger] f(p) == g(p) by {
                assert(self.visited(p) == old(self).visited(p));
            }
            assert(f(t) && !g(t));
            lemma_count_drop(f, g, w, w * h, t);
            assert(t.1 * w + t.0 < w * h) by (nonlinear_arith)
                requires
                    0 <= t.0 < w,
                    0 <= t.1 < h,
                    ;
        }
    }

    /// Steps back to the tile on top of the stack, turning right until it is
    /// ahead; starts over on a new maze when the stack is empty.
    pub fn backtrack(&mut self)
        requires
            old(self).wf(),
        ensures
            final(self).wf(),
            old(self).stack().len() > 0 ==> backtracked(&*old(self), &*final(self)),
            old(self).stack().len() > 0 ==> final(self).pending_work() == old(self).pending_work() - 1,
            old(self).stack().len() == 0 ==> final(self).fresh(old(self).cells_x(), old(self).cells_y())
                && final(self).on_maze(old(self).cells_x(), old(self).cells_y())
                && final(self).exiting() == old(self).exiting(),
    {
        let back = match self.robot_stack_pop() {
            Some(it) => it,
            None => {
                self.reinit();
                return;
            },
        };
        let ghost target = choose|d: Direction| ahead(self.pos(), d) == xy(back);
        assert(neighbours(old(self).stack().last(), old(self).pos()));
        assert(ahead(self.pos(), target) == xy(back)) by {
            let d = choose|d: Direction| ahead(old(self).stack().last(), d) == xy(old(self).pos());
            assert(ahead(self.pos(), crate::frame::right_spec(crate::frame::right_spec(d))) == xy(back));
        }
        let ghost before = *self;
        while !self.faces(back)
            invariant
                self.layers_ok(),
                self.pos() == before.pos(),
                self.stack() == before.stack(),
                self.bg() == before.bg(),
                self.visited_layer() == before.visited_layer(),
                self.fg() == before.fg(),
                self.exiting() == before.exiting(),
                self.cells_x() == before.cells_x(),
                self.cells_y() == before.cells_y(),
                ahead(self.pos(), target) == xy(back),
            decreases crate::frame::right_turns(self.dir(), target),
        {
            assert(self.dir() != target);
            self.robot_turn_right();
        }
        assert(old(self).free_at(xy(old(self).stack()[old(self).stack().len() - 1])));
        self.robot_step();
        proof {
            assert(self.pos() == back);
            let st = self.stack();
            assert forall|j: int| 0 <= j < st.len() - 1 implies neighbours(#[trigger] st[j], st[j + 1]) by {
                assert(st[j] == old(self).stack()[j] && st[j + 1] == old(self).stack()[j + 1]);
            }
            assert forall|j: int| 0 <= j < st.len() implies self.free_at(xy(#[trigger] st[j]))
                && self.visited(xy(st[j])) by {
                assert(st[j] == old(self).stack()[j]);
            }
            if st.len() > 0 {
                let j = st.len() - 1;
                assert(st.last() == old(self).stack()[j]);
                assert(neighbours(old(self).stack()[j], old(self).stack()[j + 1]));
            }
            let f = old(self).unexplored_pred();
            let g = self.unexplored_pred();
            assert forall|p: (int, int)| #[trigger] f(p) == g(p) by {
                assert(self.visited(p) == old(self).visited(p));
                assert(self.free_at(p) == old(self).free_at(p));
            }
            lemma_count_ext(f, g, self.bg().w() as int, self.bg().w() * self.bg().h());
        }
    }

    /// One unit of exploration: senses the tiles ahead, right and left; moves
    /// to one of those that are free and unvisited, chosen uniformly at
    /// random; otherwise steps back along the stack, or starts over on a new
    /// maze when the stack is empty.
    pub fn on_tick(&mut self)
        requires
            old(self).wf(),
        ensures
            final(self).wf(),
            old(self).n_eligible() > 0 ==> exists|k: int|
                0 <= k < 3 && old(self).eligible(k) && #[trigger] advanced(&*old(self), &*final(self), k),
            old(self).n_eligible() == 0 && old(self).stack().len() > 0 ==> backtracked(
                &*old(self),
                &*final(self),
            ),
            old(self).n_eligible() == 0 && old(self).stack().len() == 0 ==> final(self).fresh(
                old(self).cells_x(),
                old(self).cells_y(),
            ) && final(self).on_maze(old(self).cells_x(), old(self).cells_y()),
            old(self).n_eligible() > 0 || old(self).stack().len() > 0 ==> forall|p: (int, int)|
                old(self).visited(p) ==> #[trigger] final(self).visited(p),
            old(self).n_eligible() > 0 || old(self).stack().len() > 0 ==> final(self).pending_work()
                == old(self).pending_work() - 1,
            final(self).exiting() == old(self).exiting(),
            final(self).cells_x() == old(self).cells_x() && final(self).cells_y() == old(self).cells_y(),
    {
        proof {
            lemma_unit_offsets(self.robot_pos, self.robot_dir);
        }
        let scan = self.robot_scan();
        let right = scan[5];
        let front = scan[1];
        let left = scan[3];
        assert(scan@[1] == self.sense(0, -1));
        assert(scan@[5] == self.sense(1, 0));
        assert(scan@[3] == self.sense(-1, 0));
        let front_coords = self.robot_pos_with_offset((0, -1));
        let left_coords = self.robot_pos_with_offset((-1, 0));
        let right_coords = self.robot_pos_with_offset((1, 0));
        let free = [
            front == 46u8 && self.unvisited(front_coords),
            right == 46u8 && self.unvisited(right_coords),
            left == 46u8 && self.unvisited(left_coords),
        ];
        assert(free@[0] == self.eligible(0));
        assert(free@[1] == self.eligible(1));
        assert(free@[2] == self.eligible(2));
        proof {
            reveal_with_fuel(count_true, 4);
            assert(free@.drop_last().drop_last().drop_last() == Seq::<bool>::empty());
        }
        if free[0] || free[1] || free[2] {
            let idx = select_idx(&free);
            self.advance(idx);
        } else {
            self.backtrack();
        }
    }

    pub fn robot_pos(&self) -> (r: Pos)
        ensures
            r == self.pos(),
    {
        self.robot_pos
    }

    pub fn robot_dir(&self) -> (r: Direction)
        ensures
            r == self.dir(),
    {
        self.robot_dir
    }

    /// The backtrack stack, oldest first.
    pub fn robot_stack(&self) -> (r: &Vec<Pos>)
        ensures
            r@ == self.stack(),
    {
        &self.robot_stack
    }

    pub fn layer_bg(&self) -> (r: &TileMap<BackgroundTile>)
        ensures
            *r == self.bg(),
    {
        &self.layer_bg
    }

    pub fn layer_visited(&self) -> (r: &AlphaTileMap<VisitedTile>)
        ensures
            r.0 == self.visited_layer(),
    {
        &self.layer_visited
    }

    pub fn layer_fg(&self) -> (r: &AlphaTileMap<ForegroundTile>)
        ensures
            r.0 == self.fg(),
    {
        &self.layer_fg
    }

    /// Size of the current maze in cells, across and down.
    pub fn maze_cells(&self) -> (r: (usize, usize))
        ensures
            r.0 == self.cells_x(),
            r.1 == self.cells_y(),
    {
        (self.nx, self.ny)
    }

    /// Whether `(x, y)` is a free tile of the map.
    pub fn is_free(&self, x: usize, y: usize) -> (r: bool)
        requires
            self.bg().wf(),
        ensures
            r == self.free_at((x as int, y as int)),
    {
        self.bg_free(Some(Pos::new(x, y)))
    }

    /// Whether `(x, y)` is a visited tile of the map.
    pub fn is_visited(&self, x: usize, y: usize) -> (r: bool)
        requires
            self.layers_ok(),
        ensures
            r == self.visited((x as int, y as int)),
    {
        let p = Some(Pos::new(x, y));
        if x < self.layer_visited.0.width() as usize && y < self.layer_visited.0.height() as usize {
            !self.unvisited(p)
        } else {
            false
        }
    }

    pub fn exit(&mut self)
        ensures
            final(self).exiting(),
            final(self).pos() == old(self).pos(),
            final(self).dir() == old(self).dir(),
            final(self).stack() == old(self).stack(),
            final(self).bg() == old(self).bg(),
            final(self).visited_layer() == old(self).visited_layer(),
            final(self).fg() == old(self).fg(),
            final(self).cells_x() == old(self).cells_x() && final(self).cells_y() == old(self).cells_y(),
    {
        self.exit = true;
    }

    /// Whether `exit` was called.
    pub fn should_exit(&self) -> (r: bool)
        ensures
            r == self.exiting(),
    {
        self.exit
    }

    /// The tile at the offset `offset`, given in the walker's own frame.
    pub fn robot_pos_with_offset(&self, offset: (isize, isize)) -> (r: Option<Pos>)
        requires
            offset.0 > isize::MIN,
            offset.1 > isize::MIN,
        ensures
            r == add_spec(self.pos(), RelPos { x: offset.0, y: offset.1, dir: self.dir() }),
    {
        self.robot_pos.add(RelPos::new(offset.0, offset.1, self.robot_dir))
    }

    /// Whether the background at `p` is free; tiles outside the map count as
    /// walls.
    fn bg_free(&self, p: Option<Pos>) -> (r: bool)
        requires
            self.bg().wf(),
        ensures
            r == match p {
                Some(g) => self.free_at(xy(g)),
                None => false,
            },
    {
        match p {
            Some(g) => {
                if g.x < self.layer_bg.width() as usize && g.y < self.layer_bg.height() as usize {
                    *self.layer_bg.get(g.x as u16, g.y as u16) == BackgroundTile::Free
                } else {
                    false
                }
            },
            None => false,
        }
    }

    /// The nine tiles around the walker, row by row in its own frame (the
    /// first row is the one ahead): `.` where free, `O` elsewhere.
    pub fn robot_scan(&self) -> (r: [u8; 9])
        requires
            self.bg().wf(),
        ensures
            forall|i: int| 0 <= i < 9 ==> #[trigger] r@[i] == self.sense(i % 3 - 1, i / 3 - 1),
    {
        let mut arr = [0u8; 9];
        let mut idx: usize = 0;
        let mut y_loc: isize = -1;
        while y_loc <= 1
            invariant
                -1 <= y_loc <= 2,
                idx == 3 * (y_loc + 1),
                self.bg().wf(),
                forall|i: int| 0 <= i < idx ==> #[trigger] arr@[i] == self.sense(i % 3 - 1, i / 3 - 1),
            decreases 2 - y_loc,
        {
            let mut x_loc: isize = -1;
            while x_loc <= 1
                invariant
                    -1 <= x_loc <= 2,
                    -1 <= y_loc <= 1,
                    idx == 3 * (y_loc + 1) + x_loc + 1,
                    self.bg().wf(),
                    forall|i: int| 0 <= i < idx ==> #[trigger] arr@[i] == self.sense(i % 3 - 1, i / 3 - 1),
                decreases 2 - x_loc,
            {
                let glob = self.robot_pos_with_offset((x_loc, y_loc));
                let v: u8 = if self.bg_free(glob) {
                    46u8
                } else {
                    79u8
                };
                arr[idx] = v;
                assert(idx % 3 - 1 == x_loc && idx / 3 - 1 == y_loc);
                idx = idx + 1;
                x_loc = x_loc + 1;
            }
            y_loc = y_loc + 1;
        }
        arr
    }

    /// Moves the walker one tile ahead, onto a free tile, and moves its marker
    /// on the foreground with it.
    pub fn robot_step(&mut self)
        requires
            old(self).layers_ok(),
            old(self).free_at(ahead(old(self).pos(), old(self).dir())),
        ensures
            final(self).layers_ok(),
            xy(final(self).pos()) == ahead(old(self).pos(), old(self).dir()),
            final(self).dir() == old(self).dir(),
            final(self).stack() == old(self).stack(),
            final(self).bg() == old(self).bg(),
            final(self).visited_layer() == old(self).visited_layer(),
            final(self).exiting() == old(self).exiting(),
            final(self).cells_x() == old(self).cells_x() && final(self).cells_y() == old(self).cells_y(),
            final(self).fg().w() == old(self).fg().w() && final(self).fg().h() == old(self).fg().h(),
            forall|x: int, y: int|
                old(self).in_map((x, y)) ==> #[trigger] final(self).fg().at(x, y) == App::fg_moved(
                    old(self).fg(),
                    xy(old(self).pos()),
                    xy(final(self).pos()),
                    x,
                    y,
                ),
    {
        proof {
            lemma_unit_offsets(self.robot_pos, self.robot_dir);
        }
        let glob = self.robot_pos_with_offset((0, -1)).unwrap();
        let (px, py) = (self.robot_pos.x as u16, self.robot_pos.y as u16);
        if *self.layer_fg.0.get(px, py) == Some(ForegroundTile::Robot) {
            self.layer_fg.0.set(px, py, None);
        }
        self.robot_pos = glob;
        self.layer_fg.0.set(glob.x as u16, glob.y as u16, Some(ForegroundTile::Robot));
    }

    /// Pushes `pos` on the backtrack stack and marks it on the foreground.
    pub fn robot_stack_push(&mut self, pos: Pos)
        requires
            old(self).layers_ok(),
            old(self).in_map(xy(pos)),
        ensures
            final(self).layers_ok(),
            final(self).stack() == old(self).stack().push(pos),
            final(self).pos() == old(self).pos(),
            final(self).dir() == old(self).dir(),
            final(self).bg() == old(self).bg(),
            final(self).visited_layer() == old(self).visited_layer(),
            final(self).exiting() == old(self).exiting(),
            final(self).cells_x() == old(self).cells_x() && final(self).cells_y() == old(self).cells_y(),
            final(self).fg().w() == old(self).fg().w() && final(self).fg().h() == old(self).fg().h(),
            forall|x: int, y: int|
                old(self).in_map((x, y)) ==> #[trigger] final(self).fg().at(x, y) == if (x, y) == xy(pos) {
                    Some(ForegroundTile::Stack)
                } else {
                    old(self).fg().at(x, y)
                },
    {
        self.robot_stack.push(pos);
        self.layer_fg.0.set(pos.x as u16, pos.y as u16, Some(ForegroundTile::Stack));
    }

    /// Pops the backtrack stack, clearing the stack mark of the popped tile.
    pub fn robot_stack_pop(&mut self) -> (r: Option<Pos>)
        requires
            old(self).layers_ok(),
            forall|k: int| 0 <= k < old(self).stack().len() ==> old(self).in_map(xy(#[trigger] old(self).stack()[k])),
        ensures
            final(self).layers_ok(),
            old(self).stack().len() == 0 ==> r == None::<Pos>
                && final(self).stack() == old(self).stack()
                && final(self).fg() == old(self).fg(),
            old(self).stack().len() > 0 ==> r == Some(old(self).stack().last())
                && final(self).stack() == old(self).stack().drop_last(),
            final(self).pos() == old(self).pos(),
            final(self).dir() == old(self).dir(),
            final(self).bg() == old(self).bg(),
            final(self).visited_layer() == old(self).visited_layer(),
            final(self).exiting() == old(self).exiting(),
            final(self).cells_x() == old(self).cells_x() && final(self).cells_y() == old(self).cells_y(),
            final(self).fg().w() == old(self).fg().w() && final(self).fg().h() == old(self).fg().h(),
            forall|x: int, y: int|
                old(self).in_map((x, y)) ==> #[trigger] final(self).fg().at(x, y) == if old(self).stack().len() > 0
                    && (x, y) == xy(old(self).stack().last())
                    && old(self).fg().at(x, y) == Some(ForegroundTile::Stack) {
                    None
                } else {
                    old(self).fg().at(x, y)
                },
    {
        match self.robot_stack.pop() {
            Some(pos) => {
                assert(old(self).in_map(xy(old(self).stack()[old(self).stack().len() - 1])));
                let (x, y) = (pos.x as u16, pos.y as u16);
                if *self.layer_fg.0.get(x, y) == Some(ForegroundTile::Stack) {
                    self.layer_fg.0.set(x, y, None);
                }
                Some(pos)
            },
            None => None,
        }
    }

    pub fn robot_turn_right(&mut self)
        ensures
            final(self).dir() == right_spec(old(self).dir()),
            final(self).pos() == old(self).pos(),
            final(self).stack() == old(self).stack(),
            final(self).bg() == old(self).bg(),
            final(self).visited_layer() == old(self).visited_layer(),
            final(self).fg() == old(self).fg(),
            final(self).exiting() == old(self).exiting(),
            final(self).cells_x() == old(self).cells_x() && final(self).cells_y() == old(self).cells_y(),
    {
        self.robot_dir = self.robot_dir.right();
    }

    pub fn robot_turn_left(&mut self)
        ensures
            final(self).dir() == left_spec(old(self).dir()),
            final(self).pos() == old(self).pos(),
            final(self).stack() == old(self).stack(),
            final(self).bg() == old(self).bg(),
            final(self).visited_layer() == old(self).visited_layer(),
            final(self).fg() == old(self).fg(),
            final(self).exiting() == old(self).exiting(),
            final(self).cells_x() == old(self).cells_x() && final(self).cells_y() == old(self).cells_y(),
    {
        self.robot_dir = self.robot_dir.left();
    }
}

/// The work pending is never negative, and on a fresh maze it is
/// `2 * (F - 1)` for `F` free tiles. As each tick of `on_tick` that does not
/// start over lowers it by exactly one, a walk over a fresh maze starts over
/// within `2 * F - 1` ticks.
pub proof fn lemma_walk_bound(app: &App)
    requires
        app.wf(),
    ensures
        app.pending_work() >= 0,
        app.fresh(app.cells_x(), app.cells_y()) ==> app.free_tiles() >= 1 && app.pending_work() == 2
            * (app.free_tiles() - 1),
{
    let w = app.bg().w() as int;
    let h = app.bg().h() as int;
    lemma_count_nonneg(app.unexplored_pred(), w, w * h);
    if app.fresh(app.cells_x(), app.cells_y()) {
        let f = app.free_pred();
        let g = app.unexplored_pred();
        let t = (1int, 1int);
        assert forall|p: (int, int)| p != t implies #[trigger] f(p) == g(p) by {
            assert(!app.visited(p));
        }
        assert(app.visited(t));
        lemma_count_drop(f, g, w, w * h, t);
        assert(t.1 * w + t.0 < w * h) by (nonlinear_arith)
            requires
                w >= 3,
                h >= 3,
                t == (1int, 1int),
                ;
    }
}

/// Each state of a run that lowers the pending work by one per step has
/// `i` less than the first.
proof fn lemma_run_work(run: Seq<App>, i: int)
    requires
        0 <= i < run.len(),
        forall|j: int|
            0 <= j < run.len() - 1 ==> #[trigger] run[j + 1].pending_work() == run[j].pending_work()
                - 1,
    ensures
        run[i].pending_work() == run[0].pending_work() - i,
    decreases i,
{
    if i > 0 {
        lemma_run_work(run, i - 1);
        assert(run[(i - 1) + 1].pending_work() == run[i - 1].pending_work() - 1);
    }
}

/// Termination of the walk: take the walker on a fresh maze with `F` free
/// tiles, and a run of states each reached from the one before by a tick of
/// `on_tick` that does not start over (which lowers the pending work by one).
/// Such a run has at most `2 * (F - 1)` ticks, so the walk starts over within
/// `2 * F - 1` ticks.
pub proof fn lemma_walk_terminates(run: Seq<App>)
    requires
        run.len() > 0,
        run[0].fresh(run[0].cells_x(), run[0].cells_y()),
        forall|j: int| 0 <= j < run.len() ==> #[trigger] run[j].wf(),
        forall|j: int|
            0 <= j < run.len() - 1 ==> #[trigger] run[j + 1].pending_work() == run[j].pending_work()
                - 1,
    ensures
        run.len() - 1 <= 2 * (run[0].free_tiles() - 1),
{
    let last = run.len() - 1;
    lemma_run_work(run, last);
    lemma_walk_bound(&run[0]);
    lemma_walk_bound(&run[last]);
}

} // verus!
