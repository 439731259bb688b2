use maze_walker::frame::{Direction, Pos};
use maze_walker::maze::{edge_slots, Maze};
use maze_walker::tile::{AlphaTileMap, TileMap};
use maze_walker::walker::{nth_true, select_idx, App, BackgroundTile, ForegroundTile};

/// A maze of `nx x ny` cells carved deterministically, slots in listed order.
fn carved(nx: usize, ny: usize) -> Maze {
    let mut m = Maze::empty(nx, ny);
    let edges = edge_slots(nx, ny);
    m.carve_spanning(nx, ny, &edges);
    m
}

fn visited_count(app: &App) -> usize {
    let bg = app.layer_bg();
    let mut n = 0;
    for y in 0..bg.height() as usize {
        for x in 0..bg.width() as usize {
            if app.is_visited(x, y) {
                n += 1;
            }
        }
    }
    n
}

fn free_count(app: &App) -> usize {
    let bg = app.layer_bg();
    let mut n = 0;
    for y in 0..bg.height() {
        for x in 0..bg.width() {
            if *bg.get(x, y) == BackgroundTile::Free {
                n += 1;
            }
        }
    }
    n
}

#[test]
fn new_app_starts_fresh() {
    let app = App::new();
    assert_eq!(app.robot_pos(), Pos::new(1, 1));
    assert_eq!(app.robot_dir(), Direction::E);
    assert!(app.robot_stack().is_empty());
    assert_eq!(app.maze_cells(), (16, 16));
    assert_eq!(app.layer_bg().width(), 33);
    assert_eq!(app.layer_bg().height(), 33);
    assert_eq!(visited_count(&app), 1);
    assert!(app.is_visited(1, 1));
    assert_eq!(*app.layer_fg().get(1, 1), Some(ForegroundTile::Robot));
    assert!(!app.should_exit());
}

#[test]
fn scan_reads_the_walker_frame() {
    let mut app = App::new();
    app.load_maze(&carved(3, 1), 3, 1);
    assert_eq!(&app.robot_scan(), b"O.OO.OOOO");
    assert_eq!(app.robot_pos_with_offset((0, -1)), Some(Pos::new(2, 1)));
    assert_eq!(app.robot_pos_with_offset((1, 0)), Some(Pos::new(1, 2)));
    assert_eq!(app.robot_pos_with_offset((-1, 0)), Some(Pos::new(1, 0)));
    assert_eq!(app.robot_pos_with_offset((-2, 0)), None);
}

#[test]
fn corridor_walk_and_restart() {
    let mut app = App::new();
    app.load_maze(&carved(3, 1), 3, 1);
    let free = free_count(&app);
    assert_eq!(free, 5);
    for step in 1..=4 {
        app.on_tick();
        assert_eq!(app.robot_pos(), Pos::new(1 + step, 1));
        assert_eq!(app.robot_dir(), Direction::E);
        assert_eq!(app.robot_stack().len(), step);
        assert_eq!(visited_count(&app), step + 1);
        assert_eq!(*app.layer_fg().get(step as u16, 1), Some(ForegroundTile::Stack));
    }
    // dead end: back to (4, 1), turned round
    app.on_tick();
    assert_eq!(app.robot_pos(), Pos::new(4, 1));
    assert_eq!(app.robot_dir(), Direction::W);
    assert_eq!(app.robot_stack().len(), 3);
    assert_eq!(visited_count(&app), 5);
    assert_eq!(*app.layer_fg().get(5, 1), None);
    assert_eq!(*app.layer_fg().get(4, 1), Some(ForegroundTile::Robot));
    for _ in 0..3 {
        app.on_tick();
    }
    assert_eq!(app.robot_pos(), Pos::new(1, 1));
    assert!(app.robot_stack().is_empty());
    assert_eq!(visited_count(&app), 5);
    // nothing left: a new maze of the same size
    app.on_tick();
    assert_eq!(app.maze_cells(), (3, 1));
    assert_eq!(app.robot_pos(), Pos::new(1, 1));
    assert_eq!(app.robot_dir(), Direction::E);
    assert_eq!(visited_count(&app), 1);
    // 9 ticks in all, at most twice the free tiles
    assert!(9 <= 2 * free);
}

#[test]
fn single_cell_restarts_at_once() {
    let mut app = App::new();
    app.load_maze(&Maze::kruskal(1, 1), 1, 1);
    assert_eq!(free_count(&app), 1);
    app.on_tick();
    assert_eq!(app.maze_cells(), (1, 1));
    assert_eq!(app.layer_bg().width(), 3);
    assert_eq!(free_count(&app), 1);
    assert_eq!(app.robot_pos(), Pos::new(1, 1));
    assert!(app.robot_stack().is_empty());
    assert_eq!(visited_count(&app), 1);
}

#[test]
fn full_walk_visits_every_free_tile_in_bounded_ticks() {
    let mut app = App::new();
    let free = free_count(&app);
    let mut ticks = 0;
    let mut last = visited_count(&app);
    loop {
        let restart = app.robot_stack().is_empty() && ticks > 0;
        let before = visited_count(&app);
        app.on_tick();
        ticks += 1;
        let now = visited_count(&app);
        if restart && now == 1 && before > 1 {
            assert_eq!(before, free);
            break;
        }
        assert!(now >= last);
        last = now;
        assert!(ticks <= 2 * free);
    }
    assert!(ticks <= 2 * free);
}

#[test]
fn advance_and_backtrack_directly() {
    let mut app = App::new();
    app.load_maze(&carved(2, 2), 2, 2);
    // slots (2,1), (2,3), (1,2) are open; (3,2) closed
    app.advance(0);
    assert_eq!(app.robot_pos(), Pos::new(2, 1));
    assert_eq!(app.robot_stack().as_slice(), &[Pos::new(1, 1)]);
    app.backtrack();
    assert_eq!(app.robot_pos(), Pos::new(1, 1));
    assert_eq!(app.robot_dir(), Direction::W);
    assert!(app.is_visited(2, 1));
    // facing west: left is south, towards (1, 2)
    app.advance(2);
    assert_eq!(app.robot_pos(), Pos::new(1, 2));
    assert_eq!(app.robot_dir(), Direction::S);
}

#[test]
fn regenerate_resets_walk() {
    let mut app = App::new();
    app.on_tick();
    app.regenerate(4, 2);
    assert_eq!(app.maze_cells(), (4, 2));
    assert_eq!(app.layer_bg().width(), 9);
    assert_eq!(app.layer_bg().height(), 5);
    assert_eq!(app.robot_pos(), Pos::new(1, 1));
    assert!(app.robot_stack().is_empty());
    assert_eq!(visited_count(&app), 1);
    app.reinit();
    assert_eq!(app.maze_cells(), (4, 2));
}

#[test]
fn exit_sets_flag_only() {
    let mut app = App::new();
    let pos = app.robot_pos();
    app.exit();
    assert!(app.should_exit());
    assert_eq!(app.robot_pos(), pos);
}

#[test]
fn selection_picks_a_true_index() {
    assert_eq!(select_idx(&[false, false, true]), 2);
    assert_eq!(select_idx(&[true, false, false]), 0);
    for _ in 0..20 {
        let i = select_idx(&[true, false, true]);
        assert!(i == 0 || i == 2);
    }
    assert_eq!(nth_true(&[true, false, true], 0), 0);
    assert_eq!(nth_true(&[true, false, true], 1), 2);
    assert_eq!(nth_true(&[true, true, true], 1), 1);
    assert_eq!(nth_true(&[false, true, false], 0), 1);
}

#[test]
fn tile_maps() {
    let mut m: TileMap<BackgroundTile> = TileMap::filled(3, 2, BackgroundTile::Wall);
    assert_eq!(m.width(), 3);
    assert_eq!(m.height(), 2);
    m.set(2, 1, BackgroundTile::Free);
    assert_eq!(*m.get(2, 1), BackgroundTile::Free);
    assert_eq!(*m.get(1, 1), BackgroundTile::Wall);
    let d: TileMap<BackgroundTile> = TileMap::with_default(2, 2);
    assert_eq!(*d.get(1, 1), BackgroundTile::Free);
    let mut a: AlphaTileMap<ForegroundTile> = AlphaTileMap::empty(2, 2);
    assert_eq!(*a.get(0, 1), None);
    a.set(0, 1, Some(ForegroundTile::Robot));
    assert_eq!(*a.get(0, 1), Some(ForegroundTile::Robot));
    assert_eq!(*a.get(1, 1), None);
}
