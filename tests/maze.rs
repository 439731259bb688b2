use maze_walker::frame::Pos;
use maze_walker::maze::{edge_slots, is_horizontal_edge, node_to_idx, Maze, Tile};

fn free(m: &Maze, x: usize, y: usize) -> bool {
    m.tiles[y][x] == Tile::Free
}

fn count_free(m: &Maze) -> usize {
    m.tiles.iter().map(|r| r.iter().filter(|t| **t == Tile::Free).count()).sum()
}

fn assert_border_walls(m: &Maze, nx: usize, ny: usize) {
    assert_eq!(m.tiles.len(), 2 * ny + 1);
    for y in 0..=2 * ny {
        assert_eq!(m.tiles[y].len(), 2 * nx + 1);
        for x in 0..=2 * nx {
            if x == 0 || y == 0 || x == 2 * nx || y == 2 * ny {
                assert_eq!(m.tiles[y][x], Tile::Wall);
            }
        }
    }
}

/// Number of cells reachable from cell (1, 1) over free tiles.
fn reachable_cells(m: &Maze) -> usize {
    let h = m.tiles.len();
    let w = m.tiles[0].len();
    let mut seen = vec![vec![false; w]; h];
    let mut todo = vec![(1usize, 1usize)];
    seen[1][1] = true;
    let mut cells = 0;
    while let Some((x, y)) = todo.pop() {
        if x % 2 == 1 && y % 2 == 1 {
            cells += 1;
        }
        let next = [(x + 1, y), (x - 1, y), (x, y + 1), (x, y - 1)];
        for (a, b) in next {
            if m.tiles[b][a] == Tile::Free && !seen[b][a] {
                seen[b][a] = true;
                todo.push((a, b));
            }
        }
    }
    cells
}

#[test]
fn empty_has_free_cells_only() {
    let m = Maze::empty(3, 2);
    assert_eq!(m.tiles.len(), 5);
    for y in 0..5 {
        assert_eq!(m.tiles[y].len(), 7);
        for x in 0..7 {
            assert_eq!(free(&m, x, y), x % 2 == 1 && y % 2 == 1);
        }
    }
}

#[test]
fn edge_slots_of_two_by_two() {
    let e = edge_slots(2, 2);
    assert_eq!(e, vec![Pos::new(2, 1), Pos::new(2, 3), Pos::new(1, 2), Pos::new(3, 2)]);
    assert!(edge_slots(1, 1).is_empty());
    assert_eq!(edge_slots(3, 2).len(), 2 * 3 * 2 - 3 - 2);
}

#[test]
fn cell_indices() {
    assert_eq!(node_to_idx(Pos::new(1, 1), 3, 2), 0);
    assert_eq!(node_to_idx(Pos::new(5, 1), 3, 2), 2);
    assert_eq!(node_to_idx(Pos::new(3, 3), 3, 2), 4);
    assert!(is_horizontal_edge(Pos::new(2, 1)));
    assert!(!is_horizontal_edge(Pos::new(1, 2)));
}

#[test]
fn kruskal_two_by_one_opens_the_middle() {
    let m = Maze::kruskal(2, 1);
    assert_eq!(m.tiles.len(), 3);
    assert_eq!(m.tiles[0].len(), 5);
    assert!(free(&m, 1, 1));
    assert!(free(&m, 2, 1));
    assert!(free(&m, 3, 1));
    assert_eq!(count_free(&m), 3);
    assert_border_walls(&m, 2, 1);
}

#[test]
fn kruskal_single_cell() {
    let m = Maze::kruskal(1, 1);
    assert_eq!(m.tiles.len(), 3);
    assert_eq!(count_free(&m), 1);
    assert!(free(&m, 1, 1));
}

#[test]
fn kruskal_is_connected_with_walls_round() {
    for (nx, ny) in [(1, 1), (2, 2), (3, 1), (1, 4), (5, 4), (16, 16)] {
        let m = Maze::kruskal(nx, ny);
        assert_border_walls(&m, nx, ny);
        assert_eq!(reachable_cells(&m), nx * ny);
        for y in (0..=2 * ny).step_by(2) {
            for x in (0..=2 * nx).step_by(2) {
                assert_eq!(m.tiles[y][x], Tile::Wall);
            }
        }
    }
}

#[test]
fn spanning_phase_on_two_by_two() {
    let (nx, ny) = (2, 2);
    let edges = edge_slots(nx, ny);
    let mut m = Maze::empty(nx, ny);
    let unused = m.carve_spanning(nx, ny, &edges);
    // nx * ny - 1 slots opened, the last one closes a cycle
    assert_eq!(count_free(&m) - nx * ny, 3);
    assert_eq!(unused, vec![Pos::new(3, 2)]);
    assert_eq!(m.tiles[2][3], Tile::Wall);
    assert_eq!(reachable_cells(&m), 4);
    // nx * ny / 2 = 2 would be reopened, but only one is left: half of it,
    // none, is reopened, so 3 + 0 slots stay open
    m.open_edges(nx, ny, &unused, unused.len() / 2);
    assert_eq!(count_free(&m) - nx * ny, 3);
    // open_edges itself opens no more than are listed
    m.open_edges(nx, ny, &unused, 2);
    assert_eq!(count_free(&m) - nx * ny, 4);
}

#[test]
fn kruskal_two_by_two_opens_three_slots() {
    let m = Maze::kruskal(2, 2);
    assert_eq!(count_free(&m), 4 + 3);
}

#[test]
fn kruskal_three_by_two_reopens_half_the_leftovers() {
    // 7 slots, 5 spanning, 2 left; 6 / 2 = 3 is more than that, so 1 reopened
    let m = Maze::kruskal(3, 2);
    assert_eq!(count_free(&m), 6 + 5 + 1);
}

#[test]
fn open_edges_opens_only_the_first() {
    let mut m = Maze::empty(3, 3);
    let edges = edge_slots(3, 3);
    m.open_edges(3, 3, &edges, 2);
    assert_eq!(count_free(&m), 9 + 2);
    assert!(free(&m, edges[0].x, edges[0].y));
    assert!(free(&m, edges[1].x, edges[1].y));
    assert!(!free(&m, edges[2].x, edges[2].y));
}

#[test]
fn kruskal_reopens_half_the_cell_count() {
    // 4 x 3: 17 slots, 11 for the spanning tree, 6 left; 12 / 2 = 6 reopened
    let m = Maze::kruskal(4, 3);
    assert_eq!(count_free(&m), 12 + 11 + 6);
    // 5 x 5: 40 slots, 24 spanning, 16 left; 25 / 2 = 12 reopened
    let m = Maze::kruskal(5, 5);
    assert_eq!(count_free(&m), 25 + 24 + 12);
}

#[test]
fn maze_as_text() {
    assert_eq!(Maze::empty(1, 1).to_text(), "OOO\nO O\nOOO\n");
    assert_eq!(Maze::kruskal(2, 1).to_text(), "OOOOO\nO   O\nOOOOO\n");
}

#[test]
fn edge_slots_are_distinct() {
    let e = edge_slots(4, 3);
    assert_eq!(e.len(), 2 * 4 * 3 - 4 - 3);
    for i in 0..e.len() {
        for j in 0..i {
            assert_ne!(e[i], e[j]);
        }
    }
}
