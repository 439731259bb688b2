use maze_walker::frame::Direction as D;
use maze_walker::frame::{Direction, Pos, RelPos};

#[test]
fn test_reorient() {
    let rp = RelPos::new(-1, 0, D::N);
    assert_eq!(RelPos::new(0, 1, D::E), rp.reorient_right());
    let rp = RelPos::new(0, -1, D::N);
    assert_eq!(RelPos::new(-1, 0, D::E), rp.reorient_right());

    let rp = RelPos::new(-1, 0, D::E);
    assert_eq!(RelPos::new(0, 1, D::S), rp.reorient_right());
    let rp = RelPos::new(0, -1, D::E);
    assert_eq!(RelPos::new(-1, 0, D::S), rp.reorient_right());

    let rp = RelPos::new(5, -3, D::S);
    assert_eq!(RelPos::new(3, 5, D::E), rp.reorient(D::E));
}

#[test]
fn right_and_left_are_inverse_and_cyclic() {
    for d in [Direction::N, Direction::E, Direction::S, Direction::W] {
        assert_eq!(d.left().right(), d);
        assert_eq!(d.right().left(), d);
        assert_eq!(d.right().right().right().right(), d);
        assert_ne!(d.right(), d);
    }
    assert_eq!(Direction::N.right(), Direction::E);
    assert_eq!(Direction::N.left(), Direction::W);
}

#[test]
fn reorient_to_own_direction_is_identity() {
    let rp = RelPos::new(4, -7, Direction::N);
    assert_eq!(rp.reorient(Direction::N), rp);
    let rp = RelPos::new(-2, 9, Direction::W);
    assert_eq!(rp.reorient(Direction::W), rp);
}

#[test]
fn reorient_takes_three_turns_at_most() {
    let rp = RelPos::new(2, -1, Direction::E);
    assert_eq!(rp.reorient(Direction::N), RelPos::new(1, 2, Direction::N));
    let rp = RelPos::new(2, -1, Direction::S);
    assert_eq!(rp.reorient(Direction::N), RelPos::new(-2, 1, Direction::N));
}

#[test]
fn add_moves_in_the_grid_frame() {
    let p = Pos::new(3, 3);
    // ahead while facing east is one step in +x
    assert_eq!(p.add(RelPos::new(0, -1, Direction::E)), Some(Pos::new(4, 3)));
    // right while facing east is one step in +y
    assert_eq!(p.add(RelPos::new(1, 0, Direction::E)), Some(Pos::new(3, 4)));
    // ahead while facing north is one step in -y
    assert_eq!(p.add(RelPos::new(0, -1, Direction::N)), Some(Pos::new(3, 2)));
    // left while facing south is one step in +x
    assert_eq!(p.add(RelPos::new(-1, 0, Direction::S)), Some(Pos::new(4, 3)));
}

#[test]
fn add_refuses_negative_coordinates() {
    let p = Pos::new(0, 0);
    assert_eq!(p.add(RelPos::new(0, -1, Direction::N)), None);
    assert_eq!(p.add(RelPos::new(-1, 0, Direction::N)), None);
    assert_eq!(p.add(RelPos::new(0, 1, Direction::N)), Some(Pos::new(0, 1)));
}

#[test]
fn add_beyond_isize_range() {
    let big = isize::MAX as usize + 1;
    let p = Pos::new(big, 0);
    assert_eq!(p.add(RelPos::new(-1, 0, Direction::N)), Some(Pos::new(isize::MAX as usize, 0)));
    assert_eq!(p.add(RelPos::new(1, 0, Direction::N)), Some(Pos::new(big + 1, 0)));
    let edge = Pos::new(usize::MAX, 3);
    assert_eq!(edge.add(RelPos::new(1, 0, Direction::N)), None);
    assert_eq!(edge.add(RelPos::new(0, -1, Direction::E)), None);
    assert_eq!(Pos::new(5, 5).add(RelPos::new(isize::MIN, 0, Direction::N)), None);
}

#[test]
fn reorient_without_turning_keeps_extreme_values() {
    let rp = RelPos::new(isize::MIN, isize::MIN, Direction::N);
    assert_eq!(rp.reorient(Direction::N), rp);
}
