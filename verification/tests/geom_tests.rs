use tetris_core::board::Board;
use tetris_core::board::Color;

fn cell_set(b: &Board) -> Vec<(i8, i8)> {
    let mut v: Vec<(i8, i8)> = b.0.iter().map(|(p, _)| *p).collect();
    v.sort();
    v
}

#[test]
fn transposed_swaps_axes() {
    let b = Board::new(&[(1, 0), (2, 5)], Color::Red);
    let t = b.transposed();
    assert_eq!(cell_set(&t), vec![(0, 1), (5, 2)]);
}

#[test]
fn mirrored_y_negates_rows() {
    let b = Board::new(&[(1, 0), (2, 3)], Color::Red);
    let m = b.mirrored_y();
    assert_eq!(cell_set(&m), vec![(1, 0), (2, -3)]);
}

#[test]
fn rotated_is_mirror_then_transpose() {
    // The clockwise quarter turn sends (x, y) to (-y, x).
    let b = Board::new(&[(0, 0), (1, 0), (2, 0), (2, 1)], Color::Yellow);
    let r = b.rotated();
    assert_eq!(cell_set(&r), vec![(-1, 2), (0, 0), (0, 1), (0, 2)]);
}

#[test]
fn rotated_counter_is_three_turns() {
    // The counter-clockwise quarter turn sends (x, y) to (y, -x).
    let b = Board::new(&[(0, 0), (1, 0), (2, 0), (2, 1)], Color::Yellow);
    let r = b.rotated_counter();
    assert_eq!(cell_set(&r), vec![(0, -2), (0, -1), (0, 0), (1, -2)]);
}

#[test]
fn four_rotations_restore_the_shape() {
    // Rotation idempotence on a trimmed shape: four clockwise quarter
    // turns give back exactly the occupied cells we started from.
    let b = Board::new(&[(0, 0), (1, 0), (1, 1), (2, 0)], Color::Green);
    let r4 = b.rotated().rotated().rotated().rotated();
    assert_eq!(cell_set(&r4), cell_set(&b));
}

#[test]
fn rotation_then_counter_rotation_is_identity() {
    let b = Board::new(&[(0, 0), (1, 0), (1, 1), (2, 1)], Color::Cyan);
    let back = b.rotated().rotated_counter();
    assert_eq!(cell_set(&back), cell_set(&b));
    let back2 = b.rotated_counter().rotated();
    assert_eq!(cell_set(&back2), cell_set(&b));
}

#[test]
fn negative_shift_finds_clamped_minima() {
    let b = Board::new(&[(-2, 3), (1, -1)], Color::Red);
    assert_eq!(b.negative_shift(), (-2, -1));
    let pos = Board::new(&[(2, 3)], Color::Red);
    assert_eq!(pos.negative_shift(), (0, 0));
    let empty = Board::default();
    assert_eq!(empty.negative_shift(), (0, 0));
}

#[test]
fn shifted_translates_every_cell() {
    let b = Board::new(&[(0, 0), (1, 2)], Color::Blue);
    let s = b.shifted((3, -1));
    assert_eq!(cell_set(&s), vec![(3, -1), (4, 1)]);
}

#[test]
fn rotation_normalizes_with_negative_shift() {
    // Renormalizing a rotated shape by its negative shift reproduces the
    // classic bounding-box flip rotation.
    let b = Board::new(&[(0, 0), (1, 0), (2, 0), (3, 0)], Color::Blue);
    let r = b.rotated();
    let (nx, ny) = r.negative_shift();
    let norm = r.shifted((-nx, -ny));
    assert_eq!(cell_set(&norm), vec![(0, 0), (0, 1), (0, 2), (0, 3)]);
}
