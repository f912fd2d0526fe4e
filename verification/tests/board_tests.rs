use tetris_core::board::Board;
use tetris_core::board::Color;

fn color_at(b: &Board, x: i8, y: i8) -> Option<Color> {
    for ((cx, cy), c) in b.0.iter() {
        if *cx == x && *cy == y {
            return Some(*c);
        }
    }
    None
}

#[test]
fn new_builds_listed_cells() {
    let b = Board::new(&[(0, 0), (1, 2), (3, 1)], Color::Cyan);
    assert!(b.contains_pt((0, 0)));
    assert!(b.contains_pt((1, 2)));
    assert!(b.contains_pt((3, 1)));
    assert!(!b.contains_pt((1, 1)));
    assert_eq!(color_at(&b, 1, 2), Some(Color::Cyan));
    assert_eq!(b.0.len(), 3);
}

#[test]
fn new_collapses_equal_keys() {
    let b = Board::new(&[(2, 2), (2, 2), (2, 2)], Color::Red);
    assert_eq!(b.0.len(), 1);
    assert!(b.contains_pt((2, 2)));
}

#[test]
fn default_board_is_empty() {
    let b = Board::default();
    assert_eq!(b.0.len(), 0);
    assert!(!b.contains_pt((0, 0)));
}

#[test]
fn merge_of_disjoint_boards_succeeds() {
    let g = Board::new(&[(0, 0), (1, 0)], Color::Red);
    let s = Board::new(&[(0, 1), (1, 1)], Color::Blue);
    let m = g.merged(&s).expect("disjoint boards must merge");
    assert!(m.contains_pt((0, 0)));
    assert!(m.contains_pt((1, 0)));
    assert!(m.contains_pt((0, 1)));
    assert!(m.contains_pt((1, 1)));
    assert_eq!(m.0.len(), 4);
}

#[test]
fn merge_rejects_any_collision() {
    let g = Board::new(&[(0, 0), (1, 0)], Color::Red);
    let s = Board::new(&[(1, 0), (2, 0)], Color::Blue);
    assert!(g.merged(&s).is_none());
}

#[test]
fn merge_containment_cells_were_empty() {
    // If the merge succeeds, every cell the shape occupies was empty in
    // the base grid.
    let g = Board::new(&[(0, 0), (5, 3)], Color::Red);
    let s = Board::new(&[(1, 1), (2, 2)], Color::Green);
    assert!(g.merged(&s).is_some());
    assert!(!g.contains_pt((1, 1)));
    assert!(!g.contains_pt((2, 2)));
}

#[test]
fn merge_keeps_base_cells_unchanged() {
    let g = Board::new(&[(0, 0), (5, 3)], Color::Red);
    let s = Board::new(&[(1, 1), (2, 2)], Color::Green);
    let m = g.merged(&s).unwrap();
    assert_eq!(color_at(&m, 0, 0), Some(Color::Red));
    assert_eq!(color_at(&m, 5, 3), Some(Color::Red));
    assert_eq!(color_at(&m, 1, 1), Some(Color::Green));
    assert_eq!(color_at(&m, 2, 2), Some(Color::Green));
}

#[test]
fn contained_checks_the_box() {
    let b = Board::new(&[(0, 0), (7, 19)], Color::Red);
    assert!(b.contained(8, 20));
    assert!(!b.contained(7, 20));
    assert!(!b.contained(8, 19));
    let neg = Board::new(&[(-1, 0)], Color::Red);
    assert!(!neg.contained(8, 20));
    let empty = Board::default();
    assert!(empty.contained(1, 1));
}

#[test]
fn modified_relocates_cells() {
    let b = Board::new(&[(1, 2), (3, 4)], Color::Yellow);
    let t = b.modified(|(x, y)| (y, x));
    assert!(t.contains_pt((2, 1)));
    assert!(t.contains_pt((4, 3)));
    assert!(!t.contains_pt((1, 2)));
    assert_eq!(t.0.len(), 2);
    assert_eq!(color_at(&t, 2, 1), Some(Color::Yellow));
}

#[test]
fn modified_filter_drops_and_moves() {
    let b = Board::new(&[(0, 0), (0, 5), (0, 9)], Color::Orange);
    let f = b.modified_filter(|(x, y)| if y == 5 { None } else { Some((x, y + 1)) });
    assert_eq!(f.0.len(), 2);
    assert!(f.contains_pt((0, 1)));
    assert!(f.contains_pt((0, 10)));
    assert!(!f.contains_pt((0, 5)));
    assert!(!f.contains_pt((0, 6)));
}
