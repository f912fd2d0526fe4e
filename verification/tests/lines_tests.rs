use tetris_core::board::Board;
use tetris_core::board::Color;

fn full_row(cells: &mut Vec<(i8, i8)>, width: i8, y: i8) {
    for x in 0..width {
        cells.push((x, y));
    }
}

fn cell_set(b: &Board) -> Vec<(i8, i8)> {
    let mut v: Vec<(i8, i8)> = b.0.iter().map(|(p, _)| *p).collect();
    v.sort();
    v
}

#[test]
fn whole_lines_reports_full_rows_ascending() {
    let mut cells = Vec::new();
    full_row(&mut cells, 4, 3);
    full_row(&mut cells, 4, 1);
    cells.push((0, 2));
    let b = Board::new(&cells, Color::Red);
    assert_eq!(b.whole_lines(4, 5), vec![1, 3]);
}

#[test]
fn whole_lines_of_empty_board_is_empty() {
    let b = Board::default();
    assert_eq!(b.whole_lines(8, 20), Vec::<i8>::new());
}

#[test]
fn row_with_one_empty_cell_is_not_full() {
    // No false line detection: one hole in a row keeps it off the list.
    let mut cells = Vec::new();
    for x in 0..8 {
        if x != 5 {
            cells.push((x, 4));
        }
    }
    let b = Board::new(&cells, Color::Green);
    assert_eq!(b.whole_lines(8, 20), Vec::<i8>::new());
}

#[test]
fn whole_lines_ignores_rows_at_or_past_height() {
    let mut cells = Vec::new();
    full_row(&mut cells, 4, 6);
    let b = Board::new(&cells, Color::Red);
    assert_eq!(b.whole_lines(4, 6), Vec::<i8>::new());
    assert_eq!(b.whole_lines(4, 7), vec![6]);
}

#[test]
fn kill_line_moves_rows_above_down() {
    let b = Board::new(&[(0, 0), (1, 2), (2, 5), (3, 7)], Color::Blue);
    let k = b.kill_line(5);
    // Row 5 disappears, rows above it move down one, rows below stay.
    assert_eq!(cell_set(&k), vec![(0, 1), (1, 3), (3, 7)]);
}

#[test]
fn kill_line_leaves_top_row_empty() {
    let mut cells = Vec::new();
    full_row(&mut cells, 4, 0);
    full_row(&mut cells, 4, 1);
    let b = Board::new(&cells, Color::Red);
    let k = b.kill_line(1);
    assert_eq!(cell_set(&k), vec![(0, 1), (1, 1), (2, 1), (3, 1)]);
}

#[test]
fn eliminating_two_rows_shifts_and_clears_top() {
    // Line elimination row count: killing the k full rows in ascending
    // order keeps the grid in its box, removes those rows' contents, and
    // leaves k empty rows at the top.
    let mut cells = Vec::new();
    full_row(&mut cells, 4, 2);
    full_row(&mut cells, 4, 4);
    cells.push((1, 0));
    cells.push((2, 3));
    cells.push((3, 5));
    let b = Board::new(&cells, Color::Magenta);
    let lines = b.whole_lines(4, 6);
    assert_eq!(lines, vec![2, 4]);
    let mut cur = b;
    for y in lines {
        cur = cur.kill_line(y);
    }
    // Survivors: (1,0) below both kills moves down 2; (2,3) below one
    // kill moves down 1; (3,5) moves by none.
    assert_eq!(cell_set(&cur), vec![(1, 2), (2, 4), (3, 5)]);
    assert!(cur.contained(4, 6));
    // The top two rows are empty.
    for x in 0..4 {
        assert!(!cur.contains_pt((x, 0)));
        assert!(!cur.contains_pt((x, 1)));
    }
}
