use tetris_core::board::Board;
use tetris_core::board::Color;
use tetris_core::game::Command;
use tetris_core::game::DisplayMode;
use tetris_core::game::Game;
use tetris_core::game::Metrics;
use tetris_core::game::State;

fn standard_metrics() -> Metrics {
    Metrics { block_pixels: 20, board_x: 8, board_y: 20 }
}

fn full_bottom_row() -> Board {
    let cells: Vec<(i8, i8)> = (0..8).map(|x| (x, 19)).collect();
    Board::new(&cells, Color::Red)
}

fn cell_set(b: &Board) -> Vec<(i8, i8)> {
    let mut v: Vec<(i8, i8)> = b.0.iter().map(|(p, _)| *p).collect();
    v.sort();
    v
}

fn falling_cells(g: &Game) -> Vec<(i8, i8)> {
    match &g.state {
        State::Falling(p) => cell_set(p),
        _ => panic!("expected a falling piece"),
    }
}

#[test]
fn resolution_is_board_times_block() {
    let m = standard_metrics();
    assert_eq!(m.resolution(), [160, 400]);
}

#[test]
fn new_game_has_empty_board_and_catalog_of_seven() {
    let g = Game::new(standard_metrics());
    assert_eq!(g.board.0.len(), 0);
    assert_eq!(g.possible_pieces.len(), 7);
    assert_eq!(g.shift, (0, 0));
    for p in g.possible_pieces.iter() {
        assert_eq!(p.0.len(), 4);
        assert!(p.contained(4, 4));
    }
}

#[test]
fn spawn_on_empty_board_is_falling() {
    let mut g = Game::new(standard_metrics());
    g.spawn_indexed(0);
    assert!(matches!(g.state, State::Falling(_)));
    assert_eq!(g.shift, (0, 0));
    assert_eq!(falling_cells(&g), vec![(0, 0), (0, 1), (1, 0), (1, 1)]);
}

#[test]
fn random_spawn_always_yields_a_catalog_piece() {
    // Drives the random piece selector many times: every draw must give
    // a falling piece of four cells inside the template box.
    for _ in 0..50 {
        let mut g = Game::new(standard_metrics());
        g.new_falling();
        match &g.state {
            State::Falling(p) => {
                assert_eq!(p.0.len(), 4);
                assert!(p.contained(4, 4));
            }
            _ => panic!("spawning on an empty board must leave a falling piece"),
        }
    }
}

#[test]
fn scenario_o_piece_soft_dropped_to_rest() {
    // Empty 8 x 20 board; the O piece spawns and is walked to the top
    // center, then soft-dropped until it locks. Its four cells end on
    // the bottom row pair, no row is full, and a new piece is falling.
    let mut g = Game::new(standard_metrics());
    g.spawn_indexed(0);
    for _ in 0..3 {
        g.on_command(Command::MoveRight, 0);
    }
    assert_eq!(g.shift, (3, 0));
    for _ in 0..19 {
        g.on_command(Command::SoftDrop, 0);
    }
    assert_eq!(cell_set(&g.board), vec![(3, 18), (3, 19), (4, 18), (4, 19)]);
    assert_eq!(g.board.whole_lines(8, 20), Vec::<i8>::new());
    assert!(matches!(g.state, State::Falling(_)));
    assert!(!matches!(g.state, State::Flashing(_, _, _)));
}

#[test]
fn scenario_line_clear_through_flash() {
    // Bottom row occupied except column 3; a vertical I piece dropped
    // into column 3 completes the row, the flash runs its stages, the
    // row is eliminated and play continues.
    let mut g = Game::new(standard_metrics());
    g.board = Board::new(
        &[(0, 19), (1, 19), (2, 19), (4, 19), (5, 19), (6, 19), (7, 19)],
        Color::Green,
    );
    g.spawn_indexed(2);
    g.on_command(Command::RotateCW, 0);
    assert_eq!(falling_cells(&g), vec![(0, 0), (0, 1), (0, 2), (0, 3)]);
    for _ in 0..3 {
        g.on_command(Command::MoveRight, 0);
    }
    assert_eq!(g.shift, (3, 0));
    for _ in 0..17 {
        g.on_command(Command::SoftDrop, 1000);
    }
    match &g.state {
        State::Flashing(stage, _, lines) => {
            assert_eq!(*stage, 0);
            assert_eq!(lines, &vec![19]);
        }
        _ => panic!("completing the bottom row must start the flash"),
    }
    // The locked board: old bottom row plus the I piece in column 3.
    assert!(g.board.contains_pt((3, 19)));
    assert!(g.board.contains_pt((3, 16)));
    // Step the flash through all its stages, then the elimination.
    let mut t = 1000;
    for _ in 0..19 {
        t += 60;
        g.progress(t);
    }
    assert_eq!(cell_set(&g.board), vec![(3, 17), (3, 18), (3, 19)]);
    assert!(matches!(g.state, State::Falling(_)));
}

#[test]
fn scenario_move_left_rejected_at_wall() {
    // A piece flush against the left wall ignores a further move left,
    // because the candidate position is out of bounds.
    let mut g = Game::new(standard_metrics());
    g.spawn_indexed(0);
    let before = falling_cells(&g);
    g.on_command(Command::MoveLeft, 0);
    assert_eq!(g.shift, (0, 0));
    assert_eq!(falling_cells(&g), before);
    // Away from the wall the same command is accepted.
    g.on_command(Command::MoveRight, 0);
    g.on_command(Command::MoveLeft, 0);
    assert_eq!(g.shift, (0, 0));
}

#[test]
fn scenario_spawn_collision_is_game_over() {
    // A board filled over the spawn area sends every fresh piece
    // directly to game over, never observable as falling.
    let mut cells = Vec::new();
    for x in 0..4 {
        for y in 0..2 {
            cells.push((x, y));
        }
    }
    for idx in 0..7 {
        let mut g = Game::new(standard_metrics());
        g.board = Board::new(&cells, Color::Red);
        g.spawn_indexed(idx);
        assert!(matches!(g.state, State::GameOver));
    }
    // The random spawn path reaches the same verdict.
    let mut g = Game::new(standard_metrics());
    g.board = Board::new(&cells, Color::Red);
    g.new_falling();
    assert!(matches!(g.state, State::GameOver));
}

#[test]
fn gravity_waits_for_the_fall_interval() {
    let mut g = Game::new(standard_metrics());
    g.spawn_indexed(0);
    g.progress(500);
    assert_eq!(g.shift, (0, 0));
    g.progress(701);
    assert_eq!(g.shift, (0, 1));
    assert_eq!(g.time_since_fall, 701);
    g.progress(800);
    assert_eq!(g.shift, (0, 1));
}

#[test]
fn soft_drop_rebases_the_fall_timer() {
    let mut g = Game::new(standard_metrics());
    g.spawn_indexed(0);
    g.on_command(Command::SoftDrop, 300);
    assert_eq!(g.shift, (0, 1));
    assert_eq!(g.time_since_fall, 300);
}

#[test]
fn flash_waits_for_the_stage_interval() {
    let mut g = Game::new(standard_metrics());
    g.board = full_bottom_row();
    g.state = State::Flashing(0, 100, vec![19]);
    g.progress(120);
    match &g.state {
        State::Flashing(stage, t, _) => {
            assert_eq!(*stage, 0);
            assert_eq!(*t, 100);
        }
        _ => panic!("a quiet tick must not leave the flash"),
    }
    g.progress(151);
    match &g.state {
        State::Flashing(stage, t, _) => {
            assert_eq!(*stage, 1);
            assert_eq!(*t, 151);
        }
        _ => panic!("an elapsed tick must advance the stage"),
    }
}

#[test]
fn commands_are_ignored_while_flashing() {
    let mut g = Game::new(standard_metrics());
    g.board = full_bottom_row();
    g.state = State::Flashing(3, 100, vec![19]);
    g.on_command(Command::MoveLeft, 0);
    g.on_command(Command::SoftDrop, 0);
    match &g.state {
        State::Flashing(stage, _, _) => assert_eq!(*stage, 3),
        _ => panic!("input must not disturb the flash"),
    }
    assert_eq!(g.board.0.len(), 8);
}

#[test]
fn restart_from_game_over_clears_and_respawns() {
    let mut g = Game::new(standard_metrics());
    g.board = Board::new(&[(0, 19), (5, 4)], Color::Red);
    g.state = State::GameOver;
    g.on_command(Command::MoveLeft, 0);
    assert!(matches!(g.state, State::GameOver));
    g.on_command(Command::Restart, 0);
    assert_eq!(g.board.0.len(), 0);
    assert!(matches!(g.state, State::Falling(_)));
}

#[test]
fn snapshot_merges_the_falling_piece() {
    let mut g = Game::new(standard_metrics());
    g.board = Board::new(&[(0, 19)], Color::Green);
    g.spawn_indexed(0);
    let (board, mode) = g.render_snapshot();
    assert!(matches!(mode, DisplayMode::Normal));
    assert!(board.contains_pt((0, 19)));
    assert!(board.contains_pt((0, 0)));
    assert!(board.contains_pt((1, 1)));
    assert_eq!(board.0.len(), 5);
    // The snapshot is a copy; the locked board itself is untouched.
    assert_eq!(g.board.0.len(), 1);
}

#[test]
fn snapshot_flashes_pending_rows_on_odd_stages() {
    let mut g = Game::new(standard_metrics());
    g.board = full_bottom_row();
    g.state = State::Flashing(0, 0, vec![19]);
    let (_, even_mode) = g.render_snapshot();
    assert!(matches!(even_mode, DisplayMode::Normal));
    g.state = State::Flashing(1, 0, vec![19]);
    let (board, odd_mode) = g.render_snapshot();
    match odd_mode {
        DisplayMode::Flash(rows) => assert_eq!(rows, vec![19]),
        _ => panic!("odd flash stages must highlight the pending rows"),
    }
    assert_eq!(board.0.len(), 8);
}

#[test]
fn snapshot_darkens_after_game_over() {
    let mut g = Game::new(standard_metrics());
    g.board = Board::new(&[(2, 2)], Color::Red);
    g.state = State::GameOver;
    let (board, mode) = g.render_snapshot();
    assert!(matches!(mode, DisplayMode::Darkened));
    assert!(board.contains_pt((2, 2)));
}

#[test]
fn rotation_against_right_wall_uses_the_nudge() {
    // A vertical T flush against the right wall can only rotate because
    // the engine also tries one cell to the left.
    let mut g = Game::new(standard_metrics());
    g.spawn_indexed(1);
    g.on_command(Command::RotateCW, 0);
    assert_eq!(falling_cells(&g), vec![(0, 1), (1, 0), (1, 1), (1, 2)]);
    for _ in 0..6 {
        g.on_command(Command::MoveRight, 0);
    }
    assert_eq!(g.shift, (6, 0));
    g.on_command(Command::RotateCW, 0);
    assert_eq!(falling_cells(&g), vec![(0, 1), (1, 0), (1, 1), (2, 1)]);
    assert_eq!(g.shift, (5, 0));
}

#[test]
fn rotation_without_room_is_ignored() {
    // A vertical I at the right wall cannot become horizontal even with
    // the one-cell nudge, so the command is a no-op.
    let mut g = Game::new(standard_metrics());
    g.spawn_indexed(2);
    g.on_command(Command::RotateCW, 0);
    assert_eq!(falling_cells(&g), vec![(0, 0), (0, 1), (0, 2), (0, 3)]);
    for _ in 0..7 {
        g.on_command(Command::MoveRight, 0);
    }
    assert_eq!(g.shift, (7, 0));
    g.on_command(Command::RotateCW, 0);
    assert_eq!(g.shift, (7, 0));
    assert_eq!(falling_cells(&g), vec![(0, 0), (0, 1), (0, 2), (0, 3)]);
}
