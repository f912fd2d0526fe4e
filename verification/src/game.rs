//! The game state machine: a falling piece moved by gravity ticks and
//! commands, locked into the board when it can fall no further, completed
//! rows flashed and then eliminated, and game over when a fresh piece
//! cannot be placed. Time enters only as caller-supplied millisecond
//! timestamps, so every transition is deterministic in its inputs except
//! where the random piece selector is consulted.

use vstd::prelude::*;

use crate::board::Board;
use crate::board::Color;
use crate::board::spec_contained;
use crate::board::key_at;
use crate::board::lemma_cell_view;
use crate::board::pts_contains;
use crate::geom::spec_shifted;
use crate::geom::spec_rotated;
use crate::geom::spec_rotated_ccw;
use crate::geom::lemma_rotated_at;
use crate::geom::lemma_shifted_compose;
use crate::lines::spec_whole_lines;
use crate::lines::spec_row_full;
use crate::lines::spec_killed;
use crate::lines::spec_killed_all;
use crate::lines::sorted_strict;
use crate::lines::lemma_whole_lines_char;

verus! {

/// Milliseconds a piece rests before gravity pulls it one row down.
pub const FALL_INTERVAL_MS: u64 = 700;

/// Milliseconds between two stages of the line-clearing flash.
pub const FLASH_STAGE_INTERVAL_MS: u64 = 50;

/// The last stage of the line-clearing flash; reaching it eliminates the
/// pending rows.
pub const FLASH_LAST_STAGE: isize = 18;

/// Board geometry and cell size, fixed at construction.
pub struct Metrics {
    pub block_pixels: usize,
    pub board_x: usize,
    pub board_y: usize,
}

impl Metrics {
    /// Sane configuration: positive board dimensions small enough for the
    /// engine's byte-sized coordinates, and a pixel resolution that fits
    /// a `u32` per axis.
    pub open spec fn wf(&self) -> bool {
        0 < self.board_x <= 120 && 0 < self.board_y <= 120 && self.board_x * self.block_pixels
            <= u32::MAX && self.board_y * self.block_pixels <= u32::MAX
    }

    /// The window resolution in pixels: board dimensions times cell size.
    pub fn resolution(&self) -> (r: [u32; 2])
        requires
            self.wf(),
        ensures
            r[0] == self.board_x * self.block_pixels,
            r[1] == self.board_y * self.block_pixels,
    {
        [(self.board_x * self.block_pixels) as u32, (self.board_y * self.block_pixels) as u32]
    }
}

/// What the machine is doing: flashing completed rows (stage counter,
/// stage timestamp, pending row indices), dropping a falling piece, or
/// finished.
pub enum State {
    Flashing(isize, u64, Vec<i8>),
    Falling(Board),
    GameOver,
}

/// How a rendered frame is tinted: plain, with the listed rows
/// highlighted, or darkened after game over. The renderer consumes this
/// together with a board snapshot and owns no game state.
pub enum DisplayMode {
    Normal,
    Flash(Vec<i8>),
    Darkened,
}

/// A discrete input action, decoded by the surrounding application.
pub enum Command {
    MoveLeft,
    MoveRight,
    SoftDrop,
    RotateCW,
    RotateCCW,
    Restart,
}

/// The occupied points of the piece template numbered `i`.
pub open spec fn piece_points(i: int) -> Set<(int, int)> {
    if i == 0 {
        set![(0, 0), (0, 1), (1, 0), (1, 1)]
    } else if i == 1 {
        set![(0, 0), (1, 0), (1, 1), (2, 0)]
    } else if i == 2 {
        set![(0, 0), (1, 0), (2, 0), (3, 0)]
    } else if i == 3 {
        set![(0, 0), (1, 0), (2, 0), (0, 1)]
    } else if i == 4 {
        set![(0, 0), (1, 0), (2, 0), (2, 1)]
    } else if i == 5 {
        set![(0, 0), (1, 0), (1, 1), (2, 1)]
    } else {
        set![(1, 0), (2, 0), (0, 1), (1, 1)]
    }
}

/// The color of the piece template numbered `i`.
pub open spec fn piece_color(i: int) -> Color {
    if i == 0 {
        Color::Red
    } else if i == 1 {
        Color::Green
    } else if i == 2 {
        Color::Blue
    } else if i == 3 {
        Color::Orange
    } else if i == 4 {
        Color::Yellow
    } else if i == 5 {
        Color::Cyan
    } else {
        Color::Magenta
    }
}

/// A piece pattern fit to fall: nonempty and held inside the 4 x 4
/// template box at the origin.
pub open spec fn small_piece(m: Map<(int, int), Color>) -> bool {
    (exists|q: (int, int)| m.dom().contains(q)) && (forall|q: (int, int)| #[trigger]
        m.dom().contains(q) ==> 0 <= q.0 <= 3 && 0 <= q.1 <= 3)
}

/// The catalog holds exactly the seven standard piece templates.
pub open spec fn catalog_ok(pieces: Seq<Board>) -> bool {
    pieces.len() == 7 && forall|i: int|
        0 <= i < 7 ==> (#[trigger] pieces[i]).wf() && pieces[i]@.dom() == piece_points(i)
            && small_piece(pieces[i]@) && (forall|q: (int, int)| #[trigger]
            pieces[i]@.dom().contains(q) ==> pieces[i]@[q] == piece_color(i))
}

/// The whole game: the locked board, the configuration, the current
/// state, the falling piece's offset, the template catalog, and the
/// timestamp of the last gravity step.
pub struct Game {
    pub board: Board,
    pub metrics: Metrics,
    pub state: State,
    pub shift: (i8, i8),
    pub possible_pieces: Vec<Board>,
    pub time_since_fall: u64,
}

impl Game {
    /// The falling piece's view (the empty map outside `Falling`).
    pub open spec fn falling_piece(&self) -> Map<(int, int), Color> {
        match self.state {
            State::Falling(p) => p@,
            _ => Map::empty(),
        }
    }

    /// The falling piece as placed on the board: its pattern translated
    /// by the current offset.
    pub open spec fn spec_shifted_falling(&self) -> Map<(int, int), Color> {
        spec_shifted(self.falling_piece(), self.shift.0 as int, self.shift.1 as int)
    }

    /// Structural soundness of the bookkeeping fields, whatever the state.
    pub open spec fn wf_base(&self) -> bool {
        self.metrics.wf() && self.board.wf() && catalog_ok(self.possible_pieces@)
    }

    /// State-specific soundness: a falling piece is a well-formed small
    /// pattern, placed inside coordinate range and free of the board;
    /// a flash holds an ascending list of in-range rows and a stage in
    /// range.
    pub open spec fn falling_ok(&self) -> bool {
        match self.state {
            State::Falling(p) => p.wf() && small_piece(p@) && (forall|q: (int, int)| #[trigger]
                p@.dom().contains(q) ==> 0 <= q.0 + self.shift.0 <= 122 && 0 <= q.1 + self.shift.1
                    <= 122) && self.board@.dom().disjoint(self.spec_shifted_falling().dom()),
            State::Flashing(stage, _t, lines) => 0 <= stage <= FLASH_LAST_STAGE && sorted_strict(
                lines@.map_values(|v: i8| v as int),
            ) && (forall|i: int|
                0 <= i < lines@.len() ==> 0 <= #[trigger] lines@[i] && (lines@[i] as int)
                    < self.metrics.board_y as int) && (forall|i: int|
                0 <= i < lines@.len() ==> spec_row_full(
                    self.board@,
                    self.metrics.board_x as int,
                    #[trigger] lines@[i] as int,
                )),
            State::GameOver => true,
        }
    }

    /// The game invariant that every transition preserves.
    pub open spec fn wf(&self) -> bool {
        self.wf_base() && self.falling_ok()
    }

    /// A falling state sound enough to read the piece's placement.
    pub open spec fn falling_wf(&self) -> bool {
        match self.state {
            State::Falling(p) => p.wf() && (forall|q: (int, int)| #[trigger]
                p@.dom().contains(q) ==> i8::MIN <= q.0 + self.shift.0 <= i8::MAX && i8::MIN <= q.1
                    + self.shift.1 <= i8::MAX),
            _ => false,
        }
    }
}

/// A board holding the four given distinct coordinates in one color.
fn make_piece(p0: (i8, i8), p1: (i8, i8), p2: (i8, i8), p3: (i8, i8), color: Color) -> (r: Board)
    requires
        p0 != p1 && p0 != p2 && p0 != p3 && p1 != p2 && p1 != p3 && p2 != p3,
    ensures
        r.wf(),
        forall|q: (int, int)|
            #[trigger] r@.dom().contains(q) <==> (q == ((p0.0 as int, p0.1 as int)) || q == ((
                p1.0 as int,
                p1.1 as int,
            )) || q == ((p2.0 as int, p2.1 as int)) || q == ((p3.0 as int, p3.1 as int))),
        forall|q: (int, int)| #[trigger] r@.dom().contains(q) ==> r@[q] == color,
{
    let mut cells: Vec<((i8, i8), Color)> = Vec::new();
    cells.push((p0, color));
    cells.push((p1, color));
    cells.push((p2, color));
    cells.push((p3, color));
    let r = Board(cells);
    proof {
        let s = r.0@;
        assert(s.len() == 4);
        assert(s[0] == ((p0, color)) && s[1] == ((p1, color)) && s[2] == ((p2, color)) && s[3]
            == ((p3, color)));
        assert(key_at(s, 0) == ((p0.0 as int, p0.1 as int)));
        assert(key_at(s, 1) == ((p1.0 as int, p1.1 as int)));
        assert(key_at(s, 2) == ((p2.0 as int, p2.1 as int)));
        assert(key_at(s, 3) == ((p3.0 as int, p3.1 as int)));
        assert forall|i: int, j: int| 0 <= i < j < s.len() implies key_at(s, i) != key_at(
            s,
            j,
        ) by {}
        assert forall|q: (int, int)| #[trigger] r@.dom().contains(q) implies (q == ((
            p0.0 as int,
            p0.1 as int,
        )) || q == ((p1.0 as int, p1.1 as int)) || q == ((p2.0 as int, p2.1 as int)) || q == ((
            p3.0 as int,
            p3.1 as int,
        ))) && r@[q] == color by {
            let w = choose|w: int| 0 <= w < s.len() && key_at(s, w) == q;
            lemma_cell_view(s, w);
        }
        assert forall|q: (int, int)|
            (q == ((p0.0 as int, p0.1 as int)) || q == ((p1.0 as int, p1.1 as int)) || q == ((
                p2.0 as int,
                p2.1 as int,
            )) || q == ((p3.0 as int, p3.1 as int))) implies #[trigger] r@.dom().contains(q) by {
            if q == ((p0.0 as int, p0.1 as int)) {
                assert(key_at(s, 0) == q);
            } else if q == ((p1.0 as int, p1.1 as int)) {
                assert(key_at(s, 1) == q);
            } else if q == ((p2.0 as int, p2.1 as int)) {
                assert(key_at(s, 2) == q);
            } else {
                assert(key_at(s, 3) == q);
            }
            assert(pts_contains(s, q));
        }
    }
    r
}

/// Relies on rand::Rng::gen_range over the range `0..n`, drawn from
/// rand::thread_rng: whatever the generator yields, the sample lies in
/// the nonempty range, so the result is below `n`.
#[verifier::external_body]
fn random_below(n: usize) -> (r: usize)
    requires
        0 < n,
    ensures
        r < n,
{
    rand::Rng::gen_range(&mut rand::thread_rng(), 0..n)
}

/// An owned copy of a board, cell for cell.
fn copy_board(b: &Board) -> (r: Board)
    ensures
        r.0@ == b.0@,
{
    let mut cells: Vec<((i8, i8), Color)> = Vec::new();
    let mut k: usize = 0;
    while k < b.0.len()
        invariant
            k <= b.0@.len(),
            cells@ == b.0@.subrange(0, k as int),
        decreases b.0@.len() - k,
    {
        cells.push(b.0[k]);
        proof {
            assert(cells@ =~= b.0@.subrange(0, k + 1));
        }
        k += 1;
    }
    proof {
        assert(cells@ =~= b.0@);
    }
    Board(cells)
}

/// The candidate test the engine applies to a rotation: the piece at the
/// offset merges into the board without collision, and the merged whole
/// lies inside the board's box.
pub open spec fn rotation_fits(
    board: Map<(int, int), Color>,
    piece: Map<(int, int), Color>,
    sx: int,
    sy: int,
    w: int,
    h: int,
) -> bool {
    board.dom().disjoint(spec_shifted(piece, sx, sy).dom()) && spec_contained(
        board.union_prefer_right(spec_shifted(piece, sx, sy)),
        w,
        h,
    )
}

/// The pair `negative_shift` computes: the most negative column and row,
/// each clamped to zero.
pub open spec fn is_neg_shift(m: Map<(int, int), Color>, nx: int, ny: int) -> bool {
    nx <= 0 && ny <= 0 && (forall|q: (int, int)| #[trigger]
        m.dom().contains(q) ==> nx <= q.0 && ny <= q.1) && (nx == 0 || exists|q: (int, int)|
        #[trigger] m.dom().contains(q) && q.0 == nx) && (ny == 0 || exists|q: (int, int)| #[trigger]
        m.dom().contains(q) && q.1 == ny)
}

/// Renormalizing a rotated template by its negative shift puts it back
/// into the 4 x 4 box at the origin.
proof fn lemma_norm_small(rot: Map<(int, int), Color>, nx: int, ny: int)
    requires
        is_neg_shift(rot, nx, ny),
        exists|q: (int, int)| rot.dom().contains(q),
        forall|q: (int, int)| #[trigger]
            rot.dom().contains(q) ==> -3 <= q.0 <= 3 && -3 <= q.1 <= 3,
        forall|q1: (int, int), q2: (int, int)|
            #![trigger rot.dom().contains(q1), rot.dom().contains(q2)]
            rot.dom().contains(q1) && rot.dom().contains(q2) ==> q1.0 - q2.0 <= 3 && q1.1 - q2.1
                <= 3,
    ensures
        small_piece(spec_shifted(rot, -nx, -ny)),
        -3 <= nx <= 0 && -3 <= ny <= 0,
{
    if nx < 0 {
        let q2 = choose|q: (int, int)| #[trigger] rot.dom().contains(q) && q.0 == nx;
        assert(rot.dom().contains(q2));
    }
    if ny < 0 {
        let q2 = choose|q: (int, int)| #[trigger] rot.dom().contains(q) && q.1 == ny;
        assert(rot.dom().contains(q2));
    }
    let norm = spec_shifted(rot, -nx, -ny);
    let q0 = choose|q: (int, int)| rot.dom().contains(q);
    assert(norm.dom().contains((q0.0 - nx, q0.1 - ny))) by {
        assert(rot.dom().contains(((q0.0 - nx) - (-nx), (q0.1 - ny) - (-ny))));
    }
    assert forall|t: (int, int)| #[trigger] norm.dom().contains(t) implies 0 <= t.0 <= 3 && 0 <= t.1
        <= 3 by {
        let src = ((t.0 + nx, t.1 + ny));
        assert(rot.dom().contains(src));
        if nx < 0 {
            let q2 = choose|q: (int, int)| #[trigger] rot.dom().contains(q) && q.0 == nx;
            assert(src.0 - q2.0 <= 3);
        }
        if ny < 0 {
            let q2 = choose|q: (int, int)| #[trigger] rot.dom().contains(q) && q.1 == ny;
            assert(src.1 - q2.1 <= 3);
        }
    }
}

/// How one rotation command transforms the game: the falling piece is
/// turned a quarter (clockwise when `counter` is set, counter-clockwise
/// otherwise, as the engine's keys are wired), renormalized to the
/// origin, and committed at the first offset among the current one and
/// one cell to the left at which the merged board fits; when neither
/// fits, nothing changes.
pub open spec fn spec_rot_by(p: Map<(int, int), Color>, counter: bool) -> Map<(int, int), Color> {
    if counter {
        spec_rotated(p)
    } else {
        spec_rotated_ccw(p)
    }
}

pub open spec fn rotate_outcome(pre: Game, post: Game, counter: bool) -> bool {
    post.board == pre.board && post.metrics == pre.metrics && post.possible_pieces
        == pre.possible_pieces && post.time_since_fall == pre.time_since_fall && match pre.state {
        State::Falling(p0) => match post.state {
            State::Falling(p1) => exists|nx: int, ny: int|
                #[trigger] is_neg_shift(spec_rot_by(p0@, counter), nx, ny) && {
                    let rot = spec_rot_by(p0@, counter);
                    let norm = spec_shifted(rot, -nx, -ny);
                    let w = pre.metrics.board_x as int;
                    let h = pre.metrics.board_y as int;
                    if rotation_fits(
                        pre.board@,
                        norm,
                        pre.shift.0 as int,
                        pre.shift.1 as int,
                        w,
                        h,
                    ) {
                        p1@ == norm && post.shift == pre.shift
                    } else if rotation_fits(
                        pre.board@,
                        norm,
                        pre.shift.0 - 1,
                        pre.shift.1 as int,
                        w,
                        h,
                    ) {
                        p1@ == norm && post.shift.0 == pre.shift.0 - 1 && post.shift.1
                            == pre.shift.1
                    } else {
                        p1@ == p0@ && post.shift == pre.shift
                    }
                },
            _ => false,
        },
        _ => false,
    }
}

impl Game {
    /// A fresh game over an empty board: the template catalog is built,
    /// the state is an idle `Falling` with no piece yet, and the fall
    /// timer starts at zero. A real piece enters with the first spawn.
    pub fn new(metrics: Metrics) -> (g: Game)
        requires
            metrics.wf(),
        ensures
            g.wf_base(),
            g.metrics == metrics,
            g.board@ == Map::<(int, int), Color>::empty(),
            g.shift == ((0i8, 0i8)),
            g.time_since_fall == 0,
            match g.state {
                State::Falling(p) => p@ == Map::<(int, int), Color>::empty(),
                _ => false,
            },
    {
        let mut pieces: Vec<Board> = Vec::new();
        pieces.push(make_piece((0, 0), (0, 1), (1, 0), (1, 1), Color::Red));
        pieces.push(make_piece((0, 0), (1, 0), (1, 1), (2, 0), Color::Green));
        pieces.push(make_piece((0, 0), (1, 0), (2, 0), (3, 0), Color::Blue));
        pieces.push(make_piece((0, 0), (1, 0), (2, 0), (0, 1), Color::Orange));
        pieces.push(make_piece((0, 0), (1, 0), (2, 0), (2, 1), Color::Yellow));
        pieces.push(make_piece((0, 0), (1, 0), (1, 1), (2, 1), Color::Cyan));
        pieces.push(make_piece((1, 0), (2, 0), (0, 1), (1, 1), Color::Magenta));
        proof {
            assert forall|i: int| 0 <= i < 7 implies (#[trigger] pieces@[i]).wf() && pieces@[i]@.dom()
                == piece_points(i) && small_piece(pieces@[i]@) && (forall|q: (int, int)| #[trigger]
                pieces@[i]@.dom().contains(q) ==> pieces@[i]@[q] == piece_color(i)) by {
                assert(pieces@[i]@.dom() =~= piece_points(i)) by {
                    if i == 0 {
                        assert(pieces@[0]@.dom() =~= piece_points(0));
                    } else if i == 1 {
                        assert(pieces@[1]@.dom() =~= piece_points(1));
                    } else if i == 2 {
                        assert(pieces@[2]@.dom() =~= piece_points(2));
                    } else if i == 3 {
                        assert(pieces@[3]@.dom() =~= piece_points(3));
                    } else if i == 4 {
                        assert(pieces@[4]@.dom() =~= piece_points(4));
                    } else if i == 5 {
                        assert(pieces@[5]@.dom() =~= piece_points(5));
                    } else {
                        assert(pieces@[6]@.dom() =~= piece_points(6));
                    }
                }
                assert(small_piece(pieces@[i]@)) by {
                    assert(pieces@[i]@.dom().contains((1, 0)));
                }
            }
        }
        let g = Game {
            metrics,
            board: Board::default(),
            state: State::Falling(Board::default()),
            shift: (0, 0),
            possible_pieces: pieces,
            time_since_fall: 0,
        };
        g
    }

    /// The falling piece translated to its absolute position on the
    /// board. Meaningful only while a piece is falling.
    pub fn falling_shifted(&self) -> (r: Board)
        requires
            self.falling_wf(),
        ensures
            r.wf(),
            r@ == self.spec_shifted_falling(),
    {
        match &self.state {
            State::Falling(p) => p.shifted(self.shift),
            _ => vstd::pervasive::unreached(),
        }
    }

    /// The read-only snapshot a renderer consumes: while a piece falls,
    /// the board with the piece merged in, shown plain; during the flash,
    /// the bare board, highlighted over the pending rows on odd stages;
    /// after game over, the bare board, darkened.
    pub fn render_snapshot(&self) -> (r: (Board, DisplayMode))
        requires
            self.wf(),
        ensures
            r.0.wf(),
            match self.state {
                State::Falling(_) => r.0@ == self.board@.union_prefer_right(
                    self.spec_shifted_falling(),
                ) && (r.1 matches DisplayMode::Normal),
                State::Flashing(stage, _, lines) => r.0@ == self.board@ && (if stage % 2 == 0 {
                    r.1 matches DisplayMode::Normal
                } else {
                    r.1 matches DisplayMode::Flash(l) && l@ == lines@
                }),
                State::GameOver => r.0@ == self.board@ && (r.1 matches DisplayMode::Darkened),
            },
    {
        match &self.state {
            State::Falling(_) => {
                let fs = self.falling_shifted();
                let merged = match self.board.merged(&fs) {
                    Option::Some(b) => b,
                    Option::None => vstd::pervasive::unreached(),
                };
                (merged, DisplayMode::Normal)
            },
            State::Flashing(stage, _, lines) => {
                let mode = if *stage % 2 == 0 {
                    DisplayMode::Normal
                } else {
                    DisplayMode::Flash(copy_lines(lines))
                };
                (copy_board(&self.board), mode)
            },
            State::GameOver => (copy_board(&self.board), DisplayMode::Darkened),
        }
    }

    /// Places the template numbered `idx` as the new falling piece at
    /// the spawn offset; if it immediately collides with the board, the
    /// game is over instead, and the piece is never observable falling.
    pub fn spawn_indexed(&mut self, idx: usize)
        requires
            old(self).wf_base(),
            idx < old(self).possible_pieces@.len(),
        ensures
            final(self).wf(),
            final(self).board == old(self).board,
            final(self).metrics == old(self).metrics,
            final(self).possible_pieces == old(self).possible_pieces,
            final(self).time_since_fall == old(self).time_since_fall,
            final(self).shift == ((0i8, 0i8)),
            if old(self).board@.dom().disjoint(old(self).possible_pieces@[idx as int]@.dom()) {
                match final(self).state {
                    State::Falling(p) => p@ == old(self).possible_pieces@[idx as int]@,
                    _ => false,
                }
            } else {
                final(self).state matches State::GameOver
            },
    {
        let ghost cat = self.possible_pieces@[idx as int]@;
        let piece = copy_board(&self.possible_pieces[idx]);
        proof {
            assert(piece@ == cat);
            assert(piece.wf());
        }
        self.state = State::Falling(piece);
        self.shift = (0, 0);
        let fs = self.falling_shifted();
        proof {
            assert(fs@ =~= cat);
        }
        let coll = match self.board.merged(&fs) {
            Option::Some(_) => false,
            Option::None => true,
        };
        if coll {
            self.state = State::GameOver;
        }
    }

    /// Rotates the falling piece a quarter turn (clockwise when
    /// `counter` is set, counter-clockwise otherwise, as the keys are
    /// wired), renormalizes it against the origin, and commits it at the
    /// first offset among the current one and one cell to the left at
    /// which it fits; if neither fits, the command is a no-op.
    pub fn rotate(&mut self, counter: bool)
        requires
            old(self).wf(),
            old(self).state matches State::Falling(_),
        ensures
            final(self).wf(),
            rotate_outcome(*old(self), *final(self), counter),
    {
        let ghost pre = *self;
        let ghost p0map = self.falling_piece();
        let rotated_b: Board;
        match &self.state {
            State::Falling(p) => {
                proof {
                    assert forall|q: (int, int)| #[trigger] p@.dom().contains(q) implies -127 <= q.0
                        && -127 <= q.1 by {}
                }
                if counter {
                    rotated_b = p.rotated();
                } else {
                    rotated_b = p.rotated_counter();
                }
            }
            _ => {
                rotated_b = vstd::pervasive::unreached();
            },
        }
        proof {
            let rot = rotated_b@;
            let q0 = choose|q: (int, int)| p0map.dom().contains(q);
            if counter {
                assert forall|q: (int, int)| #[trigger] rot.dom().contains(q) implies -3 <= q.0 <= 0
                    && 0 <= q.1 <= 3 by {
                    lemma_rotated_at(p0map, q);
                }
                lemma_rotated_at(p0map, (-q0.1, q0.0));
                assert(rot.dom().contains((-q0.1, q0.0)));
            } else {
                let r1 = spec_rotated(p0map);
                let r2 = spec_rotated(r1);
                assert forall|q: (int, int)| #[trigger] rot.dom().contains(q) implies 0 <= q.0 <= 3
                    && -3 <= q.1 <= 0 by {
                    lemma_rotated_at(r2, q);
                    lemma_rotated_at(r1, (q.1, -q.0));
                    lemma_rotated_at(p0map, (-q.0, -q.1));
                }
                let t = ((q0.1, -q0.0));
                lemma_rotated_at(r2, t);
                lemma_rotated_at(r1, (-q0.0, -q0.1));
                lemma_rotated_at(p0map, (-q0.1, q0.0));
                assert(rot.dom().contains(t));
            }
        }
        let ns = rotated_b.negative_shift();
        proof {
            let rot = rotated_b@;
            assert(is_neg_shift(rot, ns.0 as int, ns.1 as int));
            lemma_norm_small(rot, ns.0 as int, ns.1 as int);
            assert(rotated_b@ == spec_rot_by(p0map, counter));
            assert(is_neg_shift(spec_rot_by(p0map, counter), ns.0 as int, ns.1 as int));
        }
        let falling = rotated_b.shifted((-ns.0, -ns.1));
        proof {
            assert(falling@ == spec_shifted(rotated_b@, -(ns.0 as int), -(ns.1 as int)));
            assert(small_piece(falling@));
            let qw = choose|q: (int, int)| #[trigger] p0map.dom().contains(q);
            assert(0 <= qw.0 + pre.shift.0 <= 122 && 0 <= qw.0 <= 3);
        }
        let bx = self.metrics.board_x as i8;
        let by = self.metrics.board_y as i8;
        let cand0 = falling.shifted(self.shift);
        let fit0 = match self.board.merged(&cand0) {
            Option::Some(m0) => m0.contained(bx, by),
            Option::None => false,
        };
        if fit0 {
            proof {
                assert forall|q: (int, int)| #[trigger] falling@.dom().contains(q) implies 0 <= q.0
                    + self.shift.0 <= 122 && 0 <= q.1 + self.shift.1 <= 122 by {
                    let sb = self.board@.union_prefer_right(cand0@);
                    assert(cand0@.dom().contains((q.0 + self.shift.0, q.1 + self.shift.1)));
                    assert(sb.dom().contains((q.0 + self.shift.0, q.1 + self.shift.1)));
                }
            }
            self.state = State::Falling(falling);
            proof {
                assert(rotation_fits(
                    pre.board@,
                    falling@,
                    pre.shift.0 as int,
                    pre.shift.1 as int,
                    pre.metrics.board_x as int,
                    pre.metrics.board_y as int,
                ));
                match pre.state {
                    State::Falling(p0) => {
                        assert(p0@ == p0map);
                        assert(is_neg_shift(spec_rot_by(p0@, counter), ns.0 as int, ns.1 as int));
                    },
                    _ => {},
                }
                assert(rotate_outcome(pre, *self, counter));
            }
            return ;
        }
        let shift1 = (self.shift.0 - 1, self.shift.1);
        let cand1 = falling.shifted(shift1);
        let fit1 = match self.board.merged(&cand1) {
            Option::Some(m1) => m1.contained(bx, by),
            Option::None => false,
        };
        if fit1 {
            proof {
                assert forall|q: (int, int)| #[trigger] falling@.dom().contains(q) implies 0 <= q.0
                    + shift1.0 <= 122 && 0 <= q.1 + shift1.1 <= 122 by {
                    let sb = self.board@.union_prefer_right(cand1@);
                    assert(cand1@.dom().contains((q.0 + shift1.0, q.1 + shift1.1)));
                    assert(sb.dom().contains((q.0 + shift1.0, q.1 + shift1.1)));
                }
            }
            self.state = State::Falling(falling);
            self.shift = shift1;
            proof {
                assert(!rotation_fits(
                    pre.board@,
                    falling@,
                    pre.shift.0 as int,
                    pre.shift.1 as int,
                    pre.metrics.board_x as int,
                    pre.metrics.board_y as int,
                ));
                assert(rotation_fits(
                    pre.board@,
                    falling@,
                    pre.shift.0 - 1,
                    pre.shift.1 as int,
                    pre.metrics.board_x as int,
                    pre.metrics.board_y as int,
                ));
                match pre.state {
                    State::Falling(p0) => {
                        assert(p0@ == p0map);
                        assert(is_neg_shift(spec_rot_by(p0@, counter), ns.0 as int, ns.1 as int));
                    },
                    _ => {},
                }
                assert(rotate_outcome(pre, *self, counter));
            }
            return ;
        }
        proof {
            assert(!rotation_fits(
                pre.board@,
                falling@,
                pre.shift.0 as int,
                pre.shift.1 as int,
                pre.metrics.board_x as int,
                pre.metrics.board_y as int,
            ));
            assert(!rotation_fits(
                pre.board@,
                falling@,
                pre.shift.0 - 1,
                pre.shift.1 as int,
                pre.metrics.board_x as int,
                pre.metrics.board_y as int,
            ));
            match pre.state {
                State::Falling(p0) => {
                    assert(p0@ == p0map);
                    assert(is_neg_shift(spec_rot_by(p0@, counter), ns.0 as int, ns.1 as int));
                },
                _ => {},
            }
            assert(rotate_outcome(pre, *self, counter));
        }
    }

    /// Attempts to move the falling piece by `(x, y)`. A fitting move is
    /// committed; a failed sideways move is ignored; a failed downward
    /// move locks the piece into the board and either starts the flash
    /// over the completed rows (timestamped `now`) or spawns a fresh
    /// piece.
    pub fn move_falling(&mut self, x: i8, y: i8, now: u64)
        requires
            old(self).wf(),
            old(self).state matches State::Falling(_),
            -1 <= x <= 1,
            0 <= y <= 1,
        ensures
            final(self).wf(),
            move_outcome(*old(self), *final(self), x as int, y as int, now),
            final(self).time_since_fall == old(self).time_since_fall,
    {
        let ghost pre = *self;
        proof {
            let qw = choose|q: (int, int)| #[trigger] pre.falling_piece().dom().contains(q);
            assert(0 <= qw.0 + pre.shift.0 <= 122 && 0 <= qw.0 <= 3);
            assert(0 <= qw.1 + pre.shift.1 <= 122 && 0 <= qw.1 <= 3);
        }
        let falling = self.falling_shifted();
        proof {
            assert forall|q: (int, int)| #[trigger] falling@.dom().contains(q) implies i8::MIN
                <= q.0 + x <= i8::MAX && i8::MIN <= q.1 + y <= i8::MAX by {
                assert(pre.falling_piece().dom().contains(
                    (q.0 - pre.shift.0, q.1 - pre.shift.1),
                ));
            }
        }
        let cand = falling.shifted((x, y));
        proof {
            lemma_shifted_compose(
                pre.falling_piece(),
                pre.shift.0 as int,
                pre.shift.1 as int,
                x as int,
                y as int,
            );
            assert(cand@ == spec_shifted(
                pre.falling_piece(),
                pre.shift.0 + x,
                pre.shift.1 + y,
            ));
        }
        let merged_ok = match self.board.merged(&cand) {
            Option::Some(_) => true,
            Option::None => false,
        };
        let cont = cand.contained(self.metrics.board_x as i8, self.metrics.board_y as i8);
        if merged_ok && cont {
            self.shift = (self.shift.0 + x, self.shift.1 + y);
            proof {
                match &self.state {
                    State::Falling(p) => {
                        assert forall|q: (int, int)| #[trigger] p@.dom().contains(q) implies 0
                            <= q.0 + self.shift.0 <= 122 && 0 <= q.1 + self.shift.1 <= 122 by {
                            assert(cand@.dom().contains((q.0 + self.shift.0, q.1 + self.shift.1)));
                        }
                    },
                    _ => {},
                }
            }
            return ;
        }
        if x == 0 && y == 1 {
            let fs = self.falling_shifted();
            let locked = match self.board.merged(&fs) {
                Option::Some(b) => b,
                Option::None => {
                    // A piece that cannot even occupy its current offset
                    // would end the game; the invariant keeps the falling
                    // piece collision-free, so this cannot be reached.
                    self.state = State::GameOver;
                    return ;
                },
            };
            self.board = locked;
            let bx = self.metrics.board_x as i8;
            let by = self.metrics.board_y as i8;
            let completed = self.board.whole_lines(bx, by);
            proof {
                lemma_whole_lines_char(self.board@, bx as int, by as int);
            }
            if completed.len() == 0 {
                proof {
                    assert(completed@.map_values(|v: i8| v as int).len() == 0);
                }
                self.new_falling();
            } else {
                self.state = State::Flashing(0, now, completed);
                proof {
                    let lseq = spec_whole_lines(
                        self.board@,
                        pre.metrics.board_x as int,
                        pre.metrics.board_y as int,
                    );
                    match &self.state {
                        State::Flashing(stage, t, ls) => {
                            assert(ls@.map_values(|v: i8| v as int) == lseq);
                            assert forall|i: int| 0 <= i < ls@.len() implies 0 <= #[trigger] ls@[i]
                                && (ls@[i] as int) < self.metrics.board_y as int by {
                                assert(lseq[i] == ls@[i] as int);
                                assert(0 <= lseq[i] < pre.metrics.board_y as int);
                            }
                            assert forall|i: int| 0 <= i < ls@.len() implies spec_row_full(
                                self.board@,
                                self.metrics.board_x as int,
                                #[trigger] ls@[i] as int,
                            ) by {
                                assert(lseq[i] == ls@[i] as int);
                                assert(spec_row_full(
                                    self.board@,
                                    pre.metrics.board_x as int,
                                    lseq[i],
                                ));
                            }
                            assert(sorted_strict(ls@.map_values(|v: i8| v as int)));
                        },
                        _ => {},
                    }
                }
            }
        }
    }

    /// One tick at time `now`: gravity for a falling piece once the fall
    /// interval has elapsed, stage advance or elimination for the flash
    /// once the stage interval has elapsed, and nothing otherwise.
    pub fn progress(&mut self, now: u64)
        requires
            old(self).wf(),
        ensures
            final(self).wf(),
            progress_outcome(*old(self), *final(self), now),
    {
        let ghost pre = *self;
        let branch: usize = match &self.state {
            State::Falling(_) => 0,
            State::Flashing(_, _, _) => 1,
            State::GameOver => 2,
        };
        if branch == 0 {
            if now <= self.time_since_fall {
                return ;
            }
            if now - self.time_since_fall <= FALL_INTERVAL_MS {
                return ;
            }
            self.move_falling(0, 1, now);
            self.time_since_fall = now;
        } else if branch == 1 {
            let (stage, t) = match &self.state {
                State::Flashing(s, tt, _) => (*s, *tt),
                _ => vstd::pervasive::unreached(),
            };
            if now <= t {
                return ;
            }
            if now - t <= FLASH_STAGE_INTERVAL_MS {
                return ;
            }
            if stage < FLASH_LAST_STAGE {
                let lines2 = match &self.state {
                    State::Flashing(_, _, l) => copy_lines(l),
                    _ => vstd::pervasive::unreached(),
                };
                self.state = State::Flashing(stage + 1, now, lines2);
            } else {
                let lines2 = match &self.state {
                    State::Flashing(_, _, l) => copy_lines(l),
                    _ => vstd::pervasive::unreached(),
                };
                let ghost lseq = lines2@.map_values(|v: i8| v as int);
                proof {
                    assert(lseq.skip(0) =~= lseq);
                }
                let mut i: usize = 0;
                while i < lines2.len()
                    invariant
                        i <= lines2@.len(),
                        self.board.wf(),
                        self.metrics == pre.metrics,
                        self.possible_pieces == pre.possible_pieces,
                        self.shift == pre.shift,
                        self.time_since_fall == pre.time_since_fall,
                        pre.wf_base(),
                        lseq == lines2@.map_values(|v: i8| v as int),
                        spec_killed_all(self.board@, lseq.skip(i as int)) == spec_killed_all(
                            pre.board@,
                            lseq,
                        ),
                    decreases lines2@.len() - i,
                {
                    let ghost cur = self.board@;
                    self.board = self.board.kill_line(lines2[i]);
                    proof {
                        assert(lseq.skip(i as int).drop_first() =~= lseq.skip(i as int + 1));
                        assert(lseq.skip(i as int)[0] == lines2@[i as int] as int);
                        assert(spec_killed_all(cur, lseq.skip(i as int)) == spec_killed_all(
                            spec_killed(cur, lseq.skip(i as int)[0]),
                            lseq.skip(i as int).drop_first(),
                        ));
                        assert(self.board@ == spec_killed(cur, lines2@[i as int] as int));
                    }
                    i += 1;
                }
                proof {
                    assert(lseq.skip(lines2@.len() as int) =~= Seq::<int>::empty());
                    assert(self.board@ == spec_killed_all(pre.board@, lseq));
                }
                self.new_falling();
            }
        }
    }

    /// Handles one decoded input command at time `now`, as
    /// `command_outcome` describes.
    pub fn on_command(&mut self, cmd: Command, now: u64)
        requires
            old(self).wf(),
        ensures
            final(self).wf(),
            command_outcome(*old(self), *final(self), cmd, now),
    {
        let branch: usize = match &self.state {
            State::Flashing(_, _, _) => 0,
            State::Falling(_) => 1,
            State::GameOver => 2,
        };
        if branch == 1 {
            match cmd {
                Command::MoveLeft => {
                    self.move_falling(-1, 0, now);
                },
                Command::MoveRight => {
                    self.move_falling(1, 0, now);
                },
                Command::SoftDrop => {
                    self.move_falling(0, 1, now);
                    self.time_since_fall = now;
                },
                Command::RotateCW => {
                    self.rotate(true);
                },
                Command::RotateCCW => {
                    self.rotate(false);
                },
                Command::Restart => {},
            }
        } else if branch == 2 {
            match cmd {
                Command::Restart => {
                    self.board = Board::default();
                    self.new_falling();
                },
                _ => {},
            }
        }
    }

    /// Spawns a randomly drawn template as the new falling piece, with a
    /// random number of initial rotations; if the fresh piece collides
    /// with the board at its spawn offset, the game is over at once.
    pub fn new_falling(&mut self)
        requires
            old(self).wf_base(),
        ensures
            final(self).wf(),
            spawn_outcome(old(self).board@, *old(self), *final(self)),
            final(self).time_since_fall == old(self).time_since_fall,
    {
        let n = self.possible_pieces.len();
        let idx = random_below(n);
        self.spawn_indexed(idx);
        let is_falling = match &self.state {
            State::Falling(_) => true,
            _ => false,
        };
        if is_falling {
            let r = random_below(4);
            let mut t: usize = 0;
            while t < r
                invariant
                    t <= r,
                    r < 4,
                    self.wf(),
                    self.state matches State::Falling(_),
                    self.board == old(self).board,
                    self.metrics == old(self).metrics,
                    self.possible_pieces == old(self).possible_pieces,
                    self.time_since_fall == old(self).time_since_fall,
                    -(t as int) <= self.shift.0 <= 0,
                    self.shift.1 == 0,
                decreases r - t,
            {
                self.rotate(false);
                t += 1;
            }
        }
    }
}

/// An owned copy of a row list, entry for entry.
fn copy_lines(v: &Vec<i8>) -> (r: Vec<i8>)
    ensures
        r@ == v@,
{
    let mut out: Vec<i8> = Vec::new();
    let mut k: usize = 0;
    while k < v.len()
        invariant
            k <= v@.len(),
            out@ == v@.subrange(0, k as int),
        decreases v@.len() - k,
    {
        out.push(v[k]);
        proof {
            assert(out@ =~= v@.subrange(0, k + 1));
        }
        k += 1;
    }
    proof {
        assert(out@ =~= v@);
    }
    out
}

/// The candidate test the engine applies to a move: the piece at the
/// offset merges into the board without collision, and itself lies
/// inside the board's box.
pub open spec fn move_fits(
    board: Map<(int, int), Color>,
    piece: Map<(int, int), Color>,
    sx: int,
    sy: int,
    w: int,
    h: int,
) -> bool {
    board.dom().disjoint(spec_shifted(piece, sx, sy).dom()) && spec_contained(
        spec_shifted(piece, sx, sy),
        w,
        h,
    )
}

/// How one move attempt by `(x, y)` transforms the game. A fitting
/// candidate is committed. A failed sideways move is ignored. A failed
/// downward move locks the piece into the board; then either rows are
/// complete and the flash starts over them at stage zero, or a fresh
/// piece is spawned.
pub open spec fn move_outcome(pre: Game, post: Game, x: int, y: int, now: u64) -> bool {
    post.metrics == pre.metrics && post.possible_pieces == pre.possible_pieces && match pre.state {
        State::Falling(p0) => {
            let w = pre.metrics.board_x as int;
            let h = pre.metrics.board_y as int;
            let sx = pre.shift.0 + x;
            let sy = pre.shift.1 + y;
            if move_fits(pre.board@, p0@, sx, sy, w, h) {
                post.board == pre.board && post.shift.0 == sx && post.shift.1 == sy && match post.state {
                    State::Falling(p1) => p1@ == p0@,
                    _ => false,
                }
            } else if !(x == 0 && y == 1) {
                post == pre
            } else {
                let locked = pre.board@.union_prefer_right(pre.spec_shifted_falling());
                let lines = spec_whole_lines(locked, w, h);
                post.board@ == locked && if lines.len() == 0 {
                    spawn_outcome(locked, pre, post)
                } else {
                    post.shift == pre.shift && match post.state {
                        State::Flashing(stage, t, ls) => stage == 0 && t == now
                            && ls@.map_values(|v: i8| v as int) == lines,
                        _ => false,
                    }
                }
            }
        },
        _ => false,
    }
}

/// How one tick at time `now` transforms the game. A falling piece
/// whose fall interval has elapsed takes one downward step (with the
/// fall timer rebased); a flash whose stage interval has elapsed either
/// advances a stage or, from the last stage, eliminates its rows and
/// spawns; game over ignores ticks, as does anything whose interval has
/// not elapsed.
pub open spec fn progress_outcome(pre: Game, post: Game, now: u64) -> bool {
    match pre.state {
        State::GameOver => post == pre,
        State::Falling(_) => {
            if now > pre.time_since_fall && now - pre.time_since_fall > FALL_INTERVAL_MS {
                move_outcome(pre, post, 0, 1, now) && post.time_since_fall == now
            } else {
                post == pre
            }
        },
        State::Flashing(stage, t, lines) => {
            if !(now > t && now - t > FLASH_STAGE_INTERVAL_MS) {
                post == pre
            } else if stage < FLASH_LAST_STAGE {
                post.board == pre.board && post.metrics == pre.metrics && post.possible_pieces
                    == pre.possible_pieces && post.shift == pre.shift && post.time_since_fall
                    == pre.time_since_fall && match post.state {
                    State::Flashing(s2, t2, l2) => s2 == stage + 1 && t2 == now && l2@ == lines@,
                    _ => false,
                }
            } else {
                let killed = spec_killed_all(pre.board@, lines@.map_values(|v: i8| v as int));
                post.board@ == killed && spawn_outcome(killed, pre, post) && post.time_since_fall
                    == pre.time_since_fall
            }
        },
    }
}

/// How one command at time `now` transforms the game: the flash ignores
/// all input; a falling piece answers the movement and rotation
/// commands, a soft drop also rebasing the fall timer; game over answers
/// only a restart, which clears the board and spawns afresh.
pub open spec fn command_outcome(pre: Game, post: Game, cmd: Command, now: u64) -> bool {
    match pre.state {
        State::Flashing(_, _, _) => post == pre,
        State::Falling(_) => match cmd {
            Command::MoveLeft => move_outcome(pre, post, -1, 0, now) && post.time_since_fall
                == pre.time_since_fall,
            Command::MoveRight => move_outcome(pre, post, 1, 0, now) && post.time_since_fall
                == pre.time_since_fall,
            Command::SoftDrop => move_outcome(pre, post, 0, 1, now) && post.time_since_fall == now,
            Command::RotateCW => rotate_outcome(pre, post, true),
            Command::RotateCCW => rotate_outcome(pre, post, false),
            Command::Restart => post == pre,
        },
        State::GameOver => match cmd {
            Command::Restart => spawn_outcome(Map::empty(), pre, post) && post.time_since_fall
                == pre.time_since_fall,
            _ => post == pre,
        },
    }
}

/// What a spawn attempt onto the board `board` leaves behind, whatever
/// the random draws were: the bookkeeping is untouched, the state is
/// either a falling piece or game over, game over arises only when some
/// template collides with the board at the spawn offset, and when every
/// template fits the piece is observable falling.
pub open spec fn spawn_outcome(board: Map<(int, int), Color>, pre: Game, post: Game) -> bool {
    post.board@ == board && post.metrics == pre.metrics && post.possible_pieces
        == pre.possible_pieces && ((post.state matches State::Falling(_)) || (
    post.state matches State::GameOver)) && ((forall|i: int|
        0 <= i < 7 ==> board.dom().disjoint(
            (#[trigger] pre.possible_pieces@[i])@.dom(),
        )) ==> (post.state matches State::Falling(_))) && ((
    post.state matches State::GameOver) ==> (exists|i: int|
        0 <= i < 7 && !board.dom().disjoint((#[trigger] pre.possible_pieces@[i])@.dom()))
        && post.shift == ((0i8, 0i8))) && ((post.state matches State::Falling(_)) ==> -3
        <= post.shift.0 <= 0 && post.shift.1 == 0)
}

} // verus!
