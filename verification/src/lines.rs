//! The line engine: detection of fully-occupied rows and their
//! elimination. Removing a row drops its cells, moves every row above it
//! down by one, and so leaves a fresh empty row at the top.

use vstd::prelude::*;

use crate::board::Board;
use crate::board::Color;
use crate::board::key_at;
use crate::board::lemma_cell_view;
use crate::board::pts_contains;
use crate::board::sourced;
use crate::board::filter_outcome;
use crate::board::spec_contained;

verus! {

/// Whether every column of `row` is occupied in a grid `w` columns wide.
pub open spec fn spec_row_full(m: Map<(int, int), Color>, w: int, row: int) -> bool {
    forall|c: int| 0 <= c < w ==> m.dom().contains((c, row))
}

/// The full rows of the grid among rows `0 .. h`, in ascending order.
pub open spec fn spec_whole_lines(m: Map<(int, int), Color>, w: int, h: int) -> Seq<int>
    decreases h,
{
    if h <= 0 {
        Seq::empty()
    } else {
        spec_whole_lines(m, w, h - 1) + if spec_row_full(m, w, h - 1) {
            seq![h - 1]
        } else {
            Seq::empty()
        }
    }
}

/// The grid after removing row `y`: rows below stay, rows above move down
/// one, so the cell now at `(x, r)` with `r <= y` is the old `(x, r - 1)`.
pub open spec fn spec_killed(m: Map<(int, int), Color>, y: int) -> Map<(int, int), Color> {
    Map::new(
        |q: (int, int)|
            if q.1 > y {
                m.dom().contains(q)
            } else {
                m.dom().contains((q.0, q.1 - 1))
            },
        |q: (int, int)|
            if q.1 > y {
                m[q]
            } else {
                m[(q.0, q.1 - 1)]
            },
    )
}

/// The grid after removing the listed rows in order, each index taken in
/// the grid's indexing at the time of its own removal; for an ascending
/// list of original indices the two notions coincide.
pub open spec fn spec_killed_all(m: Map<(int, int), Color>, lines: Seq<int>) -> Map<
    (int, int),
    Color,
>
    decreases lines.len(),
{
    if lines.len() == 0 {
        m
    } else {
        spec_killed_all(spec_killed(m, lines[0]), lines.drop_first())
    }
}

/// Strictly ascending sequence of integers.
pub open spec fn sorted_strict(s: Seq<int>) -> bool {
    forall|i: int, j: int| 0 <= i < j < s.len() ==> s[i] < s[j]
}

/// How many of the listed rows lie strictly below `row` (larger index):
/// the distance a surviving cell of `row` moves down during elimination.
pub open spec fn count_gt(lines: Seq<int>, row: int) -> int
    decreases lines.len(),
{
    if lines.len() == 0 {
        0
    } else {
        (if lines[0] > row {
            1int
        } else {
            0int
        }) + count_gt(lines.drop_first(), row)
    }
}

impl Board {
    /// The indices of the rows of `[0, y)` whose every column of `[0, x)`
    /// is occupied, in ascending order.
    pub fn whole_lines(&self, x: i8, y: i8) -> (r: Vec<i8>)
        requires
            0 <= x,
        ensures
            r@.map_values(|v: i8| v as int) == spec_whole_lines(self@, x as int, y as int),
    {
        let mut idxs: Vec<i8> = Vec::new();
        let mut oy: i8 = 0;
        if y <= 0 {
            return idxs;
        }
        while oy < y
            invariant
                0 <= x,
                0 <= oy <= y,
                idxs@.map_values(|v: i8| v as int) == spec_whole_lines(self@, x as int, oy as int),
            decreases y - oy,
        {
            let mut rowfull = true;
            let mut ox: i8 = 0;
            while ox < x
                invariant
                    0 <= ox <= x,
                    rowfull == forall|c: int|
                        0 <= c < ox as int ==> self@.dom().contains((c, oy as int)),
                decreases x - ox,
            {
                let occ = self.contains_pt((ox, oy));
                proof {
                    if rowfull && occ {
                        assert forall|c: int| 0 <= c < ox as int + 1 implies self@.dom().contains(
                            (c, oy as int),
                        ) by {}
                    }
                }
                rowfull = rowfull && occ;
                ox += 1;
            }
            let ghost pre = idxs@;
            if rowfull {
                idxs.push(oy);
            }
            proof {
                assert(rowfull == spec_row_full(self@, x as int, oy as int));
                if rowfull {
                    assert(idxs@.map_values(|v: i8| v as int) =~= pre.map_values(|v: i8| v as int)
                        + seq![oy as int]);
                } else {
                    assert(spec_whole_lines(self@, x as int, oy as int + 1)
                        =~= spec_whole_lines(self@, x as int, oy as int));
                }
            }
            oy += 1;
        }
        idxs
    }

    /// Removes row `y`: its cells disappear, every row above moves down
    /// one, and the top row is left empty.
    pub fn kill_line(&self, y: i8) -> (r: Self)
        requires
            self.wf(),
        ensures
            r.wf(),
            r@ == spec_killed(self@, y as int),
    {
        let f = |p: (i8, i8)| -> (ret: Option<(i8, i8)>)
            ensures
                ret == (if p.1 > y {
                    Option::Some(p)
                } else if p.1 == y {
                    Option::<(i8, i8)>::None
                } else {
                    Option::Some((p.0, (p.1 + 1) as i8))
                }),
            {
                if p.1 > y {
                    Option::Some(p)
                } else if p.1 == y {
                    Option::None
                } else {
                    Option::Some((p.0, p.1 + 1))
                }
            };
        proof {
            assert forall|p1: (i8, i8), p2: (i8, i8), q: (i8, i8)|
                call_ensures(f, (p1,), Some(q)) && call_ensures(f, (p2,), Some(q)) implies p1
                == p2 by {}
        }
        let r = self.modified_filter(f);
        proof {
            let m = self@;
            let yy = y as int;
            let killed = spec_killed(m, yy);
            assert forall|q: (int, int)| #[trigger] r@.dom().contains(q) implies killed.dom().contains(q)
                && r@[q] == killed[q] by {
                let j = choose|j: int| 0 <= j < r.0@.len() && key_at(r.0@, j) == q;
                lemma_cell_view(r.0@, j);
                assert(sourced(f, self.0@, r.0@[j]));
                let i = choose|i: int|
                    0 <= i < self.0@.len() && call_ensures(
                        f,
                        ((#[trigger] self.0@[i]).0,),
                        Some(r.0@[j].0),
                    ) && self.0@[i].1 == r.0@[j].1;
                lemma_cell_view(self.0@, i);
                let p = self.0@[i].0;
                if p.1 > y {
                    assert(r.0@[j].0 == p);
                    assert(q == key_at(self.0@, i));
                    assert(m.dom().contains(q));
                    assert(q.1 > yy);
                } else {
                    assert(p.1 < y);
                    assert(r.0@[j].0 == ((p.0, (p.1 + 1) as i8)));
                    assert(q == ((p.0 as int, p.1 + 1)));
                    assert(q.1 <= yy);
                    assert((q.0, q.1 - 1) == key_at(self.0@, i));
                    assert(m.dom().contains((q.0, q.1 - 1)));
                }
            }
            assert forall|q: (int, int)| #[trigger] killed.dom().contains(q) implies r@.dom().contains(
                q,
            ) by {
                if q.1 > yy {
                    let i = choose|i: int| 0 <= i < self.0@.len() && key_at(self.0@, i) == q;
                    assert(filter_outcome(f, self.0@[i], r.0@));
                    let o = choose|o: Option<(i8, i8)>|
                        #[trigger] call_ensures(f, ((self.0@[i]).0,), o) && match o {
                            Option::Some(qq) => exists|j: int|
                                0 <= j < r.0@.len() && #[trigger] r.0@[j] == ((qq, self.0@[i].1)),
                            Option::None => true,
                        };
                    let p = self.0@[i].0;
                    assert(p.1 > y);
                    assert(o == Some(p));
                    let j = choose|j: int|
                        0 <= j < r.0@.len() && #[trigger] r.0@[j] == ((p, self.0@[i].1));
                    assert(key_at(r.0@, j) == q);
                    assert(pts_contains(r.0@, q));
                } else {
                    let i = choose|i: int|
                        0 <= i < self.0@.len() && key_at(self.0@, i) == ((q.0, q.1 - 1));
                    assert(filter_outcome(f, self.0@[i], r.0@));
                    let o = choose|o: Option<(i8, i8)>|
                        #[trigger] call_ensures(f, ((self.0@[i]).0,), o) && match o {
                            Option::Some(qq) => exists|j: int|
                                0 <= j < r.0@.len() && #[trigger] r.0@[j] == ((qq, self.0@[i].1)),
                            Option::None => true,
                        };
                    let p = self.0@[i].0;
                    assert(p.1 < y);
                    assert(o == Some((p.0, (p.1 + 1) as i8)));
                    let pq = ((p.0, (p.1 + 1) as i8));
                    let j = choose|j: int|
                        0 <= j < r.0@.len() && #[trigger] r.0@[j] == ((pq, self.0@[i].1));
                    assert(key_at(r.0@, j) == q);
                    assert(pts_contains(r.0@, q));
                }
            }
            assert(r@.dom() =~= killed.dom());
            assert(r@ =~= killed);
        }
        r
    }
}

/// Rows listed by the line scan are exactly the full rows below `h`, in
/// strictly ascending order.
pub proof fn lemma_whole_lines_char(m: Map<(int, int), Color>, w: int, h: int)
    ensures
        forall|i: int|
            0 <= i < spec_whole_lines(m, w, h).len() ==> 0 <= #[trigger] spec_whole_lines(m, w, h)[i]
                < h && spec_row_full(m, w, spec_whole_lines(m, w, h)[i]),
        forall|row: int|
            0 <= row < h && spec_row_full(m, w, row) ==> spec_whole_lines(m, w, h).contains(row),
        sorted_strict(spec_whole_lines(m, w, h)),
    decreases h,
{
    if h <= 0 {
    } else {
        lemma_whole_lines_char(m, w, h - 1);
        let s0 = spec_whole_lines(m, w, h - 1);
        let s = spec_whole_lines(m, w, h);
        assert forall|row: int|
            0 <= row < h && spec_row_full(m, w, row) implies s.contains(row) by {
            if row < h - 1 {
                let i = choose|i: int| 0 <= i < s0.len() && s0[i] == row;
                assert(s[i] == row);
            } else {
                assert(s[s.len() - 1] == row);
            }
        }
    }
}

/// No false line detection: a row with at least one empty cell within the
/// grid's width is not full, and the line scan never reports it.
pub proof fn lemma_no_false_line(m: Map<(int, int), Color>, w: int, h: int, row: int, c: int)
    requires
        0 <= c < w,
        !m.dom().contains((c, row)),
    ensures
        !spec_row_full(m, w, row),
        !spec_whole_lines(m, w, h).contains(row),
{
    lemma_whole_lines_char(m, w, h);
    if spec_whole_lines(m, w, h).contains(row) {
        let i = choose|i: int|
            0 <= i < spec_whole_lines(m, w, h).len() && spec_whole_lines(m, w, h)[i] == row;
        assert(spec_row_full(m, w, row));
    }
}

/// `count_gt` is the whole length when every listed row is below `t`.
proof fn lemma_count_gt_all(s: Seq<int>, t: int)
    requires
        forall|i: int| 0 <= i < s.len() ==> s[i] > t,
    ensures
        count_gt(s, t) == s.len(),
    decreases s.len(),
{
    if s.len() == 0 {
    } else {
        assert forall|i: int| 0 <= i < s.drop_first().len() implies s.drop_first()[i] > t by {
            assert(s.drop_first()[i] == s[i + 1]);
        }
        lemma_count_gt_all(s.drop_first(), t);
    }
}

/// Eliminating rows only pushes cells downward: every cell of the result
/// sits at or below row `j + k` when every cell of the input sat at or
/// below row `j` and the `k` rows removed all lie at index `j` or beyond.
pub proof fn lemma_killed_all_top(m: Map<(int, int), Color>, lines: Seq<int>, j: int)
    requires
        sorted_strict(lines),
        forall|i: int| 0 <= i < lines.len() ==> #[trigger] lines[i] >= j,
        forall|q: (int, int)| #[trigger] m.dom().contains(q) ==> q.1 >= j,
    ensures
        forall|q: (int, int)| #[trigger]
            spec_killed_all(m, lines).dom().contains(q) ==> q.1 >= j + lines.len(),
    decreases lines.len(),
{
    if lines.len() == 0 {
        assert forall|q: (int, int)| #[trigger] spec_killed_all(m, lines).dom().contains(q) implies q.1
            >= j + lines.len() by {
            assert(m.dom().contains(q));
        }
    } else {
        let l0 = lines[0];
        let m1 = spec_killed(m, l0);
        assert forall|q: (int, int)| #[trigger] m1.dom().contains(q) implies q.1 >= j + 1 by {
            if q.1 > l0 {
            } else {
                assert(m.dom().contains((q.0, q.1 - 1)));
            }
        }
        assert forall|i: int| 0 <= i < lines.drop_first().len() implies #[trigger] lines.drop_first()[i]
            >= j + 1 by {
            assert(lines.drop_first()[i] == lines[i + 1]);
            assert(lines[0] < lines[i + 1]);
        }
        lemma_killed_all_top(m1, lines.drop_first(), j + 1);
        assert forall|q: (int, int)| #[trigger] spec_killed_all(m, lines).dom().contains(q) implies q.1
            >= j + lines.len() by {
            assert(spec_killed_all(m, lines) == spec_killed_all(m1, lines.drop_first()));
            assert(spec_killed_all(m1, lines.drop_first()).dom().contains(q));
        }
    }
}

/// Elimination preserves the grid's bounding box: cells stay inside
/// `[0, w) x [0, h)` when the removed rows lie inside the height.
pub proof fn lemma_killed_all_contained(m: Map<(int, int), Color>, lines: Seq<int>, w: int, h: int)
    requires
        spec_contained(m, w, h),
        forall|i: int| 0 <= i < lines.len() ==> 0 <= #[trigger] lines[i] < h,
    ensures
        spec_contained(spec_killed_all(m, lines), w, h),
    decreases lines.len(),
{
    if lines.len() == 0 {
    } else {
        let l0 = lines[0];
        let m1 = spec_killed(m, l0);
        assert forall|q: (int, int)| #[trigger] m1.dom().contains(q) implies 0 <= q.0 < w && 0 <= q.1
            < h by {
            if q.1 > l0 {
                assert(m.dom().contains(q));
            } else {
                assert(m.dom().contains((q.0, q.1 - 1)));
            }
        }
        assert forall|i: int| 0 <= i < lines.drop_first().len() implies 0 <= #[trigger] lines.drop_first()[i]
            < h by {
            assert(lines.drop_first()[i] == lines[i + 1]);
        }
        lemma_killed_all_contained(m1, lines.drop_first(), w, h);
    }
}

/// Where each surviving cell lands: a cell in a row not listed for
/// elimination moves down by the number of eliminated rows below it, and
/// keeps its color; and every cell of the result arises this way, so the
/// eliminated rows' contents are gone.
pub proof fn lemma_killed_all_cells(m: Map<(int, int), Color>, lines: Seq<int>)
    requires
        sorted_strict(lines),
        forall|i: int| 0 <= i < lines.len() ==> #[trigger] lines[i] >= 0,
    ensures
        forall|q: (int, int)| #[trigger]
            m.dom().contains(q) && !lines.contains(q.1) ==> spec_killed_all(m, lines).dom().contains(
                (q.0, q.1 + count_gt(lines, q.1)),
            ) && spec_killed_all(m, lines)[(q.0, q.1 + count_gt(lines, q.1))] == m[q],
        forall|q: (int, int)| #[trigger]
            spec_killed_all(m, lines).dom().contains(q) ==> exists|p: (int, int)|
                #[trigger] m.dom().contains(p) && !lines.contains(p.1) && q == ((
                    p.0,
                    p.1 + count_gt(lines, p.1),
                )) && spec_killed_all(m, lines)[q] == m[p],
    decreases lines.len(),
{
    if lines.len() == 0 {
        assert forall|q: (int, int)| #[trigger]
            spec_killed_all(m, lines).dom().contains(q) implies exists|p: (int, int)|
            #[trigger] m.dom().contains(p) && !lines.contains(p.1) && q == ((
                p.0,
                p.1 + count_gt(lines, p.1),
            )) && spec_killed_all(m, lines)[q] == m[p] by {
            assert(m.dom().contains(q) && !lines.contains(q.1) && q == ((
                q.0,
                q.1 + count_gt(lines, q.1),
            )) && spec_killed_all(m, lines)[q] == m[q]);
        }
    } else {
        let l0 = lines[0];
        let rest = lines.drop_first();
        let m1 = spec_killed(m, l0);
        assert forall|i: int| 0 <= i < rest.len() implies #[trigger] rest[i] >= 0 && rest[i]
            > l0 by {
            assert(rest[i] == lines[i + 1]);
            assert(lines[0] < lines[i + 1]);
        }
        lemma_killed_all_cells(m1, rest);
        assert forall|q: (int, int)| #[trigger]
            m.dom().contains(q) && !lines.contains(q.1) implies spec_killed_all(
            m,
            lines,
        ).dom().contains((q.0, q.1 + count_gt(lines, q.1))) && spec_killed_all(m, lines)[(
            q.0,
            q.1 + count_gt(lines, q.1),
        )] == m[q] by {
            assert(q.1 != l0) by {
                assert(lines[0] == l0);
            }
            if q.1 > l0 {
                assert(m1.dom().contains(q) && m1[q] == m[q]);
                assert(!rest.contains(q.1)) by {
                    if rest.contains(q.1) {
                        let i = choose|i: int| 0 <= i < rest.len() && rest[i] == q.1;
                        assert(lines[i + 1] == q.1);
                    }
                }
                assert(count_gt(lines, q.1) == count_gt(rest, q.1));
            } else {
                let q1 = ((q.0, q.1 + 1));
                assert(m1.dom().contains(q1) && m1[q1] == m[q]);
                assert(!rest.contains(q1.1)) by {
                    if rest.contains(q1.1) {
                        let i = choose|i: int| 0 <= i < rest.len() && rest[i] == q1.1;
                        assert(rest[i] > l0);
                    }
                }
                assert(count_gt(rest, q.1) == rest.len()) by {
                    assert forall|i: int| 0 <= i < rest.len() implies rest[i] > q.1 by {}
                    lemma_count_gt_all(rest, q.1);
                }
                assert(count_gt(rest, q1.1) == rest.len()) by {
                    assert forall|i: int| 0 <= i < rest.len() implies rest[i] > q1.1 by {}
                    lemma_count_gt_all(rest, q1.1);
                }
                assert(count_gt(lines, q.1) == 1 + count_gt(rest, q.1));
                assert(q1.1 + count_gt(rest, q1.1) == q.1 + count_gt(lines, q.1));
            }
        }
        assert forall|q: (int, int)| #[trigger]
            spec_killed_all(m, lines).dom().contains(q) implies exists|p: (int, int)|
            #[trigger] m.dom().contains(p) && !lines.contains(p.1) && q == ((
                p.0,
                p.1 + count_gt(lines, p.1),
            )) && spec_killed_all(m, lines)[q] == m[p] by {
            let p1 = choose|p1: (int, int)|
                #[trigger] m1.dom().contains(p1) && !rest.contains(p1.1) && q == ((
                    p1.0,
                    p1.1 + count_gt(rest, p1.1),
                )) && spec_killed_all(m1, rest)[q] == m1[p1];
            if p1.1 > l0 {
                assert(m.dom().contains(p1) && m1[p1] == m[p1]);
                assert(!lines.contains(p1.1)) by {
                    if lines.contains(p1.1) {
                        let i = choose|i: int| 0 <= i < lines.len() && lines[i] == p1.1;
                        if i > 0 {
                            assert(rest[i - 1] == p1.1);
                        }
                    }
                }
                assert(count_gt(lines, p1.1) == count_gt(rest, p1.1));
                assert(m.dom().contains(p1) && !lines.contains(p1.1) && q == ((
                    p1.0,
                    p1.1 + count_gt(lines, p1.1),
                )) && spec_killed_all(m, lines)[q] == m[p1]);
            } else {
                let p = ((p1.0, p1.1 - 1));
                assert(m.dom().contains(p) && m1[p1] == m[p]);
                assert(p.1 < l0);
                assert(!lines.contains(p.1)) by {
                    if lines.contains(p.1) {
                        let i = choose|i: int| 0 <= i < lines.len() && lines[i] == p.1;
                        if i > 0 {
                            assert(lines[0] < lines[i]);
                        }
                    }
                }
                assert(count_gt(rest, p1.1) == rest.len()) by {
                    assert forall|i: int| 0 <= i < rest.len() implies rest[i] > p1.1 by {}
                    lemma_count_gt_all(rest, p1.1);
                }
                assert(count_gt(rest, p.1) == rest.len()) by {
                    assert forall|i: int| 0 <= i < rest.len() implies rest[i] > p.1 by {}
                    lemma_count_gt_all(rest, p.1);
                }
                assert(count_gt(lines, p.1) == 1 + count_gt(rest, p.1));
                assert(q == ((p.0, p.1 + count_gt(lines, p.1))));
                assert(m.dom().contains(p) && !lines.contains(p.1) && q == ((
                    p.0,
                    p.1 + count_gt(lines, p.1),
                )) && spec_killed_all(m, lines)[q] == m[p]);
            }
        }
    }
}

/// Line elimination, whole: removing `k` full rows from a grid contained
/// in `[0, w) x [0, h)` leaves a grid of the same bounding box whose top
/// `k` rows are empty; each surviving cell moves down by the number of
/// removed rows below it, keeping its color, and nothing else remains.
pub proof fn lemma_line_elimination(m: Map<(int, int), Color>, lines: Seq<int>, w: int, h: int)
    requires
        spec_contained(m, w, h),
        sorted_strict(lines),
        forall|i: int| 0 <= i < lines.len() ==> 0 <= #[trigger] lines[i] < h,
    ensures
        spec_contained(spec_killed_all(m, lines), w, h),
        forall|q: (int, int)| #[trigger]
            spec_killed_all(m, lines).dom().contains(q) ==> q.1 >= lines.len(),
        forall|q: (int, int)| #[trigger]
            m.dom().contains(q) && !lines.contains(q.1) ==> spec_killed_all(m, lines).dom().contains(
                (q.0, q.1 + count_gt(lines, q.1)),
            ) && spec_killed_all(m, lines)[(q.0, q.1 + count_gt(lines, q.1))] == m[q],
        forall|q: (int, int)| #[trigger]
            spec_killed_all(m, lines).dom().contains(q) ==> exists|p: (int, int)|
                #[trigger] m.dom().contains(p) && !lines.contains(p.1) && q == ((
                    p.0,
                    p.1 + count_gt(lines, p.1),
                )) && spec_killed_all(m, lines)[q] == m[p],
{
    lemma_killed_all_contained(m, lines, w, h);
    lemma_killed_all_top(m, lines, 0);
    lemma_killed_all_cells(m, lines);
}

} // verus!
