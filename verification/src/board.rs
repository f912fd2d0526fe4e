//! The sparse board of colored cells: a set of integer coordinates, each
//! holding one color. The same type describes both the locked playing field
//! and a piece (a small pattern of cells), as the two share one vocabulary.

use vstd::prelude::*;

verus! {

/// The finite palette a cell can hold.
#[derive(Copy, Clone, PartialEq, Eq, Structural, Debug)]
pub enum Color {
    Red,
    Green,
    Blue,
    Magenta,
    Cyan,
    Yellow,
    Orange,
}

/// A sparse arrangement of colored cells, keyed by `(x, y)` coordinates
/// (`x` grows rightward, `y` grows downward). Well-formed values hold each
/// coordinate at most once; the mathematical view is a map from integer
/// points to colors.
pub struct Board(pub Vec<((i8, i8), Color)>);

/// The integer point of the cell at index `i`.
pub open spec fn key_at(s: Seq<((i8, i8), Color)>, i: int) -> (int, int) {
    (s[i].0.0 as int, s[i].0.1 as int)
}

/// Whether some cell of `s` sits at point `q`.
pub open spec fn pts_contains(s: Seq<((i8, i8), Color)>, q: (int, int)) -> bool {
    exists|i: int| 0 <= i < s.len() && key_at(s, i) == q
}

/// An index of a cell of `s` at point `q` (meaningful when one exists).
pub open spec fn idx_of(s: Seq<((i8, i8), Color)>, q: (int, int)) -> int {
    choose|i: int| 0 <= i < s.len() && key_at(s, i) == q
}

/// The color stored at point `q` (meaningful when a cell is there).
pub open spec fn color_at(s: Seq<((i8, i8), Color)>, q: (int, int)) -> Color {
    s[idx_of(s, q)].1
}

/// The map of points to colors that a cell sequence denotes.
pub open spec fn board_map(s: Seq<((i8, i8), Color)>) -> Map<(int, int), Color> {
    Map::new(|q: (int, int)| pts_contains(s, q), |q: (int, int)| color_at(s, q))
}

/// No two cells of `s` occupy the same point.
pub open spec fn distinct_keys(s: Seq<((i8, i8), Color)>) -> bool {
    forall|i: int, j: int| 0 <= i < j < s.len() ==> key_at(s, i) != key_at(s, j)
}

/// Some cell of `s` with index below `n` is sent by `f` to exactly `cell`
/// (same color, coordinate related by `f`).
pub open spec fn sourced_below<F: Fn((i8, i8)) -> Option<(i8, i8)>>(
    f: F,
    s: Seq<((i8, i8), Color)>,
    n: int,
    cell: ((i8, i8), Color),
) -> bool {
    exists|i: int|
        0 <= i < n && call_ensures(f, ((#[trigger] s[i]).0,), Some(cell.0)) && s[i].1 == cell.1
}

/// Some cell of `s` is sent by `f` to exactly `cell`.
pub open spec fn sourced<F: Fn((i8, i8)) -> Option<(i8, i8)>>(
    f: F,
    s: Seq<((i8, i8), Color)>,
    cell: ((i8, i8), Color),
) -> bool {
    sourced_below(f, s, s.len() as int, cell)
}

/// The fate of one input cell under the filter `f`: some outcome of `f` on
/// its coordinate either drops it or places it, with its color, in `out`.
pub open spec fn filter_outcome<F: Fn((i8, i8)) -> Option<(i8, i8)>>(
    f: F,
    cell: ((i8, i8), Color),
    out: Seq<((i8, i8), Color)>,
) -> bool {
    exists|o: Option<(i8, i8)>|
        #[trigger] call_ensures(f, (cell.0,), o) && match o {
            Option::Some(q) => exists|j: int|
                0 <= j < out.len() && #[trigger] out[j] == ((q, cell.1)),
            Option::None => true,
        }
}

impl View for Board {
    type V = Map<(int, int), Color>;

    open spec fn view(&self) -> Map<(int, int), Color> {
        board_map(self.0@)
    }
}

impl Board {
    /// Each coordinate occurs at most once among the stored cells.
    pub open spec fn wf(&self) -> bool {
        distinct_keys(self.0@)
    }
}

/// With distinct keys, the cell at index `i` is exactly what the view
/// reports at its point.
pub proof fn lemma_cell_view(s: Seq<((i8, i8), Color)>, i: int)
    requires
        distinct_keys(s),
        0 <= i < s.len(),
    ensures
        board_map(s).dom().contains(key_at(s, i)),
        board_map(s)[key_at(s, i)] == s[i].1,
{
    assert(pts_contains(s, key_at(s, i)));
    let j = idx_of(s, key_at(s, i));
    assert(0 <= j < s.len() && key_at(s, j) == key_at(s, i));
    if i < j {
        assert(key_at(s, i) != key_at(s, j));
    } else if j < i {
        assert(key_at(s, j) != key_at(s, i));
    }
}

impl Board {
    /// Builds a board holding one cell of the given color at each listed
    /// coordinate (repeats collapse to one cell).
    pub fn new(v: &[(i8, i8)], color: Color) -> (r: Self)
        ensures
            r.wf(),
            forall|q: (int, int)|
                r@.dom().contains(q) <==> exists|i: int|
                    0 <= i < v@.len() && ((#[trigger] v@[i]).0 as int, v@[i].1 as int) == q,
            forall|q: (int, int)| r@.dom().contains(q) ==> r@[q] == color,
    {
        let mut cells: Vec<((i8, i8), Color)> = Vec::new();
        let mut k: usize = 0;
        while k < v.len()
            invariant
                distinct_keys(cells@),
                forall|q: (int, int)|
                    pts_contains(cells@, q) <==> exists|i: int|
                        0 <= i < k && ((#[trigger] v@[i]).0 as int, v@[i].1 as int) == q,
                forall|i: int| 0 <= i < cells@.len() ==> cells@[i].1 == color,
                k <= v@.len(),
            decreases v@.len() - k,
        {
            let p = v[k];
            let ghost pre = cells@;
            let present = cells_have_key(&cells, p);
            if !present {
                cells.push((p, color));
            }
            proof {
                let pv: (int, int) = (p.0 as int, p.1 as int);
                assert(((v@[k as int]).0 as int, (v@[k as int]).1 as int) == pv);
                if !present {
                    assert forall|i: int| 0 <= i < pre.len() implies key_at(cells@, i) == key_at(
                        pre,
                        i,
                    ) by {}
                    assert forall|i: int, j: int| 0 <= i < j < cells@.len() implies key_at(
                        cells@,
                        i,
                    ) != key_at(cells@, j) by {
                        if j == pre.len() {
                            assert(key_at(cells@, j) == pv);
                            if key_at(pre, i) == pv {
                                assert(pts_contains(pre, pv));
                            }
                        } else {
                            assert(key_at(cells@, i) == key_at(pre, i));
                            assert(key_at(cells@, j) == key_at(pre, j));
                            assert(key_at(pre, i) != key_at(pre, j));
                        }
                    }
                }
                assert forall|q: (int, int)| pts_contains(cells@, q) implies exists|i: int|
                    0 <= i < k + 1 && ((#[trigger] v@[i]).0 as int, v@[i].1 as int) == q by {
                    let w = choose|w: int| 0 <= w < cells@.len() && key_at(cells@, w) == q;
                    if w < pre.len() {
                        assert(key_at(pre, w) == q);
                        assert(pts_contains(pre, q));
                        let i0 = choose|i: int|
                            0 <= i < k && ((v@[i]).0 as int, (v@[i]).1 as int) == q;
                        assert(0 <= i0 < k + 1 && ((v@[i0]).0 as int, (v@[i0]).1 as int) == q);
                    } else {
                        assert(q == pv);
                        assert(((v@[k as int]).0 as int, (v@[k as int]).1 as int) == q);
                    }
                }
                assert forall|q: (int, int)|
                    (exists|i: int|
                        0 <= i < k + 1 && ((#[trigger] v@[i]).0 as int, v@[i].1 as int) == q)
                    implies pts_contains(cells@, q) by {
                    let w = choose|i: int|
                        0 <= i < k + 1 && ((v@[i]).0 as int, (v@[i]).1 as int) == q;
                    if w < k {
                        assert(pts_contains(pre, q));
                        let j = choose|j: int| 0 <= j < pre.len() && key_at(pre, j) == q;
                        assert(key_at(cells@, j) == q);
                    } else {
                        assert(q == pv);
                        if present {
                            let j = choose|j: int| 0 <= j < pre.len() && key_at(pre, j) == pv;
                            assert(key_at(cells@, j) == q);
                        } else {
                            assert(key_at(cells@, cells@.len() - 1) == q);
                        }
                    }
                }
            }
            k += 1;
        }
        let r = Board(cells);
        proof {
            assert forall|q: (int, int)| r@.dom().contains(q) implies r@[q] == color by {
                let w = idx_of(r.0@, q);
            }
        }
        r
    }

    /// Rebuilds the board with every cell's coordinate sent through `f`,
    /// keeping each cell's color. `f` must send distinct coordinates to
    /// distinct coordinates, so the result is again well-formed.
    pub fn modified<F: Fn((i8, i8)) -> (i8, i8)>(&self, f: F) -> (r: Self)
        requires
            self.wf(),
            forall|i: int| 0 <= i < self.0@.len() ==> call_requires(f, ((#[trigger] self.0@[i]).0,)),
            forall|p1: (i8, i8), p2: (i8, i8), q: (i8, i8)|
                call_ensures(f, (p1,), q) && call_ensures(f, (p2,), q) ==> p1 == p2,
        ensures
            r.wf(),
            r.0@.len() == self.0@.len(),
            forall|i: int|
                0 <= i < self.0@.len() ==> call_ensures(f, ((#[trigger] self.0@[i]).0,), r.0@[i].0)
                    && r.0@[i].1 == self.0@[i].1,
    {
        let mut out: Vec<((i8, i8), Color)> = Vec::new();
        let mut k: usize = 0;
        while k < self.0.len()
            invariant
                out@.len() == k,
                k <= self.0@.len(),
                forall|i: int|
                    0 <= i < self.0@.len() ==> call_requires(f, ((#[trigger] self.0@[i]).0,)),
                forall|i: int|
                    0 <= i < k ==> call_ensures(f, ((#[trigger] self.0@[i]).0,), out@[i].0)
                        && out@[i].1 == self.0@[i].1,
            decreases self.0@.len() - k,
        {
            let c = self.0[k];
            let q = f(c.0);
            out.push((q, c.1));
            k += 1;
        }
        let r = Board(out);
        proof {
            assert forall|i: int, j: int| 0 <= i < j < r.0@.len() implies key_at(r.0@, i) != key_at(
                r.0@,
                j,
            ) by {
                if key_at(r.0@, i) == key_at(r.0@, j) {
                    assert(r.0@[i].0 == r.0@[j].0);
                    assert(self.0@[i].0 == self.0@[j].0);
                    assert(key_at(self.0@, i) == key_at(self.0@, j));
                }
            }
        }
        r
    }

    /// Rebuilds the board keeping only the cells whose coordinate `f` maps
    /// to `Some` new coordinate, which must again be free of collisions.
    pub fn modified_filter<F: Fn((i8, i8)) -> Option<(i8, i8)>>(&self, f: F) -> (r: Self)
        requires
            self.wf(),
            forall|i: int| 0 <= i < self.0@.len() ==> call_requires(f, ((#[trigger] self.0@[i]).0,)),
            forall|p1: (i8, i8), p2: (i8, i8), q: (i8, i8)|
                call_ensures(f, (p1,), Some(q)) && call_ensures(f, (p2,), Some(q)) ==> p1 == p2,
        ensures
            r.wf(),
            forall|j: int| 0 <= j < r.0@.len() ==> sourced(f, self.0@, #[trigger] r.0@[j]),
            forall|i: int|
                0 <= i < self.0@.len() ==> filter_outcome(f, #[trigger] self.0@[i], r.0@),
    {
        let mut out: Vec<((i8, i8), Color)> = Vec::new();
        let mut k: usize = 0;
        while k < self.0.len()
            invariant
                k <= self.0@.len(),
                distinct_keys(self.0@),
                distinct_keys(out@),
                forall|i: int|
                    0 <= i < self.0@.len() ==> call_requires(f, ((#[trigger] self.0@[i]).0,)),
                forall|p1: (i8, i8), p2: (i8, i8), q: (i8, i8)|
                    call_ensures(f, (p1,), Some(q)) && call_ensures(f, (p2,), Some(q)) ==> p1 == p2,
                forall|j: int| 0 <= j < out@.len() ==> sourced_below(f, self.0@, k as int, #[trigger] out@[j]),
                forall|i: int| 0 <= i < k ==> filter_outcome(f, #[trigger] self.0@[i], out@),
            decreases self.0@.len() - k,
        {
            let c = self.0[k];
            let ghost pre = out@;
            let res = f(c.0);
            match res {
                Option::Some(q) => {
                    out.push((q, c.1));
                }
                Option::None => {},
            }
            proof {
                match res {
                    Option::Some(qq) => {
                        assert(out@ == pre.push((qq, c.1)));
                        assert forall|a: int, b: int| 0 <= a < b < out@.len() implies key_at(
                            out@,
                            a,
                        ) != key_at(out@, b) by {
                            if b == pre.len() {
                                if key_at(out@, a) == key_at(out@, b) {
                                    assert(out@[a] == pre[a]);
                                    assert(out@[a].0 == qq);
                                    assert(sourced_below(f, self.0@, k as int, pre[a]));
                                    let i0 = choose|i: int|
                                        0 <= i < k && call_ensures(
                                            f,
                                            ((#[trigger] self.0@[i]).0,),
                                            Some(pre[a].0),
                                        ) && self.0@[i].1 == pre[a].1;
                                    assert(self.0@[i0].0 == self.0@[k as int].0);
                                    assert(key_at(self.0@, i0) == key_at(self.0@, k as int));
                                }
                            } else {
                                assert(out@[a] == pre[a] && out@[b] == pre[b]);
                                assert(key_at(pre, a) != key_at(pre, b));
                            }
                        }
                    }
                    Option::None => {},
                }
                assert forall|j: int| 0 <= j < out@.len() implies sourced_below(
                    f,
                    self.0@,
                    k + 1,
                    #[trigger] out@[j],
                ) by {
                    if j < pre.len() {
                        assert(sourced_below(f, self.0@, k as int, pre[j]));
                        let i0 = choose|i: int|
                            0 <= i < k && call_ensures(f, ((#[trigger] self.0@[i]).0,), Some(pre[j].0))
                                && self.0@[i].1 == pre[j].1;
                        assert(0 <= i0 < k + 1 && call_ensures(
                            f,
                            ((self.0@[i0]).0,),
                            Some(out@[j].0),
                        ) && self.0@[i0].1 == out@[j].1);
                    } else {
                        assert(call_ensures(f, ((self.0@[k as int]).0,), Some(out@[j].0))
                            && self.0@[k as int].1 == out@[j].1);
                    }
                }
                assert forall|i: int| 0 <= i < k + 1 implies filter_outcome(
                    f,
                    #[trigger] self.0@[i],
                    out@,
                ) by {
                    if i < k {
                        let o0 = choose|o: Option<(i8, i8)>|
                            #[trigger] call_ensures(f, ((self.0@[i]).0,), o) && match o {
                                Option::Some(q) => exists|j: int|
                                    0 <= j < pre.len() && #[trigger] pre[j] == ((q, self.0@[i].1)),
                                Option::None => true,
                            };
                        match o0 {
                            Option::Some(q) => {
                                let j0 = choose|j: int|
                                    0 <= j < pre.len() && #[trigger] pre[j] == ((q, self.0@[i].1));
                                assert(out@[j0] == ((q, self.0@[i].1)));
                                assert(filter_outcome(f, self.0@[i], out@));
                            }
                            Option::None => {
                                assert(filter_outcome(f, self.0@[i], out@));
                            }
                        }
                    } else {
                        match res {
                            Option::Some(q) => {
                                assert(out@[pre.len() as int] == ((q, self.0@[i].1)));
                                assert(filter_outcome(f, self.0@[i], out@));
                            }
                            Option::None => {
                                assert(filter_outcome(f, self.0@[i], out@));
                            }
                        }
                    }
                }
            }
            k += 1;
        }
        let r = Board(out);
        proof {
            assert forall|j: int| 0 <= j < r.0@.len() implies sourced(
                f,
                self.0@,
                #[trigger] r.0@[j],
            ) by {
                assert(sourced_below(f, self.0@, k as int, r.0@[j]));
                let i0 = choose|i: int|
                    0 <= i < k && call_ensures(f, ((#[trigger] self.0@[i]).0,), Some(r.0@[j].0))
                        && self.0@[i].1 == r.0@[j].1;
                assert(0 <= i0 < self.0@.len() && call_ensures(
                    f,
                    ((self.0@[i0]).0,),
                    Some(r.0@[j].0),
                ) && self.0@[i0].1 == r.0@[j].1);
            }
        }
        r
    }

    /// Whether a cell sits at coordinate `p`.
    pub fn contains_pt(&self, p: (i8, i8)) -> (r: bool)
        ensures
            r == self@.dom().contains((p.0 as int, p.1 as int)),
    {
        cells_have_key(&self.0, p)
    }

    /// Lays `other`'s cells over `self`'s. Succeeds exactly when no two
    /// cells collide, and then returns the union of the two boards; on any
    /// collision it returns `None` and nothing is changed.
    pub fn merged(&self, other: &Board) -> (r: Option<Board>)
        requires
            self.wf(),
            other.wf(),
        ensures
            match r {
                Option::Some(b) => b.wf() && self@.dom().disjoint(other@.dom()) && b@
                    == self@.union_prefer_right(other@),
                Option::None => !self@.dom().disjoint(other@.dom()),
            },
    {
        let mut out: Vec<((i8, i8), Color)> = Vec::new();
        let mut k: usize = 0;
        while k < self.0.len()
            invariant
                k <= self.0@.len(),
                out@ == self.0@.subrange(0, k as int),
            decreases self.0@.len() - k,
        {
            out.push(self.0[k]);
            proof {
                assert(out@ =~= self.0@.subrange(0, k + 1));
            }
            k += 1;
        }
        proof {
            assert(out@ =~= self.0@);
        }
        let mut k2: usize = 0;
        while k2 < other.0.len()
            invariant
                k2 <= other.0@.len(),
                out@ == self.0@ + other.0@.subrange(0, k2 as int),
                forall|i: int| 0 <= i < k2 ==> !pts_contains(self.0@, #[trigger] key_at(other.0@, i)),
            decreases other.0@.len() - k2,
        {
            let c = other.0[k2];
            if cells_have_key(&self.0, c.0) {
                proof {
                    assert(self@.dom().contains(key_at(other.0@, k2 as int)));
                    assert(pts_contains(other.0@, key_at(other.0@, k2 as int)));
                    assert(other@.dom().contains(key_at(other.0@, k2 as int)));
                }
                return Option::None;
            }
            out.push(c);
            proof {
                assert(key_at(other.0@, k2 as int) == ((c.0.0 as int, c.0.1 as int)));
                assert(out@ =~= self.0@ + other.0@.subrange(0, k2 + 1));
            }
            k2 += 1;
        }
        let b = Board(out);
        proof {
            let s = self.0@;
            let o = other.0@;
            let n = s.len() as int;
            assert(b.0@ =~= s + o);
            assert forall|i: int, j: int| 0 <= i < j < b.0@.len() implies key_at(b.0@, i) != key_at(
                b.0@,
                j,
            ) by {
                if j < n {
                    assert(key_at(b.0@, i) == key_at(s, i) && key_at(b.0@, j) == key_at(s, j));
                } else if i >= n {
                    assert(key_at(b.0@, i) == key_at(o, i - n) && key_at(b.0@, j) == key_at(
                        o,
                        j - n,
                    ));
                } else {
                    assert(key_at(b.0@, i) == key_at(s, i) && key_at(b.0@, j) == key_at(o, j - n));
                    if key_at(s, i) == key_at(o, j - n) {
                        assert(pts_contains(s, key_at(o, j - n)));
                    }
                }
            }
            assert forall|q: (int, int)| self@.dom().contains(q) implies !other@.dom().contains(
                q,
            ) by {
                if other@.dom().contains(q) {
                    let i = choose|i: int| 0 <= i < o.len() && key_at(o, i) == q;
                    assert(!pts_contains(s, key_at(o, i)));
                }
            }
            assert forall|q: (int, int)| #[trigger] b@.dom().contains(q) implies self@.union_prefer_right(
                other@,
            ).dom().contains(q) && b@[q] == self@.union_prefer_right(other@)[q] by {
                let j = choose|j: int| 0 <= j < b.0@.len() && key_at(b.0@, j) == q;
                lemma_cell_view(b.0@, j);
                if j < n {
                    assert(key_at(s, j) == q);
                    assert(pts_contains(s, q));
                    lemma_cell_view(s, j);
                    assert(self@.dom().contains(q));
                    assert(!other@.dom().contains(q));
                    assert(self@.union_prefer_right(other@)[q] == self@[q]);
                    assert(b@[q] == s[j].1 && self@[q] == s[j].1);
                } else {
                    assert(key_at(o, j - n) == q);
                    assert(pts_contains(o, q));
                    lemma_cell_view(o, j - n);
                    assert(other@.dom().contains(q));
                    assert(self@.union_prefer_right(other@)[q] == other@[q]);
                    assert(b@[q] == o[j - n].1 && other@[q] == o[j - n].1);
                }
            }
            assert forall|q: (int, int)| #[trigger]
                self@.union_prefer_right(other@).dom().contains(q) implies b@.dom().contains(q) by {
                if pts_contains(s, q) {
                    let i = choose|i: int| 0 <= i < s.len() && key_at(s, i) == q;
                    assert(key_at(b.0@, i) == q);
                } else {
                    let i = choose|i: int| 0 <= i < o.len() && key_at(o, i) == q;
                    assert(key_at(b.0@, n + i) == q);
                }
            }
            assert(b@.dom() =~= self@.union_prefer_right(other@).dom());
            assert(b@ =~= self@.union_prefer_right(other@));
        }
        Option::Some(b)
    }

    /// Whether every cell lies inside the box `[0, x) x [0, y)`.
    pub fn contained(&self, x: i8, y: i8) -> (r: bool)
        ensures
            r == spec_contained(self@, x as int, y as int),
    {
        let mut ok = true;
        let mut k: usize = 0;
        while k < self.0.len()
            invariant
                k <= self.0@.len(),
                ok == forall|i: int|
                    0 <= i < k ==> 0 <= (#[trigger] key_at(self.0@, i)).0 < x as int && 0 <= key_at(
                        self.0@,
                        i,
                    ).1 < y as int,
            decreases self.0@.len() - k,
        {
            let c = self.0[k];
            let inb = c.0.0 < x && c.0.1 < y && c.0.0 >= 0 && c.0.1 >= 0;
            proof {
                assert(inb == (0 <= key_at(self.0@, k as int).0 < x as int && 0 <= key_at(
                    self.0@,
                    k as int,
                ).1 < y as int));
            }
            ok = ok && inb;
            k += 1;
        }
        proof {
            if ok {
                assert forall|q: (int, int)| #[trigger] self@.dom().contains(q) implies 0 <= q.0 < x as int
                    && 0 <= q.1 < y as int by {
                    let i = choose|i: int| 0 <= i < self.0@.len() && key_at(self.0@, i) == q;
                    assert(0 <= key_at(self.0@, i).0 < x as int && 0 <= key_at(self.0@, i).1
                        < y as int);
                }
            } else {
                let i = choose|i: int|
                    0 <= i < self.0@.len() && !(0 <= (#[trigger] key_at(self.0@, i)).0 < x as int
                        && 0 <= key_at(self.0@, i).1 < y as int);
                assert(pts_contains(self.0@, key_at(self.0@, i)));
                assert(self@.dom().contains(key_at(self.0@, i)));
            }
        }
        ok
    }
}

impl Default for Board {
    /// The empty board.
    fn default() -> (r: Self)
        ensures
            r.wf(),
            r@ == Map::<(int, int), Color>::empty(),
            r.0@ == Seq::<((i8, i8), Color)>::empty(),
    {
        let r = Board(Vec::new());
        proof {
            assert(r@ =~= Map::<(int, int), Color>::empty());
        }
        r
    }
}

/// Whether every occupied point of `m` lies inside `[0, w) x [0, h)`.
pub open spec fn spec_contained(m: Map<(int, int), Color>, w: int, h: int) -> bool {
    forall|q: (int, int)| #[trigger] m.dom().contains(q) ==> 0 <= q.0 < w && 0 <= q.1 < h
}

/// Merge containment: when a shape merges into a base grid without
/// collision and lies inside the box, every cell the shape occupies is
/// within bounds and was empty in the base grid.
pub proof fn lemma_merge_containment(
    base: Map<(int, int), Color>,
    shape: Map<(int, int), Color>,
    w: int,
    h: int,
)
    requires
        base.dom().disjoint(shape.dom()),
        spec_contained(shape, w, h),
    ensures
        forall|q: (int, int)| #[trigger]
            shape.dom().contains(q) ==> 0 <= q.0 < w && 0 <= q.1 < h && !base.dom().contains(q),
{
}

/// Merge non-destructiveness: a collision-free merge keeps every
/// originally-occupied cell of the base grid, with its color unchanged.
pub proof fn lemma_merge_non_destructive(base: Map<(int, int), Color>, shape: Map<(int, int), Color>)
    requires
        base.dom().disjoint(shape.dom()),
    ensures
        forall|q: (int, int)| #[trigger]
            base.dom().contains(q) ==> base.union_prefer_right(shape).dom().contains(q)
                && base.union_prefer_right(shape)[q] == base[q],
{
}

/// Linear scan for a coordinate among stored cells.
fn cells_have_key(cells: &Vec<((i8, i8), Color)>, p: (i8, i8)) -> (r: bool)
    ensures
        r == pts_contains(cells@, (p.0 as int, p.1 as int)),
{
    let mut k: usize = 0;
    while k < cells.len()
        invariant
            k <= cells@.len(),
            forall|i: int| 0 <= i < k ==> key_at(cells@, i) != ((p.0 as int, p.1 as int)),
        decreases cells@.len() - k,
    {
        let c = cells[k];
        if c.0.0 == p.0 && c.0.1 == p.1 {
            proof {
                assert(key_at(cells@, k as int) == ((p.0 as int, p.1 as int)));
            }
            return true;
        }
        k += 1;
    }
    false
}

} // verus!
