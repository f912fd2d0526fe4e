//! Pure geometric transforms on a board's cells: transposition, vertical
//! mirroring, the quarter-turn rotations composed from them, and
//! translation. Each transform is characterized exactly on the map view.

use vstd::prelude::*;

use crate::board::Board;
use crate::board::Color;
use crate::board::board_map;
use crate::board::distinct_keys;
use crate::board::key_at;
use crate::board::lemma_cell_view;
use crate::board::pts_contains;

verus! {

/// The view of a board after swapping the two coordinates of every cell.
pub open spec fn spec_transposed(m: Map<(int, int), Color>) -> Map<(int, int), Color> {
    Map::new(|q: (int, int)| m.dom().contains((q.1, q.0)), |q: (int, int)| m[(q.1, q.0)])
}

/// The view of a board after negating the row of every cell.
pub open spec fn spec_mirrored_y(m: Map<(int, int), Color>) -> Map<(int, int), Color> {
    Map::new(|q: (int, int)| m.dom().contains((q.0, -q.1)), |q: (int, int)| m[(q.0, -q.1)])
}

/// The view of a board after translating every cell by `(dx, dy)`.
pub open spec fn spec_shifted(m: Map<(int, int), Color>, dx: int, dy: int) -> Map<
    (int, int),
    Color,
> {
    Map::new(
        |q: (int, int)| m.dom().contains((q.0 - dx, q.1 - dy)),
        |q: (int, int)| m[(q.0 - dx, q.1 - dy)],
    )
}

/// A clockwise quarter turn about the origin: mirror, then transpose,
/// sending the cell at `(x, y)` to `(-y, x)`.
pub open spec fn spec_rotated(m: Map<(int, int), Color>) -> Map<(int, int), Color> {
    spec_transposed(spec_mirrored_y(m))
}

/// A counter-clockwise quarter turn: three clockwise quarter turns.
pub open spec fn spec_rotated_ccw(m: Map<(int, int), Color>) -> Map<(int, int), Color> {
    spec_rotated(spec_rotated(spec_rotated(m)))
}

/// Every point of a board's view lies within the coordinate type's range.
pub proof fn lemma_dom_i8_bounds(s: Seq<((i8, i8), Color)>)
    ensures
        forall|q: (int, int)| #[trigger]
            board_map(s).dom().contains(q) ==> -128 <= q.0 <= 127 && -128 <= q.1 <= 127,
{
    assert forall|q: (int, int)| #[trigger] board_map(s).dom().contains(q) implies -128 <= q.0
        <= 127 && -128 <= q.1 <= 127 by {
        let i = choose|i: int| 0 <= i < s.len() && key_at(s, i) == q;
        assert(key_at(s, i) == q);
    }
}

/// The rotation sends exactly the cell at `(q.1, -q.0)` to `q`.
pub proof fn lemma_rotated_at(m: Map<(int, int), Color>, q: (int, int))
    ensures
        spec_rotated(m).dom().contains(q) <==> m.dom().contains((q.1, -q.0)),
        m.dom().contains((q.1, -q.0)) ==> spec_rotated(m)[q] == m[(q.1, -q.0)],
{
}

/// Four clockwise quarter turns return every shape to itself, exactly.
///
/// The rotation moves cells about the origin, so no renormalization is
/// needed: the occupied points and their colors are restored as they were.
pub proof fn lemma_rotation_idempotence(m: Map<(int, int), Color>)
    ensures
        spec_rotated(spec_rotated(spec_rotated(spec_rotated(m)))) == m,
{
    let m1 = spec_rotated(m);
    let m2 = spec_rotated(m1);
    let m3 = spec_rotated(m2);
    let m4 = spec_rotated(m3);
    assert forall|q: (int, int)| m4.dom().contains(q) implies m.dom().contains(q) && m4[q] == m[q] by {
        lemma_rotated_at(m3, q);
        lemma_rotated_at(m2, (q.1, -q.0));
        lemma_rotated_at(m1, (-q.0, -q.1));
        lemma_rotated_at(m, (-q.1, q.0));
    }
    assert forall|q: (int, int)| m.dom().contains(q) implies m4.dom().contains(q) by {
        lemma_rotated_at(m3, q);
        lemma_rotated_at(m2, (q.1, -q.0));
        lemma_rotated_at(m1, (-q.0, -q.1));
        lemma_rotated_at(m, (-q.1, q.0));
    }
    assert(m4 =~= m);
}

/// A clockwise quarter turn and a counter-clockwise quarter turn cancel,
/// in either order: each composition is the identity on shapes.
pub proof fn lemma_rotation_inverse(m: Map<(int, int), Color>)
    ensures
        spec_rotated_ccw(spec_rotated(m)) == m,
        spec_rotated(spec_rotated_ccw(m)) == m,
{
    lemma_rotation_idempotence(m);
}

/// Two translations compose by adding their displacements.
pub proof fn lemma_shifted_compose(m: Map<(int, int), Color>, a: int, b: int, c: int, d: int)
    ensures
        spec_shifted(spec_shifted(m, a, b), c, d) == spec_shifted(m, a + c, b + d),
{
    let lhs = spec_shifted(spec_shifted(m, a, b), c, d);
    let rhs = spec_shifted(m, a + c, b + d);
    assert forall|q: (int, int)| #[trigger] lhs.dom().contains(q) implies rhs.dom().contains(q)
        && lhs[q] == rhs[q] by {
        assert(spec_shifted(m, a, b).dom().contains((q.0 - c, q.1 - d)));
        assert(m.dom().contains((q.0 - c - a, q.1 - d - b)));
        assert(m.dom().contains((q.0 - (a + c), q.1 - (b + d))));
    }
    assert forall|q: (int, int)| #[trigger] rhs.dom().contains(q) implies lhs.dom().contains(q) by {
        assert(m.dom().contains((q.0 - (a + c), q.1 - (b + d))));
        assert(m.dom().contains((q.0 - c - a, q.1 - d - b)));
        assert(spec_shifted(m, a, b).dom().contains((q.0 - c, q.1 - d)));
    }
    assert(lhs =~= rhs);
}

/// A cell-for-cell coordinate bijection `g` (with inverse `h`) on the
/// stored cells relocates the whole view along `h`.
pub proof fn lemma_modified_view(
    a: Seq<((i8, i8), Color)>,
    b: Seq<((i8, i8), Color)>,
    g: spec_fn((int, int)) -> (int, int),
    h: spec_fn((int, int)) -> (int, int),
)
    requires
        distinct_keys(a),
        distinct_keys(b),
        b.len() == a.len(),
        forall|i: int|
            0 <= i < a.len() ==> #[trigger] key_at(b, i) == g(key_at(a, i)) && b[i].1 == a[i].1,
        forall|q: (int, int)| #[trigger] h(g(q)) == q,
        forall|q: (int, int)| #[trigger] g(h(q)) == q,
    ensures
        board_map(b) == Map::new(
            |q: (int, int)| board_map(a).dom().contains(h(q)),
            |q: (int, int)| board_map(a)[h(q)],
        ),
{
    let target = Map::new(
        |q: (int, int)| board_map(a).dom().contains(h(q)),
        |q: (int, int)| board_map(a)[h(q)],
    );
    assert forall|q: (int, int)| board_map(b).dom().contains(q) implies target.dom().contains(q)
        && board_map(b)[q] == target[q] by {
        let j = choose|j: int| 0 <= j < b.len() && key_at(b, j) == q;
        assert(key_at(b, j) == g(key_at(a, j)));
        assert(h(g(key_at(a, j))) == key_at(a, j));
        assert(key_at(a, j) == h(q));
        assert(pts_contains(a, h(q)));
        lemma_cell_view(a, j);
        lemma_cell_view(b, j);
    }
    assert forall|q: (int, int)| target.dom().contains(q) implies board_map(b).dom().contains(
        q,
    ) by {
        let j = choose|j: int| 0 <= j < a.len() && key_at(a, j) == h(q);
        assert(key_at(b, j) == g(h(q)));
        assert(pts_contains(b, q));
    }
    assert(board_map(b) =~= target);
}

impl Board {
    /// Swaps the two coordinates of every cell.
    pub fn transposed(&self) -> (r: Self)
        requires
            self.wf(),
        ensures
            r.wf(),
            r@ == spec_transposed(self@),
    {
        let f = |p: (i8, i8)| -> (ret: (i8, i8))
            ensures
                ret == ((p.1, p.0)),
            { (p.1, p.0) };
        proof {
            assert forall|p1: (i8, i8), p2: (i8, i8), q: (i8, i8)|
                call_ensures(f, (p1,), q) && call_ensures(f, (p2,), q) implies p1 == p2 by {}
        }
        let r = self.modified(f);
        proof {
            let g = |q: (int, int)| ((q.1, q.0));
            let h = |q: (int, int)| ((q.1, q.0));
            assert forall|i: int| 0 <= i < self.0@.len() implies #[trigger] key_at(r.0@, i) == g(
                key_at(self.0@, i),
            ) && r.0@[i].1 == self.0@[i].1 by {
                assert(call_ensures(f, ((self.0@[i]).0,), r.0@[i].0));
            }
            lemma_modified_view(self.0@, r.0@, g, h);
            assert(r@ =~= spec_transposed(self@));
        }
        r
    }

    /// Negates the row of every cell, reflecting the shape about the x axis.
    pub fn mirrored_y(&self) -> (r: Self)
        requires
            self.wf(),
            forall|q: (int, int)| #[trigger] self@.dom().contains(q) ==> -127 <= q.1,
        ensures
            r.wf(),
            r@ == spec_mirrored_y(self@),
    {
        proof {
            assert forall|i: int| 0 <= i < self.0@.len() implies (#[trigger] self.0@[i]).0.1
                != i8::MIN by {
                lemma_cell_view(self.0@, i);
                assert(self@.dom().contains(key_at(self.0@, i)));
            }
        }
        let f = |p: (i8, i8)| -> (ret: (i8, i8))
            requires
                p.1 != i8::MIN,
            ensures
                ret.0 == p.0 && ret.1 == -(p.1 as int),
            { (p.0, -p.1) };
        proof {
            assert forall|p1: (i8, i8), p2: (i8, i8), q: (i8, i8)|
                call_ensures(f, (p1,), q) && call_ensures(f, (p2,), q) implies p1 == p2 by {}
        }
        let r = self.modified(f);
        proof {
            let g = |q: (int, int)| ((q.0, -q.1));
            let h = |q: (int, int)| ((q.0, -q.1));
            assert forall|i: int| 0 <= i < self.0@.len() implies #[trigger] key_at(r.0@, i) == g(
                key_at(self.0@, i),
            ) && r.0@[i].1 == self.0@[i].1 by {
                assert(call_ensures(f, ((self.0@[i]).0,), r.0@[i].0));
            }
            lemma_modified_view(self.0@, r.0@, g, h);
            assert(r@ =~= spec_mirrored_y(self@));
        }
        r
    }

    /// A clockwise quarter turn about the origin: mirror, then transpose.
    pub fn rotated(&self) -> (r: Self)
        requires
            self.wf(),
            forall|q: (int, int)| #[trigger] self@.dom().contains(q) ==> -127 <= q.1,
        ensures
            r.wf(),
            r@ == spec_rotated(self@),
    {
        self.mirrored_y().transposed()
    }

    /// A counter-clockwise quarter turn: three clockwise quarter turns.
    pub fn rotated_counter(&self) -> (r: Self)
        requires
            self.wf(),
            forall|q: (int, int)| #[trigger] self@.dom().contains(q) ==> -127 <= q.0 && -127 <= q.1,
        ensures
            r.wf(),
            r@ == spec_rotated_ccw(self@),
    {
        let b1 = self.rotated();
        proof {
            assert forall|q: (int, int)| #[trigger] b1@.dom().contains(q) implies -127 <= q.1 by {
                lemma_rotated_at(self@, q);
            }
        }
        let b2 = b1.rotated();
        proof {
            lemma_dom_i8_bounds(self.0@);
            assert forall|q: (int, int)| #[trigger] b2@.dom().contains(q) implies -127 <= q.1 by {
                lemma_rotated_at(b1@, q);
                lemma_rotated_at(self@, (q.1, -q.0));
            }
        }
        b2.rotated()
    }

    /// Translates every cell by the given displacement.
    pub fn shifted(&self, d: (i8, i8)) -> (r: Self)
        requires
            self.wf(),
            forall|q: (int, int)| #[trigger]
                self@.dom().contains(q) ==> i8::MIN <= q.0 + d.0 <= i8::MAX && i8::MIN <= q.1 + d.1
                    <= i8::MAX,
        ensures
            r.wf(),
            r@ == spec_shifted(self@, d.0 as int, d.1 as int),
    {
        proof {
            assert forall|i: int| 0 <= i < self.0@.len() implies i8::MIN <= (#[trigger] self.0@[i]).0.0
                + d.0 <= i8::MAX && i8::MIN <= self.0@[i].0.1 + d.1 <= i8::MAX by {
                lemma_cell_view(self.0@, i);
                assert(self@.dom().contains(key_at(self.0@, i)));
            }
        }
        let f = |p: (i8, i8)| -> (ret: (i8, i8))
            requires
                i8::MIN <= p.0 + d.0 <= i8::MAX,
                i8::MIN <= p.1 + d.1 <= i8::MAX,
            ensures
                ret.0 == p.0 + d.0 && ret.1 == p.1 + d.1,
            { (p.0 + d.0, p.1 + d.1) };
        proof {
            assert forall|p1: (i8, i8), p2: (i8, i8), q: (i8, i8)|
                call_ensures(f, (p1,), q) && call_ensures(f, (p2,), q) implies p1 == p2 by {}
        }
        let r = self.modified(f);
        proof {
            let g = |q: (int, int)| ((q.0 + d.0 as int, q.1 + d.1 as int));
            let h = |q: (int, int)| ((q.0 - d.0 as int, q.1 - d.1 as int));
            assert forall|i: int| 0 <= i < self.0@.len() implies #[trigger] key_at(r.0@, i) == g(
                key_at(self.0@, i),
            ) && r.0@[i].1 == self.0@[i].1 by {
                assert(call_ensures(f, ((self.0@[i]).0,), r.0@[i].0));
            }
            lemma_modified_view(self.0@, r.0@, g, h);
            assert(r@ =~= spec_shifted(self@, d.0 as int, d.1 as int));
        }
        r
    }

    /// The most negative column and row among the cells, clamped to zero:
    /// the displacement whose negation renormalizes a rotated shape.
    pub fn negative_shift(&self) -> (r: (i8, i8))
        ensures
            r.0 <= 0 && r.1 <= 0,
            forall|q: (int, int)| #[trigger]
                self@.dom().contains(q) ==> r.0 as int <= q.0 && r.1 as int <= q.1,
            r.0 == 0 || exists|q: (int, int)| #[trigger] self@.dom().contains(q) && q.0 == r.0 as int,
            r.1 == 0 || exists|q: (int, int)| #[trigger] self@.dom().contains(q) && q.1 == r.1 as int,
    {
        let mut mx: i8 = 0;
        let mut my: i8 = 0;
        let mut k: usize = 0;
        while k < self.0.len()
            invariant
                k <= self.0@.len(),
                mx <= 0 && my <= 0,
                forall|i: int|
                    0 <= i < k ==> mx as int <= (#[trigger] key_at(self.0@, i)).0 && my as int
                        <= key_at(self.0@, i).1,
                mx == 0 || exists|i: int|
                    0 <= i < self.0@.len() && (#[trigger] key_at(self.0@, i)).0 == mx as int,
                my == 0 || exists|i: int|
                    0 <= i < self.0@.len() && (#[trigger] key_at(self.0@, i)).1 == my as int,
            decreases self.0@.len() - k,
        {
            let c = self.0[k];
            if c.0.0 < mx {
                mx = c.0.0;
                proof {
                    assert(key_at(self.0@, k as int).0 == mx as int);
                }
            }
            if c.0.1 < my {
                my = c.0.1;
                proof {
                    assert(key_at(self.0@, k as int).1 == my as int);
                }
            }
            k += 1;
        }
        proof {
            assert forall|q: (int, int)| #[trigger] self@.dom().contains(q) implies mx as int <= q.0
                && my as int <= q.1 by {
                let i = choose|i: int| 0 <= i < self.0@.len() && key_at(self.0@, i) == q;
                assert(mx as int <= key_at(self.0@, i).0);
            }
            if mx != 0 {
                let i = choose|i: int|
                    0 <= i < self.0@.len() && (#[trigger] key_at(self.0@, i)).0 == mx as int;
                assert(pts_contains(self.0@, key_at(self.0@, i)));
                assert(self@.dom().contains(key_at(self.0@, i)));
            }
            if my != 0 {
                let i = choose|i: int|
                    0 <= i < self.0@.len() && (#[trigger] key_at(self.0@, i)).1 == my as int;
                assert(pts_contains(self.0@, key_at(self.0@, i)));
                assert(self@.dom().contains(key_at(self.0@, i)));
            }
        }
        (mx, my)
    }
}

} // verus!
