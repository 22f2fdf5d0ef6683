//! Stateless shape combinators over the generator's span sequence:
//! mirroring into a full circle, halving into semicircles, clipping into
//! quadrant wedges, stretching into "long" variants, and translating the
//! resulting points.

use vstd::prelude::*;

verus! {

use crate::generator::{Span, SpanRec, spans_view};
use vstd::multiset::Multiset;

/// Magnitude every coordinate and every stretch parameter must stay
/// under so that the combinators' additions cannot overflow `i64`.
pub const COORD_LIMIT: i64 = 0x1000_0000_0000;

/// Every record of `s` has its coordinates within `COORD_LIMIT`.
pub open spec fn recs_bounded(s: Seq<SpanRec>) -> bool {
    forall|i: int| 0 <= i < s.len() ==> {
        let sp = #[trigger] s[i];
        &&& -(COORD_LIMIT as int) <= sp.lo <= COORD_LIMIT as int
        &&& -(COORD_LIMIT as int) <= sp.hi <= COORD_LIMIT as int
        &&& -(COORD_LIMIT as int) <= sp.row <= COORD_LIMIT as int
    }
}

/// Every point of `v` has both coordinates within `2 * COORD_LIMIT`.
pub open spec fn points_bounded(v: Seq<(int, int)>) -> bool {
    forall|i: int| 0 <= i < v.len() ==> {
        let p = #[trigger] v[i];
        &&& -2 * (COORD_LIMIT as int) <= p.0 <= 2 * (COORD_LIMIT as int)
        &&& -2 * (COORD_LIMIT as int) <= p.1 <= 2 * (COORD_LIMIT as int)
    }
}

/// The integer points a vector of coordinate pairs stands for.
pub open spec fn points_view(v: Seq<(i64, i64)>) -> Seq<(int, int)> {
    v.map_values(|p: (i64, i64)| (p.0 as int, p.1 as int))
}

/// The points of one row: every `x` in `[lo, hi)` paired with `row`.
/// An empty or inverted interval contributes nothing.
pub open spec fn row_pts(lo: int, hi: int, row: int) -> Seq<(int, int)> {
    if hi <= lo {
        Seq::empty()
    } else {
        Seq::new((hi - lo) as nat, |i: int| (lo + i, row))
    }
}

/// The points of one row and its mirror row `-row - 1`, interleaved as
/// the mirroring combinators emit them: `(x, row)` then `(x, -row-1)`
/// for each `x` in `[lo, hi)`.
pub open spec fn row_pts_pair(lo: int, hi: int, row: int) -> Seq<(int, int)> {
    if hi <= lo {
        Seq::empty()
    } else {
        Seq::new((2 * (hi - lo)) as nat,
            |i: int| if i % 2 == 0 {
                (lo + i / 2, row)
            } else {
                (lo + i / 2, -row - 1)
            })
    }
}

/// Points of the full disc: every span mirrored across the equator.
pub open spec fn circle_points(s: Seq<SpanRec>) -> Seq<(int, int)> {
    s.map_values(|sp: SpanRec| row_pts_pair(sp.lo, sp.hi, sp.row)).flatten()
}

/// Points of the stretched disc: bounds moved by `a` and `b`, then
/// mirrored.
pub open spec fn circle_long_points(s: Seq<SpanRec>, a: int, b: int) -> Seq<(int, int)> {
    s.map_values(|sp: SpanRec| row_pts_pair(sp.lo + a, sp.hi + b, sp.row)).flatten()
}

/// Points of the upper half: the spans as emitted, unmirrored.
pub open spec fn semicircle_top_points(s: Seq<SpanRec>) -> Seq<(int, int)> {
    s.map_values(|sp: SpanRec| row_pts(sp.lo, sp.hi, sp.row)).flatten()
}

/// Points of the lower half: only the mirror rows.
pub open spec fn semicircle_bottom_points(s: Seq<SpanRec>) -> Seq<(int, int)> {
    s.map_values(|sp: SpanRec| row_pts(sp.lo, sp.hi, -sp.row - 1)).flatten()
}

/// Points of the stretched upper half.
pub open spec fn semicircle_top_long_points(s: Seq<SpanRec>, a: int, b: int) -> Seq<(int, int)> {
    s.map_values(|sp: SpanRec| row_pts(sp.lo + a, sp.hi + b, sp.row)).flatten()
}

/// Points of the stretched lower half.
pub open spec fn semicircle_bottom_long_points(s: Seq<SpanRec>, a: int, b: int) -> Seq<(int, int)> {
    s.map_values(|sp: SpanRec| row_pts(sp.lo + a, sp.hi + b, -sp.row - 1)).flatten()
}

/// Points of the upper-right wedge: spans clipped to `[0, hi + e)`.
pub open spec fn first_quadrant_points(s: Seq<SpanRec>, e: int) -> Seq<(int, int)> {
    s.map_values(|sp: SpanRec| row_pts(0, sp.hi + e, sp.row)).flatten()
}

/// Points of the upper-left wedge: spans clipped to `[lo, e)`.
pub open spec fn second_quadrant_points(s: Seq<SpanRec>, e: int) -> Seq<(int, int)> {
    s.map_values(|sp: SpanRec| row_pts(sp.lo, e, sp.row)).flatten()
}

/// Points of the lower-left wedge: spans clipped to `[lo, e)`, mirror rows.
pub open spec fn third_quadrant_points(s: Seq<SpanRec>, e: int) -> Seq<(int, int)> {
    s.map_values(|sp: SpanRec| row_pts(sp.lo, e, -sp.row - 1)).flatten()
}

/// Points of the lower-right wedge: spans clipped to `[0, hi + e)`,
/// mirror rows.
pub open spec fn fourth_quadrant_points(s: Seq<SpanRec>, e: int) -> Seq<(int, int)> {
    s.map_values(|sp: SpanRec| row_pts(0, sp.hi + e, -sp.row - 1)).flatten()
}

/// Appending one more inner sequence extends the flattening at the end.
pub proof fn lemma_flatten_push<A>(ss: Seq<Seq<A>>, t: Seq<A>)
    ensures
        ss.push(t).flatten() == ss.flatten() + t,
{
    ss.push(t).lemma_flatten_and_flatten_alt_are_equivalent();
    ss.lemma_flatten_and_flatten_alt_are_equivalent();
    assert(ss.push(t).drop_last() =~= ss);
    assert(ss.push(t).flatten_alt() == ss.flatten_alt() + t);
}

/// Flattening one more mapped element extends the flattening by the
/// image of that element.
pub proof fn lemma_map_flatten_step<A, B>(s: Seq<A>, i: int, f: spec_fn(A) -> Seq<B>)
    requires
        0 <= i < s.len(),
    ensures
        s.take(i + 1).map_values(f).flatten()
            == s.take(i).map_values(f).flatten() + f(s[i]),
{
    assert(s.take(i + 1).map_values(f) =~= s.take(i).map_values(f).push(f(s[i])));
    lemma_flatten_push(s.take(i).map_values(f), f(s[i]));
}

/// Emits the points of one unmirrored row.
fn push_row(out: &mut Vec<(i64, i64)>, lo: i64, hi: i64, row: i64)
    requires
        -2 * COORD_LIMIT <= lo <= 2 * COORD_LIMIT,
        -2 * COORD_LIMIT <= hi <= 2 * COORD_LIMIT,
        -2 * COORD_LIMIT <= row <= 2 * COORD_LIMIT,
    ensures
        points_view(final(out)@) == points_view(old(out)@) + row_pts(lo as int, hi as int, row as int),
{
    let ghost base = points_view(out@);
    if hi <= lo {
        proof {
            assert(points_view(out@) =~= base + row_pts(lo as int, hi as int, row as int));
        }
        return;
    }
    let mut x = lo;
    #[verifier::loop_isolation(false)]
    while x < hi
        invariant
            lo <= x <= hi,
            points_view(out@) =~= base + row_pts(lo as int, hi as int, row as int).take(x - lo),
        decreases hi - x,
    {
        let ghost pre = out@;
        out.push((x, row));
        proof {
            let full = row_pts(lo as int, hi as int, row as int);
            assert(points_view(out@) =~= points_view(pre).push((x as int, row as int)));
            assert(full.take(x + 1 - lo) =~= full.take(x - lo).push((x as int, row as int)));
            assert(points_view(out@) =~= base + full.take(x + 1 - lo));
        }
        x = x + 1;
    }
    proof {
        let full = row_pts(lo as int, hi as int, row as int);
        assert(full.take(hi - lo) =~= full);
        assert(points_view(out@) =~= base + full);
    }
}

/// Emits the points of one row interleaved with its mirror row.
fn push_row_pair(out: &mut Vec<(i64, i64)>, lo: i64, hi: i64, row: i64)
    requires
        -2 * COORD_LIMIT <= lo <= 2 * COORD_LIMIT,
        -2 * COORD_LIMIT <= hi <= 2 * COORD_LIMIT,
        -2 * COORD_LIMIT <= row <= 2 * COORD_LIMIT,
    ensures
        points_view(final(out)@) == points_view(old(out)@)
            + row_pts_pair(lo as int, hi as int, row as int),
{
    let ghost base = points_view(out@);
    if hi <= lo {
        proof {
            assert(points_view(out@) =~= base + row_pts_pair(lo as int, hi as int, row as int));
        }
        return;
    }
    let mut x = lo;
    #[verifier::loop_isolation(false)]
    while x < hi
        invariant
            lo <= x <= hi,
            points_view(out@) =~= base
                + row_pts_pair(lo as int, hi as int, row as int).take(2 * (x - lo)),
        decreases hi - x,
    {
        let ghost pre = out@;
        out.push((x, row));
        out.push((x, -row - 1));
        proof {
            let full = row_pts_pair(lo as int, hi as int, row as int);
            assert(points_view(out@) =~= points_view(pre)
                .push((x as int, row as int)).push((x as int, -(row as int) - 1)));
            assert(full.take(2 * (x + 1 - lo)) =~= full.take(2 * (x - lo))
                .push((x as int, row as int)).push((x as int, -(row as int) - 1)));
            assert(points_view(out@) =~= base + full.take(2 * (x + 1 - lo)));
        }
        x = x + 1;
    }
    proof {
        let full = row_pts_pair(lo as int, hi as int, row as int);
        assert(full.take(2 * (hi - lo)) =~= full);
        assert(points_view(out@) =~= base + full);
    }
}

/// The rasterizing combinators: pure transforms from a sequence of
/// span/row pairs to the pixels of a shape.
pub trait Rasterization: Sized {
    /// The span records this value stands for.
    spec fn spans_model(&self) -> Seq<SpanRec>;

    /// The full disc: every `x` of every span emitted twice, once on the
    /// span's row and once mirrored across the equator.
    fn circle(self) -> (v: Vec<(i64, i64)>)
        requires
            recs_bounded(self.spans_model()),
        ensures
            points_view(v@) == circle_points(self.spans_model());

    /// The stretched disc: each span's lower bound moved by `start` and
    /// upper bound by `end` before mirroring. A span that collapses or
    /// inverts contributes nothing.
    fn circle_long(self, start: i64, end: i64) -> (v: Vec<(i64, i64)>)
        requires
            recs_bounded(self.spans_model()),
            -COORD_LIMIT <= start <= COORD_LIMIT,
            -COORD_LIMIT <= end <= COORD_LIMIT,
        ensures
            points_view(v@) == circle_long_points(self.spans_model(), start as int, end as int);

    /// The upper half of the disc: the spans as emitted, unmirrored.
    fn semicircle_top(self) -> (v: Vec<(i64, i64)>)
        requires
            recs_bounded(self.spans_model()),
        ensures
            points_view(v@) == semicircle_top_points(self.spans_model());

    /// The lower half of the disc: only the mirror rows.
    fn semicircle_bottom(self) -> (v: Vec<(i64, i64)>)
        requires
            recs_bounded(self.spans_model()),
        ensures
            points_view(v@) == semicircle_bottom_points(self.spans_model());

    /// The stretched upper half.
    fn semicircle_top_long(self, start: i64, end: i64) -> (v: Vec<(i64, i64)>)
        requires
            recs_bounded(self.spans_model()),
            -COORD_LIMIT <= start <= COORD_LIMIT,
            -COORD_LIMIT <= end <= COORD_LIMIT,
        ensures
            points_view(v@) == semicircle_top_long_points(self.spans_model(), start as int, end as int);

    /// The stretched lower half.
    fn semicircle_bottom_long(self, start: i64, end: i64) -> (v: Vec<(i64, i64)>)
        requires
            recs_bounded(self.spans_model()),
            -COORD_LIMIT <= start <= COORD_LIMIT,
            -COORD_LIMIT <= end <= COORD_LIMIT,
        ensures
            points_view(v@) == semicircle_bottom_long_points(self.spans_model(), start as int, end as int);

    /// The upper-right wedge: each span clipped to `[0, hi + end)`.
    fn first_quadrant(self, end: i64) -> (v: Vec<(i64, i64)>)
        requires
            recs_bounded(self.spans_model()),
            -COORD_LIMIT <= end <= COORD_LIMIT,
        ensures
            points_view(v@) == first_quadrant_points(self.spans_model(), end as int);

    /// The upper-left wedge: each span clipped to `[lo, end)`.
    fn second_quadrant(self, end: i64) -> (v: Vec<(i64, i64)>)
        requires
            recs_bounded(self.spans_model()),
            -COORD_LIMIT <= end <= COORD_LIMIT,
        ensures
            points_view(v@) == second_quadrant_points(self.spans_model(), end as int);

    /// The lower-left wedge: each span clipped to `[lo, end)`, mirror rows.
    fn third_quadrant(self, end: i64) -> (v: Vec<(i64, i64)>)
        requires
            recs_bounded(self.spans_model()),
            -COORD_LIMIT <= end <= COORD_LIMIT,
        ensures
            points_view(v@) == third_quadrant_points(self.spans_model(), end as int);

    /// The lower-right wedge: each span clipped to `[0, hi + end)`,
    /// mirror rows.
    fn fourth_quadrant(self, end: i64) -> (v: Vec<(i64, i64)>)
        requires
            recs_bounded(self.spans_model()),
            -COORD_LIMIT <= end <= COORD_LIMIT,
        ensures
            points_view(v@) == fourth_quadrant_points(self.spans_model(), end as int);
}

impl Rasterization for Vec<(Span, i64)> {
    open spec fn spans_model(&self) -> Seq<SpanRec> {
        spans_view(self@)
    }

    fn circle(self) -> (v: Vec<(i64, i64)>) {
        let ghost model = spans_view(self@);
        let ghost f = |sp: SpanRec| row_pts_pair(sp.lo, sp.hi, sp.row);
        let mut out: Vec<(i64, i64)> = Vec::new();
        let n = self.len();
        let mut idx: usize = 0;
        #[verifier::loop_isolation(false)]
        while idx < n
            invariant
                0 <= idx <= n,
                points_view(out@) =~= model.take(idx as int).map_values(f).flatten(),
            decreases n - idx,
        {
            let (sp, row) = self[idx];
            proof {
                assert(model[idx as int] == crate::generator::rec_of(sp, row));
            }
            push_row_pair(&mut out, sp.start, sp.end, row);
            proof {
                lemma_map_flatten_step(model, idx as int, f);
            }
            idx = idx + 1;
        }
        proof {
            assert(model.take(n as int) =~= model);
            assert(points_view(out@) =~= circle_points(model));
        }
        out
    }

    fn circle_long(self, start: i64, end: i64) -> (v: Vec<(i64, i64)>) {
        let ghost model = spans_view(self@);
        let ghost f = |sp: SpanRec| row_pts_pair(sp.lo + start as int, sp.hi + end as int, sp.row);
        let mut out: Vec<(i64, i64)> = Vec::new();
        let n = self.len();
        let mut idx: usize = 0;
        #[verifier::loop_isolation(false)]
        while idx < n
            invariant
                0 <= idx <= n,
                points_view(out@) =~= model.take(idx as int).map_values(f).flatten(),
            decreases n - idx,
        {
            let (sp, row) = self[idx];
            proof {
                assert(model[idx as int] == crate::generator::rec_of(sp, row));
            }
            push_row_pair(&mut out, sp.start + start, sp.end + end, row);
            proof {
                lemma_map_flatten_step(model, idx as int, f);
            }
            idx = idx + 1;
        }
        proof {
            assert(model.take(n as int) =~= model);
            assert(points_view(out@) =~= model.map_values(f).flatten());
        }
        out
    }

    fn semicircle_top(self) -> (v: Vec<(i64, i64)>) {
        let ghost model = spans_view(self@);
        let ghost f = |sp: SpanRec| row_pts(sp.lo, sp.hi, sp.row);
        let mut out: Vec<(i64, i64)> = Vec::new();
        let n = self.len();
        let mut idx: usize = 0;
        #[verifier::loop_isolation(false)]
        while idx < n
            invariant
                0 <= idx <= n,
                points_view(out@) =~= model.take(idx as int).map_values(f).flatten(),
            decreases n - idx,
        {
            let (sp, row) = self[idx];
            proof {
                assert(model[idx as int] == crate::generator::rec_of(sp, row));
            }
            push_row(&mut out, sp.start, sp.end, row);
            proof {
                lemma_map_flatten_step(model, idx as int, f);
            }
            idx = idx + 1;
        }
        proof {
            assert(model.take(n as int) =~= model);
            assert(points_view(out@) =~= model.map_values(f).flatten());
        }
        out
    }

    fn semicircle_bottom(self) -> (v: Vec<(i64, i64)>) {
        let ghost model = spans_view(self@);
        let ghost f = |sp: SpanRec| row_pts(sp.lo, sp.hi, -sp.row - 1);
        let mut out: Vec<(i64, i64)> = Vec::new();
        let n = self.len();
        let mut idx: usize = 0;
        #[verifier::loop_isolation(false)]
        while idx < n
            invariant
                0 <= idx <= n,
                points_view(out@) =~= model.take(idx as int).map_values(f).flatten(),
            decreases n - idx,
        {
            let (sp, row) = self[idx];
            proof {
                assert(model[idx as int] == crate::generator::rec_of(sp, row));
            }
            push_row(&mut out, sp.start, sp.end, -row - 1);
            proof {
                lemma_map_flatten_step(model, idx as int, f);
            }
            idx = idx + 1;
        }
        proof {
            assert(model.take(n as int) =~= model);
            assert(points_view(out@) =~= model.map_values(f).flatten());
        }
        out
    }

    fn semicircle_top_long(self, start: i64, end: i64) -> (v: Vec<(i64, i64)>) {
        let ghost model = spans_view(self@);
        let ghost f = |sp: SpanRec| row_pts(sp.lo + start as int, sp.hi + end as int, sp.row);
        let mut out: Vec<(i64, i64)> = Vec::new();
        let n = self.len();
        let mut idx: usize = 0;
        #[verifier::loop_isolation(false)]
        while idx < n
            invariant
                0 <= idx <= n,
                points_view(out@) =~= model.take(idx as int).map_values(f).flatten(),
            decreases n - idx,
        {
            let (sp, row) = self[idx];
            proof {
                assert(model[idx as int] == crate::generator::rec_of(sp, row));
            }
            push_row(&mut out, sp.start + start, sp.end + end, row);
            proof {
                lemma_map_flatten_step(model, idx as int, f);
            }
            idx = idx + 1;
        }
        proof {
            assert(model.take(n as int) =~= model);
            assert(points_view(out@) =~= model.map_values(f).flatten());
        }
        out
    }

    fn semicircle_bottom_long(self, start: i64, end: i64) -> (v: Vec<(i64, i64)>) {
        let ghost model = spans_view(self@);
        let ghost f = |sp: SpanRec| row_pts(sp.lo + start as int, sp.hi + end as int, -sp.row - 1);
        let mut out: Vec<(i64, i64)> = Vec::new();
        let n = self.len();
        let mut idx: usize = 0;
        #[verifier::loop_isolation(false)]
        while idx < n
            invariant
                0 <= idx <= n,
                points_view(out@) =~= model.take(idx as int).map_values(f).flatten(),
            decreases n - idx,
        {
            let (sp, row) = self[idx];
            proof {
                assert(model[idx as int] == crate::generator::rec_of(sp, row));
            }
            push_row(&mut out, sp.start + start, sp.end + end, -row - 1);
            proof {
                lemma_map_flatten_step(model, idx as int, f);
            }
            idx = idx + 1;
        }
        proof {
            assert(model.take(n as int) =~= model);
            assert(points_view(out@) =~= model.map_values(f).flatten());
        }
        out
    }

    fn first_quadrant(self, end: i64) -> (v: Vec<(i64, i64)>) {
        let ghost model = spans_view(self@);
        let ghost f = |sp: SpanRec| row_pts(0, sp.hi + end as int, sp.row);
        let mut out: Vec<(i64, i64)> = Vec::new();
        let n = self.len();
        let mut idx: usize = 0;
        #[verifier::loop_isolation(false)]
        while idx < n
            invariant
                0 <= idx <= n,
                points_view(out@) =~= model.take(idx as int).map_values(f).flatten(),
            decreases n - idx,
        {
            let (sp, row) = self[idx];
            proof {
                assert(model[idx as int] == crate::generator::rec_of(sp, row));
            }
            push_row(&mut out, 0, sp.end + end, row);
            proof {
                lemma_map_flatten_step(model, idx as int, f);
            }
            idx = idx + 1;
        }
        proof {
            assert(model.take(n as int) =~= model);
            assert(points_view(out@) =~= model.map_values(f).flatten());
        }
        out
    }

    fn second_quadrant(self, end: i64) -> (v: Vec<(i64, i64)>) {
        let ghost model = spans_view(self@);
        let ghost f = |sp: SpanRec| row_pts(sp.lo, end as int, sp.row);
        let mut out: Vec<(i64, i64)> = Vec::new();
        let n = self.len();
        let mut idx: usize = 0;
        #[verifier::loop_isolation(false)]
        while idx < n
            invariant
                0 <= idx <= n,
                points_view(out@) =~= model.take(idx as int).map_values(f).flatten(),
            decreases n - idx,
        {
            let (sp, row) = self[idx];
            proof {
                assert(model[idx as int] == crate::generator::rec_of(sp, row));
            }
            push_row(&mut out, sp.start, end, row);
            proof {
                lemma_map_flatten_step(model, idx as int, f);
            }
            idx = idx + 1;
        }
        proof {
            assert(model.take(n as int) =~= model);
            assert(points_view(out@) =~= model.map_values(f).flatten());
        }
        out
    }

    fn third_quadrant(self, end: i64) -> (v: Vec<(i64, i64)>) {
        let ghost model = spans_view(self@);
        let ghost f = |sp: SpanRec| row_pts(sp.lo, end as int, -sp.row - 1);
        let mut out: Vec<(i64, i64)> = Vec::new();
        let n = self.len();
        let mut idx: usize = 0;
        #[verifier::loop_isolation(false)]
        while idx < n
            invariant
                0 <= idx <= n,
                points_view(out@) =~= model.take(idx as int).map_values(f).flatten(),
            decreases n - idx,
        {
            let (sp, row) = self[idx];
            proof {
                assert(model[idx as int] == crate::generator::rec_of(sp, row));
            }
            push_row(&mut out, sp.start, end, -row - 1);
            proof {
                lemma_map_flatten_step(model, idx as int, f);
            }
            idx = idx + 1;
        }
        proof {
            assert(model.take(n as int) =~= model);
            assert(points_view(out@) =~= model.map_values(f).flatten());
        }
        out
    }

    fn fourth_quadrant(self, end: i64) -> (v: Vec<(i64, i64)>) {
        let ghost model = spans_view(self@);
        let ghost f = |sp: SpanRec| row_pts(0, sp.hi + end as int, -sp.row - 1);
        let mut out: Vec<(i64, i64)> = Vec::new();
        let n = self.len();
        let mut idx: usize = 0;
        #[verifier::loop_isolation(false)]
        while idx < n
            invariant
                0 <= idx <= n,
                points_view(out@) =~= model.take(idx as int).map_values(f).flatten(),
            decreases n - idx,
        {
            let (sp, row) = self[idx];
            proof {
                assert(model[idx as int] == crate::generator::rec_of(sp, row));
            }
            push_row(&mut out, 0, sp.end + end, -row - 1);
            proof {
                lemma_map_flatten_step(model, idx as int, f);
            }
            idx = idx + 1;
        }
        proof {
            assert(model.take(n as int) =~= model);
            assert(points_view(out@) =~= model.map_values(f).flatten());
        }
        out
    }
}

/// Translates every point by `(dx, dy)`: a pure translation, no
/// clipping — the result is exactly the input mapped pointwise.
pub fn offset(points: Vec<(i64, i64)>, dx: i64, dy: i64) -> (v: Vec<(i64, i64)>)
    requires
        points_bounded(points_view(points@)),
        -COORD_LIMIT <= dx <= COORD_LIMIT,
        -COORD_LIMIT <= dy <= COORD_LIMIT,
    ensures
        points_view(v@) == points_view(points@).map_values(
            |p: (int, int)| (p.0 + dx as int, p.1 + dy as int)),
{
    let ghost model = points_view(points@);
    let ghost g = |p: (int, int)| (p.0 + dx as int, p.1 + dy as int);
    let mut out: Vec<(i64, i64)> = Vec::new();
    let n = points.len();
    let mut idx: usize = 0;
    #[verifier::loop_isolation(false)]
    while idx < n
        invariant
            0 <= idx <= n,
            out@.len() == idx,
            forall|i: int| 0 <= i < idx ==>
                #[trigger] points_view(out@)[i] == g(model[i]),
        decreases n - idx,
    {
        let (x, y) = points[idx];
        proof {
            assert(model[idx as int] == (x as int, y as int));
        }
        let ghost pre = out@;
        out.push((x + dx, y + dy));
        proof {
            assert(points_view(out@) =~= points_view(pre).push(g(model[idx as int])));
        }
        idx = idx + 1;
    }
    proof {
        assert(points_view(out@) =~= model.map_values(g));
    }
    out
}

/// A radius of zero yields no spans from either end of the walk, and
/// every combinator of an empty span sequence yields no points, for all
/// stretch and clip parameters.
pub proof fn lemma_radius_zero_empty(a: int, b: int, e: int)
    ensures
        crate::generator::spans_of(crate::generator::init_walk(0))
            == Seq::<SpanRec>::empty(),
        crate::generator::back_spans(crate::generator::init_walk(0))
            == Seq::<SpanRec>::empty(),
        circle_points(Seq::empty()) == Seq::<(int, int)>::empty(),
        circle_long_points(Seq::empty(), a, b) == Seq::<(int, int)>::empty(),
        semicircle_top_points(Seq::empty()) == Seq::<(int, int)>::empty(),
        semicircle_bottom_points(Seq::empty()) == Seq::<(int, int)>::empty(),
        semicircle_top_long_points(Seq::empty(), a, b) == Seq::<(int, int)>::empty(),
        semicircle_bottom_long_points(Seq::empty(), a, b) == Seq::<(int, int)>::empty(),
        first_quadrant_points(Seq::empty(), e) == Seq::<(int, int)>::empty(),
        second_quadrant_points(Seq::empty(), e) == Seq::<(int, int)>::empty(),
        third_quadrant_points(Seq::empty(), e) == Seq::<(int, int)>::empty(),
        fourth_quadrant_points(Seq::empty(), e) == Seq::<(int, int)>::empty(),
{
    let s = Seq::<SpanRec>::empty();
    assert(s.map_values(|sp: SpanRec| row_pts_pair(sp.lo, sp.hi, sp.row)) =~=
        Seq::<Seq<(int, int)>>::empty());
    assert(Seq::<Seq<(int, int)>>::empty().flatten() =~= Seq::<(int, int)>::empty());
    assert(s.map_values(|sp: SpanRec| row_pts_pair(sp.lo + a, sp.hi + b, sp.row)) =~=
        Seq::<Seq<(int, int)>>::empty());
    assert(s.map_values(|sp: SpanRec| row_pts(sp.lo, sp.hi, sp.row)) =~=
        Seq::<Seq<(int, int)>>::empty());
    assert(s.map_values(|sp: SpanRec| row_pts(sp.lo, sp.hi, -sp.row - 1)) =~=
        Seq::<Seq<(int, int)>>::empty());
    assert(s.map_values(|sp: SpanRec| row_pts(sp.lo + a, sp.hi + b, sp.row)) =~=
        Seq::<Seq<(int, int)>>::empty());
    assert(s.map_values(|sp: SpanRec| row_pts(sp.lo + a, sp.hi + b, -sp.row - 1)) =~=
        Seq::<Seq<(int, int)>>::empty());
    assert(s.map_values(|sp: SpanRec| row_pts(0, sp.hi + e, sp.row)) =~=
        Seq::<Seq<(int, int)>>::empty());
    assert(s.map_values(|sp: SpanRec| row_pts(sp.lo, e, sp.row)) =~=
        Seq::<Seq<(int, int)>>::empty());
    assert(s.map_values(|sp: SpanRec| row_pts(sp.lo, e, -sp.row - 1)) =~=
        Seq::<Seq<(int, int)>>::empty());
    assert(s.map_values(|sp: SpanRec| row_pts(0, sp.hi + e, -sp.row - 1)) =~=
        Seq::<Seq<(int, int)>>::empty());
}

/// Stretching by zero on both sides changes nothing: `circle_long(0, 0)`
/// is `circle`.
pub proof fn lemma_circle_long_zero(s: Seq<SpanRec>)
    ensures
        circle_long_points(s, 0, 0) == circle_points(s),
{
    assert(s.map_values(|sp: SpanRec| row_pts_pair(sp.lo + 0, sp.hi + 0, sp.row)) =~=
        s.map_values(|sp: SpanRec| row_pts_pair(sp.lo, sp.hi, sp.row)));
}

/// Sum of the half-widths of a span sequence.
pub open spec fn halves_sum(s: Seq<SpanRec>) -> int
    decreases s.len(),
{
    if s.len() == 0 {
        0
    } else {
        s[0].hi + halves_sum(s.drop_first())
    }
}

/// On a symmetric span sequence — each span `[-h, h)` with `h >= 0`, as
/// the generator emits them — the full circle yields exactly four points
/// per unit of summed half-width, and the points come in mirror pairs:
/// each even-indexed point is followed by its reflection across the
/// equator, `(x, y)` by `(x, -y - 1)`.
pub proof fn lemma_circle_count(s: Seq<SpanRec>)
    requires
        forall|i: int| 0 <= i < s.len() ==> (#[trigger] s[i]).hi >= 0 && s[i].lo == -s[i].hi,
    ensures
        circle_points(s).len() == 4 * halves_sum(s),
        forall|j: int| 0 <= j && j % 2 == 0 && j + 1 < circle_points(s).len() ==> {
            let p = #[trigger] circle_points(s)[j];
            circle_points(s)[j + 1] == (p.0, -p.1 - 1)
        },
    decreases s.len(),
{
    let f = |sp: SpanRec| row_pts_pair(sp.lo, sp.hi, sp.row);
    if s.len() == 0 {
        assert(s.map_values(f) =~= Seq::<Seq<(int, int)>>::empty());
        assert(circle_points(s) =~= Seq::<(int, int)>::empty());
    } else {
        let rest = s.drop_first();
        lemma_circle_count(rest);
        let head = f(s[0]);
        assert(s.map_values(f).drop_first() =~= rest.map_values(f));
        assert(circle_points(s) =~= head + circle_points(rest));
        assert(head.len() == 4 * s[0].hi);
        assert forall|j: int| 0 <= j && j % 2 == 0 && j + 1 < circle_points(s).len() implies {
            let p = #[trigger] circle_points(s)[j];
            circle_points(s)[j + 1] == (p.0, -p.1 - 1)
        } by {
            if j + 1 < head.len() {
                assert(circle_points(s)[j] == head[j]);
                assert(circle_points(s)[j + 1] == head[j + 1]);
                assert((j + 1) / 2 == j / 2);
            } else {
                let k = j - head.len();
                assert(k % 2 == 0) by {
                    assert(head.len() % 2 == 0);
                }
                assert(circle_points(s)[j] == circle_points(rest)[k]);
                assert(circle_points(s)[j + 1] == circle_points(rest)[k + 1]);
            }
        }
    }
}

/// One row of the circle, as a multiset, splits into its top and bottom
/// halves.
proof fn lemma_pair_multiset(lo: int, hi: int, row: int)
    ensures
        row_pts_pair(lo, hi, row).to_multiset() ==
            row_pts(lo, hi, row).to_multiset()
                .add(row_pts(lo, hi, -row - 1).to_multiset()),
    decreases hi - lo,
{
    broadcast use vstd::seq_lib::group_to_multiset_ensures;

    if hi <= lo {
        assert(row_pts_pair(lo, hi, row).to_multiset() =~=
            row_pts(lo, hi, row).to_multiset()
                .add(row_pts(lo, hi, -row - 1).to_multiset()));
    } else {
        lemma_pair_multiset(lo, hi - 1, row);
        assert(row_pts_pair(lo, hi, row) =~=
            row_pts_pair(lo, hi - 1, row)
                .push((hi - 1, row)).push((hi - 1, -row - 1)));
        assert(row_pts(lo, hi, row) =~= row_pts(lo, hi - 1, row).push((hi - 1, row)));
        assert(row_pts(lo, hi, -row - 1) =~=
            row_pts(lo, hi - 1, -row - 1).push((hi - 1, -row - 1)));
        assert(row_pts_pair(lo, hi, row).to_multiset() =~=
            row_pts(lo, hi, row).to_multiset()
                .add(row_pts(lo, hi, -row - 1).to_multiset()));
    }
}

/// One row of the circle, as a multiset, is exactly the union of its
/// four quadrant clips with `end == 0`, provided the span straddles the
/// vertical axis.
proof fn lemma_row_partition(lo: int, hi: int, row: int)
    requires
        lo <= 0 <= hi,
    ensures
        row_pts_pair(lo, hi, row).to_multiset() ==
            row_pts(0, hi, row).to_multiset()
                .add(row_pts(lo, 0, row).to_multiset())
                .add(row_pts(lo, 0, -row - 1).to_multiset())
                .add(row_pts(0, hi, -row - 1).to_multiset()),
{
    lemma_pair_multiset(lo, hi, row);
    assert(row_pts(lo, hi, row) =~= row_pts(lo, 0, row) + row_pts(0, hi, row));
    assert(row_pts(lo, hi, -row - 1) =~=
        row_pts(lo, 0, -row - 1) + row_pts(0, hi, -row - 1));
    vstd::seq_lib::lemma_multiset_commutative(row_pts(lo, 0, row), row_pts(0, hi, row));
    vstd::seq_lib::lemma_multiset_commutative(
        row_pts(lo, 0, -row - 1), row_pts(0, hi, -row - 1));
    assert(row_pts_pair(lo, hi, row).to_multiset() =~=
        row_pts(0, hi, row).to_multiset()
            .add(row_pts(lo, 0, row).to_multiset())
            .add(row_pts(lo, 0, -row - 1).to_multiset())
            .add(row_pts(0, hi, -row - 1).to_multiset()));
}

/// The four quadrant wedges with `end == 0` partition the full circle:
/// together they hold exactly the circle's points, none duplicated and
/// none missing, whenever every span straddles the vertical axis — as
/// every span of the generator does.
pub proof fn lemma_quadrants_partition(s: Seq<SpanRec>)
    requires
        forall|i: int| 0 <= i < s.len() ==> (#[trigger] s[i]).lo <= 0 <= s[i].hi,
    ensures
        circle_points(s).to_multiset() ==
            first_quadrant_points(s, 0).to_multiset()
                .add(second_quadrant_points(s, 0).to_multiset())
                .add(third_quadrant_points(s, 0).to_multiset())
                .add(fourth_quadrant_points(s, 0).to_multiset()),
    decreases s.len(),
{
    broadcast use vstd::seq_lib::group_to_multiset_ensures;

    let f = |sp: SpanRec| row_pts_pair(sp.lo, sp.hi, sp.row);
    let q1 = |sp: SpanRec| row_pts(0, sp.hi + 0, sp.row);
    let q2 = |sp: SpanRec| row_pts(sp.lo, 0, sp.row);
    let q3 = |sp: SpanRec| row_pts(sp.lo, 0, -sp.row - 1);
    let q4 = |sp: SpanRec| row_pts(0, sp.hi + 0, -sp.row - 1);
    if s.len() == 0 {
        assert(s.map_values(f) =~= Seq::<Seq<(int, int)>>::empty());
        assert(s.map_values(q1) =~= Seq::<Seq<(int, int)>>::empty());
        assert(s.map_values(q2) =~= Seq::<Seq<(int, int)>>::empty());
        assert(s.map_values(q3) =~= Seq::<Seq<(int, int)>>::empty());
        assert(s.map_values(q4) =~= Seq::<Seq<(int, int)>>::empty());
        assert(circle_points(s).to_multiset() =~=
            first_quadrant_points(s, 0).to_multiset()
                .add(second_quadrant_points(s, 0).to_multiset())
                .add(third_quadrant_points(s, 0).to_multiset())
                .add(fourth_quadrant_points(s, 0).to_multiset()));
    } else {
        let rest = s.drop_first();
        lemma_quadrants_partition(rest);
        lemma_row_partition(s[0].lo, s[0].hi, s[0].row);
        assert(s.map_values(f).drop_first() =~= rest.map_values(f));
        assert(s.map_values(q1).drop_first() =~= rest.map_values(q1));
        assert(s.map_values(q2).drop_first() =~= rest.map_values(q2));
        assert(s.map_values(q3).drop_first() =~= rest.map_values(q3));
        assert(s.map_values(q4).drop_first() =~= rest.map_values(q4));
        assert(circle_points(s) =~= f(s[0]) + circle_points(rest));
        assert(first_quadrant_points(s, 0) =~= q1(s[0]) + first_quadrant_points(rest, 0));
        assert(second_quadrant_points(s, 0) =~= q2(s[0]) + second_quadrant_points(rest, 0));
        assert(third_quadrant_points(s, 0) =~= q3(s[0]) + third_quadrant_points(rest, 0));
        assert(fourth_quadrant_points(s, 0) =~= q4(s[0]) + fourth_quadrant_points(rest, 0));
        vstd::seq_lib::lemma_multiset_commutative(f(s[0]), circle_points(rest));
        vstd::seq_lib::lemma_multiset_commutative(q1(s[0]), first_quadrant_points(rest, 0));
        vstd::seq_lib::lemma_multiset_commutative(q2(s[0]), second_quadrant_points(rest, 0));
        vstd::seq_lib::lemma_multiset_commutative(q3(s[0]), third_quadrant_points(rest, 0));
        vstd::seq_lib::lemma_multiset_commutative(q4(s[0]), fourth_quadrant_points(rest, 0));
        assert(q1(s[0]) == row_pts(0, s[0].hi, s[0].row));
        assert(q2(s[0]) == row_pts(s[0].lo, 0, s[0].row));
        assert(q3(s[0]) == row_pts(s[0].lo, 0, -s[0].row - 1));
        assert(q4(s[0]) == row_pts(0, s[0].hi, -s[0].row - 1));
        assert(circle_points(s).to_multiset() ==
            f(s[0]).to_multiset().add(circle_points(rest).to_multiset()));
        assert(first_quadrant_points(s, 0).to_multiset() ==
            q1(s[0]).to_multiset().add(first_quadrant_points(rest, 0).to_multiset()));
        assert(second_quadrant_points(s, 0).to_multiset() ==
            q2(s[0]).to_multiset().add(second_quadrant_points(rest, 0).to_multiset()));
        assert(third_quadrant_points(s, 0).to_multiset() ==
            q3(s[0]).to_multiset().add(third_quadrant_points(rest, 0).to_multiset()));
        assert(fourth_quadrant_points(s, 0).to_multiset() ==
            q4(s[0]).to_multiset().add(fourth_quadrant_points(rest, 0).to_multiset()));
        let total = first_quadrant_points(s, 0).to_multiset()
            .add(second_quadrant_points(s, 0).to_multiset())
            .add(third_quadrant_points(s, 0).to_multiset())
            .add(fourth_quadrant_points(s, 0).to_multiset());
        assert forall|p: (int, int)|
            #[trigger] circle_points(s).to_multiset().count(p) == total.count(p) by {
            assert(f(s[0]).to_multiset().count(p) ==
                q1(s[0]).to_multiset().count(p)
                + q2(s[0]).to_multiset().count(p)
                + q3(s[0]).to_multiset().count(p)
                + q4(s[0]).to_multiset().count(p));
        }
        assert(circle_points(s).to_multiset() =~= total);
    }
}

/// How many points of one span's mirrored pair of rows land on `p`.
pub open spec fn row_hits(sp: SpanRec, p: (int, int)) -> int {
    (if p.1 == sp.row && sp.lo <= p.0 < sp.hi { 1int } else { 0int })
        + (if p.1 == -sp.row - 1 && sp.lo <= p.0 < sp.hi { 1int } else { 0int })
}

/// How many points of the full circle of `s` land on `p`.
pub open spec fn circle_hits(s: Seq<SpanRec>, p: (int, int)) -> int
    decreases s.len(),
{
    if s.len() == 0 {
        0
    } else {
        row_hits(s[0], p) + circle_hits(s.drop_first(), p)
    }
}

/// The multiplicity of `p` in one row's points: one if `p` lies on the
/// row, zero otherwise.
proof fn lemma_row_pts_count(lo: int, hi: int, row: int, p: (int, int))
    ensures
        row_pts(lo, hi, row).to_multiset().count(p)
            == if p.1 == row && lo <= p.0 < hi { 1int } else { 0int },
    decreases hi - lo,
{
    broadcast use vstd::seq_lib::group_to_multiset_ensures;

    if hi <= lo {
        assert(row_pts(lo, hi, row).to_multiset() =~= Multiset::<(int, int)>::empty());
    } else {
        lemma_row_pts_count(lo, hi - 1, row, p);
        assert(row_pts(lo, hi, row) =~= row_pts(lo, hi - 1, row).push((hi - 1, row)));
    }
}

/// The multiplicity of `p` in the full circle is the number of rows
/// whose span or mirrored span covers it.
proof fn lemma_circle_hits(s: Seq<SpanRec>, p: (int, int))
    ensures
        circle_points(s).to_multiset().count(p) == circle_hits(s, p),
    decreases s.len(),
{
    broadcast use vstd::seq_lib::group_to_multiset_ensures;

    let f = |sp: SpanRec| row_pts_pair(sp.lo, sp.hi, sp.row);
    if s.len() == 0 {
        assert(s.map_values(f) =~= Seq::<Seq<(int, int)>>::empty());
        assert(circle_points(s).to_multiset() =~= Multiset::<(int, int)>::empty());
    } else {
        let rest = s.drop_first();
        lemma_circle_hits(rest, p);
        assert(s.map_values(f).drop_first() =~= rest.map_values(f));
        assert(circle_points(s) =~= f(s[0]) + circle_points(rest));
        vstd::seq_lib::lemma_multiset_commutative(f(s[0]), circle_points(rest));
        lemma_pair_multiset(s[0].lo, s[0].hi, s[0].row);
        lemma_row_pts_count(s[0].lo, s[0].hi, s[0].row, p);
        lemma_row_pts_count(s[0].lo, s[0].hi, -s[0].row - 1, p);
    }
}

/// No point at all lands on `p` when `p` matches neither a row nor a
/// mirrored row of `s`.
proof fn lemma_circle_hits_zero(s: Seq<SpanRec>, p: (int, int))
    requires
        forall|i: int| 0 <= i < s.len() ==>
            p.1 != (#[trigger] s[i]).row && p.1 != -s[i].row - 1,
    ensures
        circle_hits(s, p) == 0,
    decreases s.len(),
{
    if s.len() == 0 {
    } else {
        assert(forall|i: int| 0 <= i < s.drop_first().len() ==>
            #[trigger] s.drop_first()[i] == s[i + 1]);
        lemma_circle_hits_zero(s.drop_first(), p);
    }
}

/// On a span sequence with pairwise-distinct, negative rows — as the
/// generator emits them — the circle is an exactly-once tiling: no
/// point appears twice, and the point multiset is invariant under the
/// reflection across the equator, `(x, y)` to `(x, -y-1)`.
pub proof fn lemma_circle_exactly_once(s: Seq<SpanRec>)
    requires
        forall|i: int, j: int| 0 <= i < j < s.len() ==>
            (#[trigger] s[i]).row != (#[trigger] s[j]).row,
        forall|i: int| 0 <= i < s.len() ==> (#[trigger] s[i]).row <= -1,
    ensures
        forall|p: (int, int)|
            #[trigger] circle_points(s).to_multiset().count(p) <= 1,
        forall|p: (int, int)|
            #[trigger] circle_points(s).to_multiset().count(p)
                == circle_points(s).to_multiset().count((p.0, -p.1 - 1)),
{
    assert forall|p: (int, int)|
        #[trigger] circle_points(s).to_multiset().count(p) <= 1
        && circle_points(s).to_multiset().count(p)
            == circle_points(s).to_multiset().count((p.0, -p.1 - 1)) by {
        lemma_circle_hits(s, p);
        lemma_circle_hits(s, (p.0, -p.1 - 1));
        lemma_circle_hits_bound(s, p);
        lemma_circle_hits_reflect(s, p);
    }
}

/// At most one row of a distinct-negative-row sequence covers `p`.
proof fn lemma_circle_hits_bound(s: Seq<SpanRec>, p: (int, int))
    requires
        forall|i: int, j: int| 0 <= i < j < s.len() ==>
            (#[trigger] s[i]).row != (#[trigger] s[j]).row,
        forall|i: int| 0 <= i < s.len() ==> (#[trigger] s[i]).row <= -1,
    ensures
        0 <= circle_hits(s, p) <= 1,
    decreases s.len(),
{
    if s.len() == 0 {
    } else {
        let rest = s.drop_first();
        assert(forall|i: int| 0 <= i < rest.len() ==>
            #[trigger] rest[i] == s[i + 1]);
        lemma_circle_hits_bound(rest, p);
        if row_hits(s[0], p) > 0 {
            // A row and its mirror sit on opposite sides of the
            // equator, so the head contributes one point at most, and
            // every other row misses `p` outright.
            assert(row_hits(s[0], p) == 1);
            assert(forall|i: int| 0 <= i < rest.len() ==>
                p.1 != (#[trigger] rest[i]).row && p.1 != -rest[i].row - 1);
            lemma_circle_hits_zero(rest, p);
        }
    }
}

/// Reflecting `p` across the equator leaves its hit count unchanged:
/// each row trades places with its mirror.
proof fn lemma_circle_hits_reflect(s: Seq<SpanRec>, p: (int, int))
    ensures
        circle_hits(s, p) == circle_hits(s, (p.0, -p.1 - 1)),
    decreases s.len(),
{
    if s.len() == 0 {
    } else {
        lemma_circle_hits_reflect(s.drop_first(), p);
    }
}

/// The full circle of a generator's drain is an exactly-once,
/// reflection-symmetric tiling: rows of the drain are pairwise distinct
/// and negative, so no point of the disc is emitted twice, and the
/// point multiset maps onto itself under `(x, y)` to `(x, -y-1)`.
pub proof fn lemma_generator_circle_exactly_once(r: int)
    requires
        0 <= r,
    ensures
        forall|p: (int, int)|
            #[trigger] circle_points(crate::generator::spans_of(
                crate::generator::init_walk(r))).to_multiset().count(p) <= 1,
        forall|p: (int, int)|
            #[trigger] circle_points(crate::generator::spans_of(
                crate::generator::init_walk(r))).to_multiset().count(p)
                == circle_points(crate::generator::spans_of(
                    crate::generator::init_walk(r))).to_multiset().count((p.0, -p.1 - 1)),
{
    crate::generator::lemma_generator_spans(r);
    lemma_circle_exactly_once(crate::generator::spans_of(crate::generator::init_walk(r)));
}

} // verus!