//! The boundary generator: a midpoint-style state machine that walks the
//! arc of a disc and emits one horizontal span per row, from the equator
//! toward the pole. A reverse walk reads the same transitions from the
//! pole end, and a generator carries one cursor for each end; the two
//! cursors never cross, so any mix of front and back pulls hands out
//! every row exactly once.

use vstd::prelude::*;

verus! {

use crate::MAX_RADIUS;

/// One horizontal run of pixels: the half-open interval `[start, end)`
/// of x-coordinates on a single row.
#[derive(Debug, Clone, Copy, PartialEq, Eq, Structural)]
pub struct Span {
    pub start: i64,
    pub end: i64,
}

/// Mathematical model of the walk state.
pub ghost struct Walk {
    pub x: int,
    pub y: int,
    pub err: int,
}

/// A span together with its row index: the pixels `[lo, hi)` on row `row`.
pub ghost struct SpanRec {
    pub lo: int,
    pub hi: int,
    pub row: int,
}

/// An iterator-like generator of successive spans of a filled semicircle,
/// walking the boundary with only integer additions and comparisons.
///
/// The generator can be pulled from both ends. Each end keeps its own
/// cursor over the same walk: the front cursor (`x`, `y`, `err`) starts
/// at the equator and emits one row per pull toward the pole; the back
/// cursor (`back_x`, `back_y`, `back_err`) starts from the same state
/// and emits one row per pull from the pole toward the equator. The two
/// cursors never cross: once every row has been taken by one end or the
/// other, both ends report "no more items", and they stay exhausted.
#[derive(Debug, Clone, PartialEq, Eq, Structural)]
pub struct SemicircleFilled<T> {
    x: T,
    y: T,
    err: T,
    back_x: T,
    back_y: T,
    back_err: T,
}

/// Mathematical model of a double-ended generator: the two cursors'
/// walk states.
pub ghost struct Ends {
    pub front: Walk,
    pub back: Walk,
}

impl View for SemicircleFilled<i32> {
    type V = Ends;

    closed spec fn view(&self) -> Ends {
        Ends {
            front: Walk { x: self.x as int, y: self.y as int, err: self.err as int },
            back: Walk {
                x: self.back_x as int,
                y: self.back_y as int,
                err: self.back_err as int,
            },
        }
    }
}

impl View for SemicircleFilled<i64> {
    type V = Ends;

    closed spec fn view(&self) -> Ends {
        Ends {
            front: Walk { x: self.x as int, y: self.y as int, err: self.err as int },
            back: Walk {
                x: self.back_x as int,
                y: self.back_y as int,
                err: self.back_err as int,
            },
        }
    }
}

impl View for SemicircleFilled<isize> {
    type V = Ends;

    closed spec fn view(&self) -> Ends {
        Ends {
            front: Walk { x: self.x as int, y: self.y as int, err: self.err as int },
            back: Walk {
                x: self.back_x as int,
                y: self.back_y as int,
                err: self.back_err as int,
            },
        }
    }
}

/// The state a walk of radius `r` starts from.
pub open spec fn init_walk(r: int) -> Walk {
    Walk { x: -r, y: 0, err: 2 - 2 * r }
}

/// One raw transition of the midpoint recurrence: rule A may advance the
/// row coordinate `y`, then rule B may advance the column coordinate `x`;
/// each advance corrects the error accumulator.
pub open spec fn micro_step(s: Walk) -> Walk {
    let e0 = s.err;
    let y1 = if e0 <= s.y { s.y + 1 } else { s.y };
    let err1 = if e0 <= s.y { s.err + 2 * (s.y + 1) + 2 } else { s.err };
    let x1 = if e0 > s.x || err1 > y1 { s.x + 1 } else { s.x };
    let err2 = if e0 > s.x || err1 > y1 { err1 + 2 * (s.x + 1) + 2 } else { err1 };
    Walk { x: x1, y: y1, err: err2 }
}

/// The state after one forward pull: transitions are applied until the
/// row changes or the walk reaches the axis.
pub open spec fn call_step(s: Walk) -> Walk
    decreases 0 - s.x,
{
    if s.x >= 0 {
        s
    } else {
        let t = micro_step(s);
        if t.y != s.y || t.x == 0 {
            t
        } else {
            call_step(t)
        }
    }
}

/// Bounds the number of transitions the walk can take while `x` stands
/// still: the accumulator rises toward `x` and rule B must then fire.
pub open spec fn stall_measure(s: Walk) -> int {
    if s.x - s.err + 1 >= 0 {
        s.x - s.err + 1
    } else {
        0
    }
}

/// How a forward pull moves the state: `x` never retreats, the row
/// advances by exactly one unless the walk ends on the axis, and a pull
/// that leaves `x` in place was a single row-advancing transition.
pub proof fn lemma_call_step_progress(s: Walk)
    requires
        s.x < 0,
    ensures
        s.x <= call_step(s).x <= 0,
        call_step(s).y == s.y + 1 || call_step(s).y == s.y,
        call_step(s).y == s.y ==> call_step(s).x == 0,
        call_step(s).x == s.x ==> call_step(s).y == s.y + 1
            && call_step(s).err == s.err + 2 * s.y + 4 && s.err <= s.x,
    decreases 0 - s.x,
{
    let t = micro_step(s);
    if t.y != s.y || t.x == 0 {
    } else {
        lemma_call_step_progress(t);
    }
}

/// The sequence of spans a forward drain emits from state `s`: one span
/// per pull, `[x, -x)` at row `-(y+1)`, until the walk reaches the axis.
pub open spec fn spans_of(s: Walk) -> Seq<SpanRec>
    decreases 0 - s.x, stall_measure(s),
        when s.x <= 0 && 0 <= s.y
{
    if s.x >= 0 {
        Seq::empty()
    } else {
        proof {
            lemma_call_step_progress(s);
        }
        let t = call_step(s);
        seq![SpanRec { lo: s.x, hi: -s.x, row: -(s.y + 1) }] + spans_of(t)
    }
}

/// Inductive invariant of a walk of radius `r`. The accumulator always
/// equals a fixed quadratic in the coordinates, which records how far the
/// current pixel corner is from the true circle, and the coordinates stay
/// pinned to the arc: the walk reaches the axis exactly in the last row.
pub open spec fn inv(s: Walk, r: int) -> bool {
    &&& s.err == s.x * s.x + 3 * s.x + s.y * s.y + 3 * s.y + 2 + r - r * r
    &&& -r <= s.x <= 0
    &&& 0 <= s.y
    &&& (s.x < 0 ==> s.y <= r - 1)
    &&& (s.x == 0 ==> r - 1 <= s.y <= r)
    &&& (s.x == -1 ==> s.y == r - 1)
    &&& 4 * s.x + 2 <= s.err
    &&& s.err <= 4 * s.y + 2
}

/// Every raw transition of a live walk preserves the invariant.
pub proof fn lemma_micro_preserves(s: Walk, r: int)
    requires
        inv(s, r),
        s.x < 0,
    ensures
        inv(micro_step(s), r),
{
    let t = micro_step(s);
    let e0 = s.err;
    let a = e0 <= s.y;
    let y1 = if a { s.y + 1 } else { s.y };
    let err1 = if a { s.err + 2 * (s.y + 1) + 2 } else { s.err };
    let b = e0 > s.x || err1 > y1;

    assert((s.y + 1) * (s.y + 1) == s.y * s.y + 2 * s.y + 1) by (nonlinear_arith);
    assert((s.x + 1) * (s.x + 1) == s.x * s.x + 2 * s.x + 1) by (nonlinear_arith);

    // Rule A cannot fire in the last row (for r >= 2): the accumulator
    // is already too large there.
    if a && s.y == r - 1 && s.x <= -2 {
        assert(s.x * s.x + 3 * s.x >= -2) by (nonlinear_arith);
        assert(s.y * s.y + 3 * s.y == r * r + r - 2) by (nonlinear_arith)
            requires s.y == r - 1;
        assert(false);
    }

    // The transition that steps onto the column x == -1 lands in the
    // last row; likewise the one that stays on x == -2 cannot leave the
    // last row unreached.
    if t.x == -1 {
        assert(s.x == -2 || s.x == -1);
        if s.x == -1 {
            // From x == -1 rule B always fires, so t.x would be 0.
            assert(s.y == r - 1);
            assert(s.err == 2 * r - 2) by (nonlinear_arith)
                requires s.x == -1 && s.y == r - 1
                    && s.err == s.x * s.x + 3 * s.x + s.y * s.y + 3 * s.y + 2 + r - r * r;
            assert(false);
        } else {
            // B did not fire on the step from -2 to -1, so this step is
            // the advance from -2; show the row is r - 1 afterwards.
            assert(s.err == s.y * s.y + 3 * s.y + r - r * r) by (nonlinear_arith)
                requires s.x == -2
                    && s.err == s.x * s.x + 3 * s.x + s.y * s.y + 3 * s.y + 2 + r - r * r;
            if !a {
                // y unchanged; if the row were earlier, the accumulator
                // would be negative and rule A would have fired.
                if s.y <= r - 2 {
                    assert(s.y * s.y + 3 * s.y <= r * r - r - 2) by (nonlinear_arith)
                        requires 0 <= s.y <= r - 2;
                    assert(false);
                }
            } else {
                // y advanced; the entry row can only have been r - 2.
                if s.y <= r - 3 {
                    assert(s.y * s.y + 3 * s.y <= r * r - 3 * r) by (nonlinear_arith)
                        requires 0 <= s.y <= r - 3;
                    assert((s.y + 1) * (s.y + 4) <= r * r - r - 2) by (nonlinear_arith)
                        requires 0 <= s.y <= r - 3;
                    assert(err1 == (s.y + 1) * (s.y + 4) + r - r * r) by (nonlinear_arith)
                        requires err1 == s.err + 2 * s.y + 4
                            && s.err == s.y * s.y + 3 * s.y + r - r * r;
                    assert(!b);
                    assert(false);
                }
            }
        }
    }

    if t.x == 0 {
        assert(s.x == -1);
    }
}

/// The starting state of any radius satisfies the invariant.
pub proof fn lemma_init_inv(r: int)
    requires
        0 <= r,
    ensures
        inv(init_walk(r), r),
{
    assert((-r) * (-r) == r * r) by (nonlinear_arith);
}

/// A forward pull preserves the invariant; it either advances the row by
/// one or ends the walk, and it can end the walk only from the last row.
pub proof fn lemma_call_preserves(s: Walk, r: int)
    requires
        inv(s, r),
        s.x < 0,
    ensures
        inv(call_step(s), r),
        call_step(s).y == s.y + 1 || (call_step(s).y == s.y && call_step(s).x == 0),
        call_step(s).x >= s.x,
        call_step(s).x == 0 ==> s.y == r - 1,
    decreases 0 - s.x,
{
    let t = micro_step(s);
    lemma_micro_preserves(s, r);
    if t.y != s.y || t.x == 0 {
        if t.x == 0 {
            assert(s.x == -1);
        }
    } else {
        lemma_call_preserves(t, r);
    }
}

/// The spans of a drain from an invariant state: one span per remaining
/// row, rows consecutive toward the pole, each span symmetric about the
/// vertical axis, half-widths positive, at most `r`, and non-increasing.
pub proof fn lemma_spans_structure(s: Walk, r: int)
    requires
        inv(s, r),
    ensures
        spans_of(s).len() == if s.x == 0 { 0int } else { r - s.y },
        forall|i: int| 0 <= i < spans_of(s).len() ==> {
            let sp = #[trigger] spans_of(s)[i];
            &&& sp.row == -(s.y + 1 + i)
            &&& sp.hi == -sp.lo
            &&& 0 < sp.hi <= r
        },
        forall|i: int, j: int| 0 <= i <= j < spans_of(s).len() ==>
            #[trigger] spans_of(s)[i].hi >= #[trigger] spans_of(s)[j].hi,
    decreases 0 - s.x, stall_measure(s),
{
    if s.x >= 0 {
    } else {
        lemma_call_step_progress(s);
        let t = call_step(s);
        lemma_call_preserves(s, r);
        lemma_spans_structure(t, r);
        let head = SpanRec { lo: s.x, hi: -s.x, row: -(s.y + 1) };
        assert(spans_of(s) == seq![head] + spans_of(t));
        assert(spans_of(s)[0] == head);
        assert(forall|i: int| 0 < i < spans_of(s).len() ==>
            #[trigger] spans_of(s)[i] == spans_of(t)[i - 1]);
        if spans_of(t).len() > 0 {
            assert(spans_of(t)[0].hi == -t.x);
        }
    }
}

/// The full forward drain of radius `r`: exactly `r` spans, rows
/// `-1, -2, ..., -r` in order, each span symmetric with positive
/// half-width at most `r`, half-widths non-increasing toward the pole.
pub proof fn lemma_generator_spans(r: int)
    requires
        0 <= r,
    ensures
        spans_of(init_walk(r)).len() == r,
        forall|i: int| 0 <= i < r ==> {
            let sp = #[trigger] spans_of(init_walk(r))[i];
            &&& sp.row == -(1 + i)
            &&& sp.hi == -sp.lo
            &&& 0 < sp.hi <= r
        },
        forall|i: int, j: int| 0 <= i <= j < r ==>
            #[trigger] spans_of(init_walk(r))[i].hi
                >= #[trigger] spans_of(init_walk(r))[j].hi,
{
    lemma_init_inv(r);
    lemma_spans_structure(init_walk(r), r);
}

/// The state after one backward pull: transitions are applied until the
/// column advances once.
pub open spec fn back_run(s: Walk) -> Walk
    decreases stall_measure(s),
        when s.x < 0 && 0 <= s.y
{
    let t = micro_step(s);
    if t.x != s.x {
        t
    } else {
        back_run(t)
    }
}

/// Half-width of the span a backward pull emits from `s`: one more than
/// the row coordinate at the transition that advances the column.
pub open spec fn back_half(s: Walk) -> int
    decreases stall_measure(s),
        when s.x < 0 && 0 <= s.y
{
    let t = micro_step(s);
    if t.x != s.x {
        s.y + 1
    } else {
        back_half(t)
    }
}

/// How a backward pull moves the state: the column advances by exactly
/// one, the row does not retreat, and the emitted half-width is one more
/// than the row coordinate reached just before the column advanced.
pub proof fn lemma_back_run_progress(s: Walk)
    requires
        s.x < 0,
        0 <= s.y,
    ensures
        back_run(s).x == s.x + 1,
        back_run(s).y >= s.y,
        back_half(s) == back_run(s).y || back_half(s) == back_run(s).y + 1,
        back_half(s) >= s.y + 1,
    decreases stall_measure(s),
{
    let t = micro_step(s);
    if t.x != s.x {
    } else {
        lemma_back_run_progress(t);
    }
}

/// Backward pulls preserve the invariant.
pub proof fn lemma_back_run_preserves(s: Walk, r: int)
    requires
        inv(s, r),
        s.x < 0,
    ensures
        inv(back_run(s), r),
    decreases stall_measure(s),
{
    let t = micro_step(s);
    lemma_micro_preserves(s, r);
    if t.x != s.x {
    } else {
        lemma_back_run_preserves(t, r);
    }
}

/// The sequence of spans a backward drain emits from state `s`: one span
/// per pull, `[-h, h)` at row one below the newly reached column, until
/// the walk reaches the axis.
pub open spec fn back_spans(s: Walk) -> Seq<SpanRec>
    decreases 0 - s.x,
        when s.x <= 0 && 0 <= s.y
{
    if s.x >= 0 {
        Seq::empty()
    } else {
        proof {
            lemma_back_run_progress(s);
        }
        let t = back_run(s);
        seq![SpanRec { lo: -back_half(s), hi: back_half(s), row: t.x - 1 }]
            + back_spans(t)
    }
}

/// The spans of a backward drain from an invariant state: one span per
/// remaining column, rows consecutive from the pole toward the equator,
/// each span symmetric with positive half-width at most `r`, half-widths
/// non-decreasing toward the equator.
pub proof fn lemma_back_spans_structure(s: Walk, r: int)
    requires
        inv(s, r),
    ensures
        back_spans(s).len() == -s.x,
        forall|i: int| 0 <= i < back_spans(s).len() ==> {
            let sp = #[trigger] back_spans(s)[i];
            &&& sp.row == s.x + i
            &&& sp.hi == -sp.lo
            &&& s.y < sp.hi <= r
        },
        forall|i: int, j: int| 0 <= i <= j < back_spans(s).len() ==>
            #[trigger] back_spans(s)[i].hi <= #[trigger] back_spans(s)[j].hi,
    decreases 0 - s.x,
{
    if s.x >= 0 {
    } else {
        lemma_back_run_progress(s);
        lemma_back_run_preserves(s, r);
        let t = back_run(s);
        lemma_back_spans_structure(t, r);
        let h = back_half(s);
        let head = SpanRec { lo: -h, hi: h, row: t.x - 1 };
        assert(back_spans(s) == seq![head] + back_spans(t));
        // Half-width bound: h is one more than a row coordinate the walk
        // passes through before the column advances, so it stays within
        // the disc.
        lemma_back_half_bound(s, r);
    }
}

/// The emitted half-width of a backward pull stays within the disc: it
/// exceeds the entry row but is at most `r`.
pub proof fn lemma_back_half_bound(s: Walk, r: int)
    requires
        inv(s, r),
        s.x < 0,
    ensures
        s.y < back_half(s) <= r,
    decreases stall_measure(s),
{
    let t = micro_step(s);
    lemma_micro_preserves(s, r);
    if t.x != s.x {
        // h == s.y + 1 and s.y <= r - 1 while the column is negative.
    } else {
        lemma_back_half_bound(t, r);
    }
}

/// A generator is well-formed when both cursors satisfy the walk
/// invariant of one representable radius.
pub open spec fn wf_ends(g: Ends) -> bool {
    exists|r: int| 0 <= r < MAX_RADIUS as int
        && #[trigger] inv(g.front, r) && inv(g.back, r)
}

/// Both ends are out of rows: the front cursor ran the whole walk, or
/// the rows it has taken from the equator meet the rows the back cursor
/// has taken from the pole.
pub open spec fn exhausted(g: Ends) -> bool {
    g.front.x == 0 || g.front.y >= -g.back.x
}

/// How many rows are still unclaimed by either end.
pub open spec fn quota(g: Ends) -> int {
    if exhausted(g) {
        0
    } else {
        -g.back.x - g.front.y
    }
}

/// The record an emitted `(Span, row)` pair stands for.
pub open spec fn rec_of(sp: Span, row: i64) -> SpanRec {
    SpanRec { lo: sp.start as int, hi: sp.end as int, row: row as int }
}

/// The records a vector of emitted `(Span, row)` pairs stands for.
pub open spec fn spans_view(v: Seq<(Span, i64)>) -> Seq<SpanRec> {
    v.map_values(|p: (Span, i64)| rec_of(p.0, p.1))
}

impl SemicircleFilled<i32> {
    /// Both cursors are reachable from one representable radius.
    pub open spec fn wf(self) -> bool {
        wf_ends(self@)
    }

    /// Creates a generator that walks the boundary of a disc of the
    /// given radius with 32-bit internal arithmetic.
    ///
    /// A radius of `0` yields a generator that is exhausted at once.
    pub fn new(radius: u64) -> (result: Self)
        requires
            radius < MAX_RADIUS,
        ensures
            result@.front == init_walk(radius as int),
            result@.back == init_walk(radius as int),
            result.wf(),
    {
        let r = radius as i32;
        let g = SemicircleFilled {
            x: -r,
            y: 0,
            err: 2 - 2 * r,
            back_x: -r,
            back_y: 0,
            back_err: 2 - 2 * r,
        };
        proof {
            lemma_init_inv(radius as int);
            assert(g@.front == init_walk(radius as int));
            assert(g@.back == init_walk(radius as int));
            assert(inv(g@.front, radius as int) && inv(g@.back, radius as int));
        }
        g
    }

    /// Emits the next span from the equator end: `[x, -x)` at row
    /// `-(y+1)`, or `None` once no row is left for this end — because
    /// the front cursor ran the whole walk, or because the remaining
    /// rows were taken from the pole end. An exhausted generator stays
    /// exhausted, and a pull never touches the back cursor.
    pub fn next(&mut self) -> (result: Option<(Span, i64)>)
        requires
            old(self).wf(),
        ensures
            final(self).wf(),
            exhausted(old(self)@) ==> result is None && final(self)@ == old(self)@,
            !exhausted(old(self)@) ==> {
                &&& result matches Some(p)
                    && rec_of(p.0, p.1) == spans_of(old(self)@.front)[0]
                &&& spans_of(old(self)@.front).len() > 0
                &&& final(self)@.front == call_step(old(self)@.front)
                &&& final(self)@.back == old(self)@.back
                &&& spans_of(final(self)@.front)
                    == spans_of(old(self)@.front).drop_first()
                &&& quota(final(self)@) == quota(old(self)@) - 1
            },
    {
        let ghost orig: Ends = self@;
        let ghost r: int = choose|r: int|
            0 <= r < MAX_RADIUS as int
                && #[trigger] inv(orig.front, r) && inv(orig.back, r);
        if self.x == 0 {
            return None;
        }
        if self.y >= -self.back_x {
            return None;
        }
        let span = Span { start: self.x as i64, end: -(self.x as i64) };
        let row = -(self.y as i64 + 1);
        #[verifier::loop_isolation(false)]
        loop
            invariant
                inv(self@.front, r),
                self@.front.x < 0,
                self@.front.y == orig.front.y,
                self@.back == orig.back,
                call_step(orig.front) == call_step(self@.front),
            decreases 0 - self@.front.x,
        {
            let ghost pre = self@.front;
            let y_tmp = self.y;
            let err_tmp = self.err;
            if err_tmp <= self.y {
                self.y = self.y + 1;
                self.err = self.err + 2 * self.y + 2;
            }
            if err_tmp > self.x || self.err > self.y {
                self.x = self.x + 1;
                self.err = self.err + 2 * self.x + 2;
            }
            proof {
                assert(self@.front == micro_step(pre));
                lemma_micro_preserves(pre, r);
            }
            if y_tmp != self.y || self.x == 0 {
                break;
            }
        }
        proof {
            lemma_call_preserves(orig.front, r);
            assert(spans_of(orig.front) ==
                seq![SpanRec {
                    lo: orig.front.x,
                    hi: -orig.front.x,
                    row: -(orig.front.y + 1),
                }] + spans_of(call_step(orig.front)));
            assert(spans_of(self@.front) =~= spans_of(orig.front).drop_first());
            // The quota falls by exactly one: either the next row is
            // still free, or this was the last free row and the
            // generator is now exhausted.
            if self@.front.x == 0 {
                assert(orig.front.y == r - 1);
                assert(orig.back.x == -r);
            }
            assert(inv(self@.front, r) && inv(self@.back, r));
        }
        Some((span, row))
    }

    /// Emits the next span from the pole end: the back cursor advances
    /// until its column moves once, then reports `[-h, h)` at the row
    /// just below the new column, where `h` is one more than the row
    /// coordinate the cursor reached. `None` once no row is left for
    /// this end; a pull never touches the front cursor.
    pub fn next_back(&mut self) -> (result: Option<(Span, i64)>)
        requires
            old(self).wf(),
        ensures
            final(self).wf(),
            exhausted(old(self)@) ==> result is None && final(self)@ == old(self)@,
            !exhausted(old(self)@) ==> {
                &&& result matches Some(p)
                    && rec_of(p.0, p.1) == back_spans(old(self)@.back)[0]
                &&& back_spans(old(self)@.back).len() > 0
                &&& final(self)@.back == back_run(old(self)@.back)
                &&& final(self)@.front == old(self)@.front
                &&& back_spans(final(self)@.back)
                    == back_spans(old(self)@.back).drop_first()
                &&& quota(final(self)@) == quota(old(self)@) - 1
            },
    {
        let ghost orig: Ends = self@;
        let ghost r: int = choose|r: int|
            0 <= r < MAX_RADIUS as int
                && #[trigger] inv(orig.front, r) && inv(orig.back, r);
        if self.x == 0 {
            return None;
        }
        if self.y >= -self.back_x {
            return None;
        }
        proof {
            assert(orig.back.x < 0);
            lemma_back_run_progress(orig.back);
            lemma_back_run_preserves(orig.back, r);
            assert(back_spans(orig.back) ==
                seq![SpanRec {
                    lo: -back_half(orig.back),
                    hi: back_half(orig.back),
                    row: back_run(orig.back).x - 1,
                }] + back_spans(back_run(orig.back)));
        }
        #[verifier::loop_isolation(false)]
        loop
            invariant
                inv(self@.back, r),
                self@.back.x < 0,
                self@.back.x == orig.back.x,
                self@.front == orig.front,
                back_run(orig.back) == back_run(self@.back),
                back_half(orig.back) == back_half(self@.back),
            decreases stall_measure(self@.back),
        {
            let ghost pre = self@.back;
            let x_tmp = self.back_x;
            let y_tmp = self.back_y;
            let err_tmp = self.back_err;
            if err_tmp <= self.back_y {
                self.back_y = self.back_y + 1;
                self.back_err = self.back_err + 2 * self.back_y + 2;
            }
            if err_tmp > self.back_x || self.back_err > self.back_y {
                self.back_x = self.back_x + 1;
                self.back_err = self.back_err + 2 * self.back_x + 2;
                proof {
                    assert(self@.back == micro_step(pre));
                    lemma_micro_preserves(pre, r);
                }
                if self.back_y == y_tmp {
                    let h = self.back_y as i64 + 1;
                    proof {
                        assert(back_half(pre) == pre.y + 1);
                        assert(back_spans(self@.back) =~=
                            back_spans(orig.back).drop_first());
                        assert(inv(self@.front, r) && inv(self@.back, r));
                    }
                    return Some((
                        Span { start: -h, end: h },
                        self.back_x as i64 - 1,
                    ));
                }
            } else {
                proof {
                    assert(self@.back == micro_step(pre));
                    lemma_micro_preserves(pre, r);
                }
            }
            if x_tmp != self.back_x {
                let h = self.back_y as i64;
                proof {
                    assert(back_half(pre) == pre.y + 1);
                    assert(back_spans(self@.back) =~=
                        back_spans(orig.back).drop_first());
                    assert(inv(self@.front, r) && inv(self@.back, r));
                }
                return Some((
                    Span { start: -h, end: h },
                    self.back_x as i64 - 1,
                ));
            }
        }
    }

    /// Drains the generator from the equator end and collects every
    /// span this end can still emit, in order.
    pub fn spans(self) -> (v: Vec<(Span, i64)>)
        requires
            self.wf(),
        ensures
            spans_view(v@) == spans_of(self@.front).take(quota(self@)),
    {
        let ghost start: Ends = self@;
        let mut g = self;
        let mut v: Vec<(Span, i64)> = Vec::new();
        proof {
            let r = choose|r: int|
                0 <= r < MAX_RADIUS as int
                    && #[trigger] inv(start.front, r) && inv(start.back, r);
            lemma_spans_structure(start.front, r);
            lemma_quota_in_range(start, r);
        }
        #[verifier::loop_isolation(false)]
        loop
            invariant
                g.wf(),
                quota(g@) <= spans_of(g@.front).len(),
                spans_view(v@) + spans_of(g@.front).take(quota(g@))
                    =~= spans_of(start.front).take(quota(start)),
            decreases quota(g@),
        {
            match g.next() {
                Some(p) => {
                    v.push(p);
                    proof {
                        assert(spans_view(v@) =~=
                            spans_view(v@.drop_last()).push(rec_of(p.0, p.1)));
                    }
                }
                None => {
                    proof {
                        assert(spans_view(v@) =~=
                            spans_of(start.front).take(quota(start)));
                    }
                    return v;
                }
            }
        }
    }

    /// Drains the generator from the pole end and collects every span
    /// this end can still emit, in order of emission, pole row first.
    /// On a freshly built generator the result, reversed, is exactly
    /// what `spans` yields (`symmetry::lemma_reverse_equals_forward`).
    pub fn rev(self) -> (v: Vec<(Span, i64)>)
        requires
            self.wf(),
        ensures
            spans_view(v@) == back_spans(self@.back).take(quota(self@)),
    {
        let ghost start: Ends = self@;
        let mut g = self;
        let mut v: Vec<(Span, i64)> = Vec::new();
        proof {
            let r = choose|r: int|
                0 <= r < MAX_RADIUS as int
                    && #[trigger] inv(start.front, r) && inv(start.back, r);
            lemma_back_spans_structure(start.back, r);
            lemma_quota_in_range(start, r);
        }
        #[verifier::loop_isolation(false)]
        loop
            invariant
                g.wf(),
                quota(g@) <= back_spans(g@.back).len(),
                spans_view(v@) + back_spans(g@.back).take(quota(g@))
                    =~= back_spans(start.back).take(quota(start)),
            decreases quota(g@),
        {
            match g.next_back() {
                Some(p) => {
                    v.push(p);
                    proof {
                        assert(spans_view(v@) =~=
                            spans_view(v@.drop_last()).push(rec_of(p.0, p.1)));
                    }
                }
                None => {
                    proof {
                        assert(spans_view(v@) =~=
                            back_spans(start.back).take(quota(start)));
                    }
                    return v;
                }
            }
        }
    }
}

impl SemicircleFilled<i64> {
    /// Both cursors are reachable from one representable radius.
    pub open spec fn wf(self) -> bool {
        wf_ends(self@)
    }

    /// Creates a generator that walks the boundary of a disc of the
    /// given radius with 64-bit internal arithmetic.
    ///
    /// A radius of `0` yields a generator that is exhausted at once.
    pub fn new(radius: u64) -> (result: Self)
        requires
            radius < MAX_RADIUS,
        ensures
            result@.front == init_walk(radius as int),
            result@.back == init_walk(radius as int),
            result.wf(),
    {
        let r = radius as i64;
        let g = SemicircleFilled {
            x: -r,
            y: 0,
            err: 2 - 2 * r,
            back_x: -r,
            back_y: 0,
            back_err: 2 - 2 * r,
        };
        proof {
            lemma_init_inv(radius as int);
            assert(g@.front == init_walk(radius as int));
            assert(g@.back == init_walk(radius as int));
            assert(inv(g@.front, radius as int) && inv(g@.back, radius as int));
        }
        g
    }

    /// Emits the next span from the equator end: `[x, -x)` at row
    /// `-(y+1)`, or `None` once no row is left for this end — because
    /// the front cursor ran the whole walk, or because the remaining
    /// rows were taken from the pole end. An exhausted generator stays
    /// exhausted, and a pull never touches the back cursor.
    pub fn next(&mut self) -> (result: Option<(Span, i64)>)
        requires
            old(self).wf(),
        ensures
            final(self).wf(),
            exhausted(old(self)@) ==> result is None && final(self)@ == old(self)@,
            !exhausted(old(self)@) ==> {
                &&& result matches Some(p)
                    && rec_of(p.0, p.1) == spans_of(old(self)@.front)[0]
                &&& spans_of(old(self)@.front).len() > 0
                &&& final(self)@.front == call_step(old(self)@.front)
                &&& final(self)@.back == old(self)@.back
                &&& spans_of(final(self)@.front)
                    == spans_of(old(self)@.front).drop_first()
                &&& quota(final(self)@) == quota(old(self)@) - 1
            },
    {
        let ghost orig: Ends = self@;
        let ghost r: int = choose|r: int|
            0 <= r < MAX_RADIUS as int
                && #[trigger] inv(orig.front, r) && inv(orig.back, r);
        if self.x == 0 {
            return None;
        }
        if self.y >= -self.back_x {
            return None;
        }
        let span = Span { start: self.x as i64, end: -(self.x as i64) };
        let row = -(self.y as i64 + 1);
        #[verifier::loop_isolation(false)]
        loop
            invariant
                inv(self@.front, r),
                self@.front.x < 0,
                self@.front.y == orig.front.y,
                self@.back == orig.back,
                call_step(orig.front) == call_step(self@.front),
            decreases 0 - self@.front.x,
        {
            let ghost pre = self@.front;
            let y_tmp = self.y;
            let err_tmp = self.err;
            if err_tmp <= self.y {
                self.y = self.y + 1;
                self.err = self.err + 2 * self.y + 2;
            }
            if err_tmp > self.x || self.err > self.y {
                self.x = self.x + 1;
                self.err = self.err + 2 * self.x + 2;
            }
            proof {
                assert(self@.front == micro_step(pre));
                lemma_micro_preserves(pre, r);
            }
            if y_tmp != self.y || self.x == 0 {
                break;
            }
        }
        proof {
            lemma_call_preserves(orig.front, r);
            assert(spans_of(orig.front) ==
                seq![SpanRec {
                    lo: orig.front.x,
                    hi: -orig.front.x,
                    row: -(orig.front.y + 1),
                }] + spans_of(call_step(orig.front)));
            assert(spans_of(self@.front) =~= spans_of(orig.front).drop_first());
            // The quota falls by exactly one: either the next row is
            // still free, or this was the last free row and the
            // generator is now exhausted.
            if self@.front.x == 0 {
                assert(orig.front.y == r - 1);
                assert(orig.back.x == -r);
            }
            assert(inv(self@.front, r) && inv(self@.back, r));
        }
        Some((span, row))
    }

    /// Emits the next span from the pole end: the back cursor advances
    /// until its column moves once, then reports `[-h, h)` at the row
    /// just below the new column, where `h` is one more than the row
    /// coordinate the cursor reached. `None` once no row is left for
    /// this end; a pull never touches the front cursor.
    pub fn next_back(&mut self) -> (result: Option<(Span, i64)>)
        requires
            old(self).wf(),
        ensures
            final(self).wf(),
            exhausted(old(self)@) ==> result is None && final(self)@ == old(self)@,
            !exhausted(old(self)@) ==> {
                &&& result matches Some(p)
                    && rec_of(p.0, p.1) == back_spans(old(self)@.back)[0]
                &&& back_spans(old(self)@.back).len() > 0
                &&& final(self)@.back == back_run(old(self)@.back)
                &&& final(self)@.front == old(self)@.front
                &&& back_spans(final(self)@.back)
                    == back_spans(old(self)@.back).drop_first()
                &&& quota(final(self)@) == quota(old(self)@) - 1
            },
    {
        let ghost orig: Ends = self@;
        let ghost r: int = choose|r: int|
            0 <= r < MAX_RADIUS as int
                && #[trigger] inv(orig.front, r) && inv(orig.back, r);
        if self.x == 0 {
            return None;
        }
        if self.y >= -self.back_x {
            return None;
        }
        proof {
            assert(orig.back.x < 0);
            lemma_back_run_progress(orig.back);
            lemma_back_run_preserves(orig.back, r);
            assert(back_spans(orig.back) ==
                seq![SpanRec {
                    lo: -back_half(orig.back),
                    hi: back_half(orig.back),
                    row: back_run(orig.back).x - 1,
                }] + back_spans(back_run(orig.back)));
        }
        #[verifier::loop_isolation(false)]
        loop
            invariant
                inv(self@.back, r),
                self@.back.x < 0,
                self@.back.x == orig.back.x,
                self@.front == orig.front,
                back_run(orig.back) == back_run(self@.back),
                back_half(orig.back) == back_half(self@.back),
            decreases stall_measure(self@.back),
        {
            let ghost pre = self@.back;
            let x_tmp = self.back_x;
            let y_tmp = self.back_y;
            let err_tmp = self.back_err;
            if err_tmp <= self.back_y {
                self.back_y = self.back_y + 1;
                self.back_err = self.back_err + 2 * self.back_y + 2;
            }
            if err_tmp > self.back_x || self.back_err > self.back_y {
                self.back_x = self.back_x + 1;
                self.back_err = self.back_err + 2 * self.back_x + 2;
                proof {
                    assert(self@.back == micro_step(pre));
                    lemma_micro_preserves(pre, r);
                }
                if self.back_y == y_tmp {
                    let h = self.back_y as i64 + 1;
                    proof {
                        assert(back_half(pre) == pre.y + 1);
                        assert(back_spans(self@.back) =~=
                            back_spans(orig.back).drop_first());
                        assert(inv(self@.front, r) && inv(self@.back, r));
                    }
                    return Some((
                        Span { start: -h, end: h },
                        self.back_x as i64 - 1,
                    ));
                }
            } else {
                proof {
                    assert(self@.back == micro_step(pre));
                    lemma_micro_preserves(pre, r);
                }
            }
            if x_tmp != self.back_x {
                let h = self.back_y as i64;
                proof {
                    assert(back_half(pre) == pre.y + 1);
                    assert(back_spans(self@.back) =~=
                        back_spans(orig.back).drop_first());
                    assert(inv(self@.front, r) && inv(self@.back, r));
                }
                return Some((
                    Span { start: -h, end: h },
                    self.back_x as i64 - 1,
                ));
            }
        }
    }

    /// Drains the generator from the equator end and collects every
    /// span this end can still emit, in order.
    pub fn spans(self) -> (v: Vec<(Span, i64)>)
        requires
            self.wf(),
        ensures
            spans_view(v@) == spans_of(self@.front).take(quota(self@)),
    {
        let ghost start: Ends = self@;
        let mut g = self;
        let mut v: Vec<(Span, i64)> = Vec::new();
        proof {
            let r = choose|r: int|
                0 <= r < MAX_RADIUS as int
                    && #[trigger] inv(start.front, r) && inv(start.back, r);
            lemma_spans_structure(start.front, r);
            lemma_quota_in_range(start, r);
        }
        #[verifier::loop_isolation(false)]
        loop
            invariant
                g.wf(),
                quota(g@) <= spans_of(g@.front).len(),
                spans_view(v@) + spans_of(g@.front).take(quota(g@))
                    =~= spans_of(start.front).take(quota(start)),
            decreases quota(g@),
        {
            match g.next() {
                Some(p) => {
                    v.push(p);
                    proof {
                        assert(spans_view(v@) =~=
                            spans_view(v@.drop_last()).push(rec_of(p.0, p.1)));
                    }
                }
                None => {
                    proof {
                        assert(spans_view(v@) =~=
                            spans_of(start.front).take(quota(start)));
                    }
                    return v;
                }
            }
        }
    }

    /// Drains the generator from the pole end and collects every span
    /// this end can still emit, in order of emission, pole row first.
    /// On a freshly built generator the result, reversed, is exactly
    /// what `spans` yields (`symmetry::lemma_reverse_equals_forward`).
    pub fn rev(self) -> (v: Vec<(Span, i64)>)
        requires
            self.wf(),
        ensures
            spans_view(v@) == back_spans(self@.back).take(quota(self@)),
    {
        let ghost start: Ends = self@;
        let mut g = self;
        let mut v: Vec<(Span, i64)> = Vec::new();
        proof {
            let r = choose|r: int|
                0 <= r < MAX_RADIUS as int
                    && #[trigger] inv(start.front, r) && inv(start.back, r);
            lemma_back_spans_structure(start.back, r);
            lemma_quota_in_range(start, r);
        }
        #[verifier::loop_isolation(false)]
        loop
            invariant
                g.wf(),
                quota(g@) <= back_spans(g@.back).len(),
                spans_view(v@) + back_spans(g@.back).take(quota(g@))
                    =~= back_spans(start.back).take(quota(start)),
            decreases quota(g@),
        {
            match g.next_back() {
                Some(p) => {
                    v.push(p);
                    proof {
                        assert(spans_view(v@) =~=
                            spans_view(v@.drop_last()).push(rec_of(p.0, p.1)));
                    }
                }
                None => {
                    proof {
                        assert(spans_view(v@) =~=
                            back_spans(start.back).take(quota(start)));
                    }
                    return v;
                }
            }
        }
    }
}

impl SemicircleFilled<isize> {
    /// Both cursors are reachable from one representable radius.
    pub open spec fn wf(self) -> bool {
        wf_ends(self@)
    }

    /// Creates a generator that walks the boundary of a disc of the
    /// given radius with pointer-width internal arithmetic.
    ///
    /// A radius of `0` yields a generator that is exhausted at once.
    pub fn new(radius: u64) -> (result: Self)
        requires
            radius < MAX_RADIUS,
        ensures
            result@.front == init_walk(radius as int),
            result@.back == init_walk(radius as int),
            result.wf(),
    {
        let r = radius as isize;
        let g = SemicircleFilled {
            x: -r,
            y: 0,
            err: 2 - 2 * r,
            back_x: -r,
            back_y: 0,
            back_err: 2 - 2 * r,
        };
        proof {
            lemma_init_inv(radius as int);
            assert(g@.front == init_walk(radius as int));
            assert(g@.back == init_walk(radius as int));
            assert(inv(g@.front, radius as int) && inv(g@.back, radius as int));
        }
        g
    }

    /// Emits the next span from the equator end: `[x, -x)` at row
    /// `-(y+1)`, or `None` once no row is left for this end — because
    /// the front cursor ran the whole walk, or because the remaining
    /// rows were taken from the pole end. An exhausted generator stays
    /// exhausted, and a pull never touches the back cursor.
    pub fn next(&mut self) -> (result: Option<(Span, i64)>)
        requires
            old(self).wf(),
        ensures
            final(self).wf(),
            exhausted(old(self)@) ==> result is None && final(self)@ == old(self)@,
            !exhausted(old(self)@) ==> {
                &&& result matches Some(p)
                    && rec_of(p.0, p.1) == spans_of(old(self)@.front)[0]
                &&& spans_of(old(self)@.front).len() > 0
                &&& final(self)@.front == call_step(old(self)@.front)
                &&& final(self)@.back == old(self)@.back
                &&& spans_of(final(self)@.front)
                    == spans_of(old(self)@.front).drop_first()
                &&& quota(final(self)@) == quota(old(self)@) - 1
            },
    {
        let ghost orig: Ends = self@;
        let ghost r: int = choose|r: int|
            0 <= r < MAX_RADIUS as int
                && #[trigger] inv(orig.front, r) && inv(orig.back, r);
        if self.x == 0 {
            return None;
        }
        if self.y >= -self.back_x {
            return None;
        }
        let span = Span { start: self.x as i64, end: -(self.x as i64) };
        let row = -(self.y as i64 + 1);
        #[verifier::loop_isolation(false)]
        loop
            invariant
                inv(self@.front, r),
                self@.front.x < 0,
                self@.front.y == orig.front.y,
                self@.back == orig.back,
                call_step(orig.front) == call_step(self@.front),
            decreases 0 - self@.front.x,
        {
            let ghost pre = self@.front;
            let y_tmp = self.y;
            let err_tmp = self.err;
            if err_tmp <= self.y {
                self.y = self.y + 1;
                self.err = self.err + 2 * self.y + 2;
            }
            if err_tmp > self.x || self.err > self.y {
                self.x = self.x + 1;
                self.err = self.err + 2 * self.x + 2;
            }
            proof {
                assert(self@.front == micro_step(pre));
                lemma_micro_preserves(pre, r);
            }
            if y_tmp != self.y || self.x == 0 {
                break;
            }
        }
        proof {
            lemma_call_preserves(orig.front, r);
            assert(spans_of(orig.front) ==
                seq![SpanRec {
                    lo: orig.front.x,
                    hi: -orig.front.x,
                    row: -(orig.front.y + 1),
                }] + spans_of(call_step(orig.front)));
            assert(spans_of(self@.front) =~= spans_of(orig.front).drop_first());
            // The quota falls by exactly one: either the next row is
            // still free, or this was the last free row and the
            // generator is now exhausted.
            if self@.front.x == 0 {
                assert(orig.front.y == r - 1);
                assert(orig.back.x == -r);
            }
            assert(inv(self@.front, r) && inv(self@.back, r));
        }
        Some((span, row))
    }

    /// Emits the next span from the pole end: the back cursor advances
    /// until its column moves once, then reports `[-h, h)` at the row
    /// just below the new column, where `h` is one more than the row
    /// coordinate the cursor reached. `None` once no row is left for
    /// this end; a pull never touches the front cursor.
    pub fn next_back(&mut self) -> (result: Option<(Span, i64)>)
        requires
            old(self).wf(),
        ensures
            final(self).wf(),
            exhausted(old(self)@) ==> result is None && final(self)@ == old(self)@,
            !exhausted(old(self)@) ==> {
                &&& result matches Some(p)
                    && rec_of(p.0, p.1) == back_spans(old(self)@.back)[0]
                &&& back_spans(old(self)@.back).len() > 0
                &&& final(self)@.back == back_run(old(self)@.back)
                &&& final(self)@.front == old(self)@.front
                &&& back_spans(final(self)@.back)
                    == back_spans(old(self)@.back).drop_first()
                &&& quota(final(self)@) == quota(old(self)@) - 1
            },
    {
        let ghost orig: Ends = self@;
        let ghost r: int = choose|r: int|
            0 <= r < MAX_RADIUS as int
                && #[trigger] inv(orig.front, r) && inv(orig.back, r);
        if self.x == 0 {
            return None;
        }
        if self.y >= -self.back_x {
            return None;
        }
        proof {
            assert(orig.back.x < 0);
            lemma_back_run_progress(orig.back);
            lemma_back_run_preserves(orig.back, r);
            assert(back_spans(orig.back) ==
                seq![SpanRec {
                    lo: -back_half(orig.back),
                    hi: back_half(orig.back),
                    row: back_run(orig.back).x - 1,
                }] + back_spans(back_run(orig.back)));
        }
        #[verifier::loop_isolation(false)]
        loop
            invariant
                inv(self@.back, r),
                self@.back.x < 0,
                self@.back.x == orig.back.x,
                self@.front == orig.front,
                back_run(orig.back) == back_run(self@.back),
                back_half(orig.back) == back_half(self@.back),
            decreases stall_measure(self@.back),
        {
            let ghost pre = self@.back;
            let x_tmp = self.back_x;
            let y_tmp = self.back_y;
            let err_tmp = self.back_err;
            if err_tmp <= self.back_y {
                self.back_y = self.back_y + 1;
                self.back_err = self.back_err + 2 * self.back_y + 2;
            }
            if err_tmp > self.back_x || self.back_err > self.back_y {
                self.back_x = self.back_x + 1;
                self.back_err = self.back_err + 2 * self.back_x + 2;
                proof {
                    assert(self@.back == micro_step(pre));
                    lemma_micro_preserves(pre, r);
                }
                if self.back_y == y_tmp {
                    let h = self.back_y as i64 + 1;
                    proof {
                        assert(back_half(pre) == pre.y + 1);
                        assert(back_spans(self@.back) =~=
                            back_spans(orig.back).drop_first());
                        assert(inv(self@.front, r) && inv(self@.back, r));
                    }
                    return Some((
                        Span { start: -h, end: h },
                        self.back_x as i64 - 1,
                    ));
                }
            } else {
                proof {
                    assert(self@.back == micro_step(pre));
                    lemma_micro_preserves(pre, r);
                }
            }
            if x_tmp != self.back_x {
                let h = self.back_y as i64;
                proof {
                    assert(back_half(pre) == pre.y + 1);
                    assert(back_spans(self@.back) =~=
                        back_spans(orig.back).drop_first());
                    assert(inv(self@.front, r) && inv(self@.back, r));
                }
                return Some((
                    Span { start: -h, end: h },
                    self.back_x as i64 - 1,
                ));
            }
        }
    }

    /// Drains the generator from the equator end and collects every
    /// span this end can still emit, in order.
    pub fn spans(self) -> (v: Vec<(Span, i64)>)
        requires
            self.wf(),
        ensures
            spans_view(v@) == spans_of(self@.front).take(quota(self@)),
    {
        let ghost start: Ends = self@;
        let mut g = self;
        let mut v: Vec<(Span, i64)> = Vec::new();
        proof {
            let r = choose|r: int|
                0 <= r < MAX_RADIUS as int
                    && #[trigger] inv(start.front, r) && inv(start.back, r);
            lemma_spans_structure(start.front, r);
            lemma_quota_in_range(start, r);
        }
        #[verifier::loop_isolation(false)]
        loop
            invariant
                g.wf(),
                quota(g@) <= spans_of(g@.front).len(),
                spans_view(v@) + spans_of(g@.front).take(quota(g@))
                    =~= spans_of(start.front).take(quota(start)),
            decreases quota(g@),
        {
            match g.next() {
                Some(p) => {
                    v.push(p);
                    proof {
                        assert(spans_view(v@) =~=
                            spans_view(v@.drop_last()).push(rec_of(p.0, p.1)));
                    }
                }
                None => {
                    proof {
                        assert(spans_view(v@) =~=
                            spans_of(start.front).take(quota(start)));
                    }
                    return v;
                }
            }
        }
    }

    /// Drains the generator from the pole end and collects every span
    /// this end can still emit, in order of emission, pole row first.
    /// On a freshly built generator the result, reversed, is exactly
    /// what `spans` yields (`symmetry::lemma_reverse_equals_forward`).
    pub fn rev(self) -> (v: Vec<(Span, i64)>)
        requires
            self.wf(),
        ensures
            spans_view(v@) == back_spans(self@.back).take(quota(self@)),
    {
        let ghost start: Ends = self@;
        let mut g = self;
        let mut v: Vec<(Span, i64)> = Vec::new();
        proof {
            let r = choose|r: int|
                0 <= r < MAX_RADIUS as int
                    && #[trigger] inv(start.front, r) && inv(start.back, r);
            lemma_back_spans_structure(start.back, r);
            lemma_quota_in_range(start, r);
        }
        #[verifier::loop_isolation(false)]
        loop
            invariant
                g.wf(),
                quota(g@) <= back_spans(g@.back).len(),
                spans_view(v@) + back_spans(g@.back).take(quota(g@))
                    =~= back_spans(start.back).take(quota(start)),
            decreases quota(g@),
        {
            match g.next_back() {
                Some(p) => {
                    v.push(p);
                    proof {
                        assert(spans_view(v@) =~=
                            spans_view(v@.drop_last()).push(rec_of(p.0, p.1)));
                    }
                }
                None => {
                    proof {
                        assert(spans_view(v@) =~=
                            back_spans(start.back).take(quota(start)));
                    }
                    return v;
                }
            }
        }
    }
}

/// The unclaimed-row count never exceeds what either end alone could
/// still emit.
pub proof fn lemma_quota_in_range(g: Ends, r: int)
    requires
        inv(g.front, r),
        inv(g.back, r),
    ensures
        0 <= quota(g),
        g.front.x < 0 ==> quota(g) <= r - g.front.y,
        quota(g) <= -g.back.x,
{
}

} // verus!
