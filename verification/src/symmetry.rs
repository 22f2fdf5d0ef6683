//! The octant symmetry of the walk: reflecting a state across the
//! diagonal maps the orbit of a radius onto itself, run backward. This
//! is what makes the backward drain emit, in reverse, exactly the spans
//! of the forward drain.

use vstd::prelude::*;

verus! {

use crate::generator::{Walk, inv, micro_step, init_walk};

/// The error accumulator every orbit state carries: a fixed quadratic
/// in the coordinates.
pub open spec fn quad_err(x: int, y: int, r: int) -> int {
    x * x + 3 * x + y * y + 3 * y + 2 + r - r * r
}

/// The reflection of a state across the diagonal of the quadrant: rows
/// become columns and columns rows, with the accumulator the quadratic
/// demands.
pub open spec fn dual_walk(s: Walk, r: int) -> Walk {
    Walk {
        x: -(s.y + 1),
        y: -(s.x + 1),
        err: quad_err(-(s.y + 1), -(s.x + 1), r),
    }
}

/// The symmetry a live orbit state enjoys: stepping the reflection of
/// its successor lands on its own reflection — the reflected orbit runs
/// backward.
pub open spec fn sym(s: Walk, r: int) -> bool {
    micro_step(dual_walk(micro_step(s), r)) == dual_walk(s, r)
}

/// The value of the quadratic at the reflection of a point near
/// `(x, y)`, in terms of its value at `(x, y)`.
pub proof fn lemma_dual_err(x: int, y: int, r: int, e: int, dx: int, dy: int)
    requires
        e == quad_err(x, y, r),
    ensures
        quad_err(-(y + dy) - 1, -(x + dx) - 1, r)
            == e + dy * (2 * y + dy - 1) + dx * (2 * x + dx - 1) - 4 * x - 4 * y - 4,
{
    assert(quad_err(-(y + dy) - 1, -(x + dx) - 1, r)
        == quad_err(x, y, r) + dy * (2 * y + dy - 1) + dx * (2 * x + dx - 1)
            - 4 * x - 4 * y - 4) by (nonlinear_arith);
}

/// A state of the walk satisfies the symmetry as soon as its
/// predecessor does: the symmetry propagates forward along the orbit.
pub proof fn lemma_sym_step(s: Walk, r: int)
    requires
        inv(s, r),
        sym(s, r),
        s.x < 0,
        micro_step(s).x < 0,
    ensures
        sym(micro_step(s), r),
{
    let e = s.err;
    let x = s.x;
    let y = s.y;
    crate::generator::lemma_micro_preserves(s, r);
    crate::generator::lemma_micro_preserves(micro_step(s), r);
    lemma_dual_err(x, y, r, e, 0, 0);
    lemma_dual_err(x, y, r, e, 0, 1);
    lemma_dual_err(x, y, r, e, 0, 2);
    lemma_dual_err(x, y, r, e, 1, 0);
    lemma_dual_err(x, y, r, e, 1, 1);
    lemma_dual_err(x, y, r, e, 1, 2);
    lemma_dual_err(x, y, r, e, 2, 0);
    lemma_dual_err(x, y, r, e, 2, 1);
    lemma_dual_err(x, y, r, e, 2, 2);
}

/// The starting state of every radius of at least two satisfies the
/// symmetry.
pub proof fn lemma_sym_init(r: int)
    requires
        2 <= r,
    ensures
        sym(init_walk(r), r),
{
    let s = init_walk(r);
    assert(2 - 2 * r == quad_err(-r, 0, r)) by (nonlinear_arith);
    assert(s.err == quad_err(-r, 0, r));
    lemma_dual_err(-r, 0, r, s.err, 0, 0);
    lemma_dual_err(-r, 0, r, s.err, 0, 1);
    lemma_dual_err(-r, 0, r, s.err, 1, 0);
    lemma_dual_err(-r, 0, r, s.err, 1, 1);
}

/// The state from which the next column advance fires: the walk's last
/// state in its current column.
pub open spec fn adv_state(s: Walk) -> Walk
    decreases crate::generator::stall_measure(s),
        when s.x < 0 && 0 <= s.y
{
    let t = micro_step(s);
    if t.x != s.x {
        s
    } else {
        adv_state(t)
    }
}

/// The last state in the column: same column, row one below the emitted
/// half-width, and the column advance is its transition; it inherits
/// the invariant and the symmetry.
pub proof fn lemma_adv_state(s: Walk, r: int)
    requires
        inv(s, r),
        sym(s, r),
        s.x < 0,
    ensures
        inv(adv_state(s), r),
        sym(adv_state(s), r),
        adv_state(s).x == s.x,
        adv_state(s).y + 1 == crate::generator::back_half(s),
        micro_step(adv_state(s)) == crate::generator::back_run(s),
    decreases crate::generator::stall_measure(s),
{
    let t = micro_step(s);
    if t.x != s.x {
    } else {
        crate::generator::lemma_micro_preserves(s, r);
        lemma_sym_step(s, r);
        lemma_adv_state(t, r);
    }
}

/// A backward pull that stays off the axis preserves the invariant and
/// the symmetry.
pub proof fn lemma_good_back_run(s: Walk, r: int)
    requires
        inv(s, r),
        sym(s, r),
        s.x <= -2,
    ensures
        inv(crate::generator::back_run(s), r),
        sym(crate::generator::back_run(s), r),
    decreases crate::generator::stall_measure(s),
{
    let t = micro_step(s);
    crate::generator::lemma_micro_preserves(s, r);
    lemma_sym_step(s, r);
    if t.x != s.x {
    } else {
        lemma_good_back_run(t, r);
    }
}

/// The reflection of the state just after a column advance is, one
/// forward pull later, the reflection of the state just before it.
pub proof fn lemma_pull_after_advance(w: Walk, r: int)
    requires
        inv(w, r),
        sym(w, r),
        w.x < 0,
        micro_step(w).x == w.x + 1,
    ensures
        crate::generator::call_step(dual_walk(micro_step(w), r)) == dual_walk(w, r),
{
    let t = micro_step(w);
    let dt = dual_walk(t, r);
    assert(micro_step(dt) == dual_walk(w, r));
    assert(dual_walk(w, r).y == dt.y + 1);
    assert(dt.x == -(t.y + 1) < 0);
}

/// A row-preserving transition does not change where the next forward
/// pull from the reflection lands.
pub proof fn lemma_pull_within_column(c: Walk, r: int)
    requires
        inv(c, r),
        sym(c, r),
        c.x < 0,
        micro_step(c).x == c.x,
    ensures
        crate::generator::call_step(dual_walk(micro_step(c), r))
            == crate::generator::call_step(dual_walk(c, r)),
{
    let t = micro_step(c);
    let dt = dual_walk(t, r);
    assert(micro_step(dt) == dual_walk(c, r));
    assert(dual_walk(c, r).y == dt.y);
    assert(dual_walk(c, r).x == -(c.y + 1) < 0);
    assert(dt.x < 0);
}

/// The forward pull from the reflection of a column's last state lands
/// where it lands from the reflection of the column's first state.
pub proof fn lemma_pull_from_adv(c: Walk, r: int)
    requires
        inv(c, r),
        sym(c, r),
        c.x < 0,
    ensures
        crate::generator::call_step(dual_walk(adv_state(c), r))
            == crate::generator::call_step(dual_walk(c, r)),
    decreases crate::generator::stall_measure(c),
{
    let t = micro_step(c);
    if t.x != c.x {
    } else {
        crate::generator::lemma_micro_preserves(c, r);
        lemma_sym_step(c, r);
        lemma_pull_from_adv(t, r);
        lemma_pull_within_column(c, r);
    }
}

/// Stepping back one column: the forward pull from the reflection of
/// one column's last state is the reflection of the previous column's
/// last state.
pub proof fn lemma_pull_links_columns(w: Walk, r: int)
    requires
        inv(w, r),
        sym(w, r),
        w.x < 0,
        micro_step(w).x == w.x + 1,
        micro_step(w).x < 0,
    ensures
        crate::generator::call_step(
            dual_walk(adv_state(micro_step(w)), r)) == dual_walk(w, r),
{
    let t = micro_step(w);
    crate::generator::lemma_micro_preserves(w, r);
    lemma_sym_step(w, r);
    lemma_pull_from_adv(t, r);
    lemma_pull_after_advance(w, r);
}

/// The state after `k` forward pulls.
pub open spec fn cs_iter(s: Walk, k: nat) -> Walk
    decreases k,
{
    if k == 0 {
        s
    } else {
        crate::generator::call_step(cs_iter(s, (k - 1) as nat))
    }
}

/// The state after `i` backward pulls.
pub open spec fn br_iter(s: Walk, i: nat) -> Walk
    decreases i,
{
    if i == 0 {
        s
    } else {
        crate::generator::back_run(br_iter(s, (i - 1) as nat))
    }
}

/// Backward pulls advance one column at a time, preserving the
/// invariant and the symmetry while they stay off the axis.
pub proof fn lemma_br_iter(s: Walk, r: int, i: nat)
    requires
        inv(s, r),
        sym(s, r),
        s.x + i < 0,
    ensures
        inv(br_iter(s, i), r),
        sym(br_iter(s, i), r),
        br_iter(s, i).x == s.x + i,
    decreases i,
{
    if i == 0 {
    } else {
        let p = br_iter(s, (i - 1) as nat);
        lemma_br_iter(s, r, (i - 1) as nat);
        lemma_good_back_run(p, r);
        crate::generator::lemma_back_run_progress(p);
    }
}

/// The last state of the last column: the walk's final live state, the
/// reflection of the starting state.
pub proof fn lemma_endpoint(r: int)
    requires
        2 <= r,
    ensures
        adv_state(br_iter(init_walk(r), (r - 1) as nat))
            == dual_walk(init_walk(r), r),
        dual_walk(adv_state(br_iter(init_walk(r), (r - 1) as nat)), r)
            == init_walk(r),
{
    let s = init_walk(r);
    crate::generator::lemma_init_inv(r);
    lemma_sym_init(r);
    lemma_br_iter(s, r, (r - 1) as nat);
    let b = br_iter(s, (r - 1) as nat);
    lemma_adv_state(b, r);
    let a = adv_state(b);
    assert(a.x == -1 && a.y == r - 1);
    assert(a.err == quad_err(-1, r - 1, r));
    assert(quad_err(-1, r - 1, r) == 2 * r - 2) by (nonlinear_arith);
    assert(dual_walk(s, r).x == -1 && dual_walk(s, r).y == r - 1);
    assert(dual_walk(s, r).err == quad_err(-1, r - 1, r));
    assert(a == dual_walk(s, r));
    assert(2 - 2 * r == quad_err(-r, 0, r)) by (nonlinear_arith);
    assert(dual_walk(a, r) == s);
}

/// The central pairing: the entry of the `k`-th row from the equator is
/// the reflection of the last state of the `k`-th column from the pole.
pub proof fn lemma_pairing(r: int, k: nat)
    requires
        2 <= r,
        k <= r - 1,
    ensures
        cs_iter(init_walk(r), k)
            == dual_walk(adv_state(br_iter(init_walk(r), (r - 1 - k) as nat)), r),
    decreases k,
{
    let s = init_walk(r);
    crate::generator::lemma_init_inv(r);
    lemma_sym_init(r);
    if k == 0 {
        lemma_endpoint(r);
    } else {
        let j = (r - 1 - k) as nat;
        lemma_pairing(r, (k - 1) as nat);
        lemma_br_iter(s, r, j);
        let p = br_iter(s, j);
        lemma_adv_state(p, r);
        let w = adv_state(p);
        crate::generator::lemma_back_run_progress(p);
        // back_run(p) == micro_step(w), and br_iter(s, j + 1) == back_run(p).
        assert(br_iter(s, (j + 1) as nat) == crate::generator::back_run(p));
        assert((j + 1) as nat == (r - 1 - (k - 1)) as nat);
        lemma_pull_links_columns(w, r);
    }
}

/// Forward pulls iterate from the front.
pub proof fn lemma_cs_iter_shift(s: Walk, k: nat)
    requires
        k >= 1,
    ensures
        cs_iter(s, k) == cs_iter(crate::generator::call_step(s), (k - 1) as nat),
    decreases k,
{
    let t = crate::generator::call_step(s);
    if k == 1 {
        assert(cs_iter(s, 1) == crate::generator::call_step(cs_iter(s, 0)));
        assert(cs_iter(t, 0) == t);
    } else {
        lemma_cs_iter_shift(s, (k - 1) as nat);
        assert(cs_iter(s, k) == crate::generator::call_step(cs_iter(s, (k - 1) as nat)));
        assert(cs_iter(t, (k - 1) as nat)
            == crate::generator::call_step(cs_iter(t, (k - 2) as nat)));
    }
}

/// Backward pulls iterate from the front.
pub proof fn lemma_br_iter_shift(s: Walk, i: nat)
    requires
        i >= 1,
    ensures
        br_iter(s, i) == br_iter(crate::generator::back_run(s), (i - 1) as nat),
    decreases i,
{
    let t = crate::generator::back_run(s);
    if i == 1 {
        assert(br_iter(s, 1) == crate::generator::back_run(br_iter(s, 0)));
        assert(br_iter(t, 0) == t);
    } else {
        lemma_br_iter_shift(s, (i - 1) as nat);
        assert(br_iter(s, i) == crate::generator::back_run(br_iter(s, (i - 1) as nat)));
        assert(br_iter(t, (i - 1) as nat)
            == crate::generator::back_run(br_iter(t, (i - 2) as nat)));
    }
}

/// The half-width of the `k`-th forward span is the column of the state
/// after `k` forward pulls.
pub proof fn lemma_forward_width(s: Walk, r: int, k: nat)
    requires
        inv(s, r),
        s.x < 0,
        s.y + k <= r - 1,
    ensures
        k < crate::generator::spans_of(s).len(),
        crate::generator::spans_of(s)[k as int].hi == -cs_iter(s, k).x,
    decreases k,
{
    crate::generator::lemma_spans_structure(s, r);
    crate::generator::lemma_call_step_progress(s);
    let t = crate::generator::call_step(s);
    crate::generator::lemma_call_preserves(s, r);
    if k == 0 {
    } else {
        // The pull cannot have ended the walk: that happens only from
        // the last row, while s.y <= r - 2 here.
        assert(t.y == s.y + 1 && t.x < 0);
        lemma_forward_width(t, r, (k - 1) as nat);
        lemma_cs_iter_shift(s, k);
        assert(crate::generator::spans_of(s)[k as int]
            == crate::generator::spans_of(t)[k as int - 1]);
    }
}

/// The half-width of the `i`-th backward span is the emitted half-width
/// at the state after `i` backward pulls.
pub proof fn lemma_backward_width(s: Walk, r: int, i: nat)
    requires
        inv(s, r),
        s.x + i < 0,
    ensures
        i < crate::generator::back_spans(s).len(),
        crate::generator::back_spans(s)[i as int].hi
            == crate::generator::back_half(br_iter(s, i)),
    decreases i,
{
    crate::generator::lemma_back_spans_structure(s, r);
    crate::generator::lemma_back_run_progress(s);
    let t = crate::generator::back_run(s);
    crate::generator::lemma_back_run_preserves(s, r);
    if i == 0 {
    } else {
        lemma_backward_width(t, r, (i - 1) as nat);
        lemma_br_iter_shift(s, i);
        assert(crate::generator::back_spans(s)[i as int]
            == crate::generator::back_spans(t)[i as int - 1]);
    }
}

/// Draining the walk from the pole end and reversing the result yields
/// exactly the forward drain: span for span, row for row.
pub proof fn lemma_reverse_equals_forward(r: int)
    requires
        0 <= r,
    ensures
        crate::generator::back_spans(init_walk(r)).reverse()
            == crate::generator::spans_of(init_walk(r)),
{
    let s = init_walk(r);
    crate::generator::lemma_init_inv(r);
    crate::generator::lemma_generator_spans(r);
    crate::generator::lemma_back_spans_structure(s, r);
    let fwd = crate::generator::spans_of(s);
    let bwd = crate::generator::back_spans(s);
    if r == 0 {
        assert(bwd.reverse() =~= fwd);
    } else if r == 1 {
        // One transition ends the walk; both drains emit the same
        // single span.
        let t = micro_step(s);
        assert(t == Walk { x: 0, y: 1, err: 6 });
        assert(crate::generator::call_step(s) == t);
        assert(crate::generator::back_run(s) == t);
        assert(crate::generator::back_half(s) == 1);
        assert(fwd =~= seq![crate::generator::SpanRec { lo: -1, hi: 1, row: -1 }]);
        assert(bwd =~= seq![crate::generator::SpanRec { lo: -1, hi: 1, row: -1 }]);
        assert(bwd.reverse() =~= fwd);
    } else {
        assert forall|n: int| 0 <= n < r implies bwd.reverse()[n] == fwd[n] by {
            let k = n as nat;
            let j = (r - 1 - n) as nat;
            assert(bwd.reverse()[n] == bwd[r - 1 - n]);
            lemma_forward_width(s, r, k);
            lemma_backward_width(s, r, j);
            lemma_pairing(r, k);
            lemma_sym_init(r);
            lemma_br_iter(s, r, j);
            lemma_adv_state(br_iter(s, j), r);
            assert(fwd[n].hi == -cs_iter(s, k).x);
            assert(cs_iter(s, k).x
                == -(adv_state(br_iter(s, j)).y + 1));
            assert(bwd[r - 1 - n].hi == crate::generator::back_half(br_iter(s, j)));
            assert(fwd[n].hi == bwd[r - 1 - n].hi);
            assert(fwd[n].row == -(1 + n));
            assert(bwd[r - 1 - n].row == s.x + (r - 1 - n));
            assert(fwd[n].lo == -fwd[n].hi);
            assert(bwd[r - 1 - n].lo == -bwd[r - 1 - n].hi);
        }
        assert(bwd.reverse() =~= fwd);
    }
}

/// However the rows of a disc are split between the two ends — `k`
/// taken from the equator end, the remaining `r - k` from the pole end,
/// in any interleaving — the front's spans followed by the back's spans
/// reversed are exactly the full forward drain: every row exactly once,
/// no row from both ends.
pub proof fn lemma_interleaved_partition(r: int, k: int)
    requires
        0 <= r,
        0 <= k <= r,
    ensures
        crate::generator::spans_of(init_walk(r)) ==
            crate::generator::spans_of(init_walk(r)).take(k)
                + crate::generator::back_spans(init_walk(r)).take(r - k).reverse(),
{
    let s = init_walk(r);
    crate::generator::lemma_init_inv(r);
    crate::generator::lemma_generator_spans(r);
    crate::generator::lemma_back_spans_structure(s, r);
    lemma_reverse_equals_forward(r);
    let fwd = crate::generator::spans_of(s);
    let bwd = crate::generator::back_spans(s);
    assert forall|i: int| 0 <= i < r - k implies
        #[trigger] bwd.take(r - k).reverse()[i] == fwd[k + i] by {
        assert(bwd.take(r - k).reverse()[i] == bwd[r - k - 1 - i]);
        assert(fwd[k + i] == bwd.reverse()[k + i]);
        assert(bwd.reverse()[k + i] == bwd[r - 1 - k - i]);
    }
    assert(fwd =~= fwd.take(k) + bwd.take(r - k).reverse());
}

} // verus!