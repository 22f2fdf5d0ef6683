//! The gradient colorizer: attaches a color from an external ramp to
//! every point, indexed by a direction-dependent projection of the
//! point's coordinates.

use vstd::prelude::*;

verus! {

use crate::combinators::{COORD_LIMIT, points_bounded, points_view};

#[verifier::external_type_specification]
#[verifier::external_body]
pub struct ExGradient(colorous::Gradient);

/// Selects the gradient direction and carries the color ramp to sample.
#[derive(Debug, Clone, Copy)]
pub enum DirectionGradient {
    /// The gradient runs from bottom to top.
    Top(colorous::Gradient),
    /// The gradient runs from top to bottom.
    Bottom(colorous::Gradient),
    /// The gradient runs from left to right.
    Right(colorous::Gradient),
    /// The gradient runs from right to left.
    Left(colorous::Gradient),
    /// The gradient runs from bottom right to top left.
    TopLeft(colorous::Gradient),
    /// The gradient runs from bottom left to top right.
    TopRight(colorous::Gradient),
    /// The gradient runs from top right to bottom left.
    BottomLeft(colorous::Gradient),
    /// The gradient runs from top left to bottom right.
    BottomRight(colorous::Gradient),
}

impl DirectionGradient {
    /// The ramp this direction carries.
    pub open spec fn ramp(self) -> colorous::Gradient {
        match self {
            DirectionGradient::Top(g) => g,
            DirectionGradient::Bottom(g) => g,
            DirectionGradient::Right(g) => g,
            DirectionGradient::Left(g) => g,
            DirectionGradient::TopLeft(g) => g,
            DirectionGradient::TopRight(g) => g,
            DirectionGradient::BottomLeft(g) => g,
            DirectionGradient::BottomRight(g) => g,
        }
    }

    /// The direction's scalar projection of a point, shifted by `off`.
    pub open spec fn projection(self, x: int, y: int, off: int) -> int {
        match self {
            DirectionGradient::Left(_) => off - x,
            DirectionGradient::TopLeft(_) => off - (x + y),
            DirectionGradient::Top(_) => off - y,
            DirectionGradient::TopRight(_) => x - y + off,
            DirectionGradient::Right(_) => x + off,
            DirectionGradient::BottomRight(_) => x + y + off,
            DirectionGradient::Bottom(_) => y + off,
            DirectionGradient::BottomLeft(_) => off - (x - y),
        }
    }
}

/// What `colorous::Gradient::eval_rational` returns for a position in
/// the ramp's domain: a function of the gradient value, the position
/// and the domain size alone.
pub uninterp spec fn ramp_color(g: colorous::Gradient, pos: int, total: int) -> (u8, u8, u8);

/// `v` clamped into `[0, hi]`.
pub open spec fn clamp_to(v: int, hi: int) -> int {
    if v < 0 {
        0
    } else if v > hi {
        hi
    } else {
        v
    }
}

/// Relies on `colorous::Gradient::eval_rational`: for `0 <= i < n` it
/// samples the ramp at position `i/n`, a deterministic function of the
/// gradient value and the two integers; it panics only when `n == 0`.
#[verifier::external_body]
fn eval_ramp(g: &colorous::Gradient, i: usize, n: usize) -> (c: (u8, u8, u8))
    requires
        0 < n,
        i < n,
    ensures
        c == ramp_color(*g, i as int, n as int),
{
    g.eval_rational(i, n).into_tuple()
}

/// Attaches a ramp color to every point. Each point's projection along
/// the chosen direction indexes the ramp over the domain `[0, size)`;
/// a projection outside the domain is clamped to the nearest end, since
/// the ramp defines no color beyond its ends.
pub fn gradient(
    points: Vec<(i64, i64)>,
    offset: i64,
    size: usize,
    dir_grd: DirectionGradient,
) -> (v: Vec<(i64, i64, (u8, u8, u8))>)
    requires
        points_bounded(points_view(points@)),
        -COORD_LIMIT <= offset <= COORD_LIMIT,
        0 < size <= COORD_LIMIT as usize,
    ensures
        v@.len() == points@.len(),
        forall|i: int| 0 <= i < v@.len() ==> {
            let p = points@[i];
            let q = #[trigger] v@[i];
            &&& q.0 == p.0
            &&& q.1 == p.1
            &&& q.2 == ramp_color(
                dir_grd.ramp(),
                clamp_to(
                    dir_grd.projection(p.0 as int, p.1 as int, offset as int),
                    size as int - 1,
                ),
                size as int,
            )
        },
{
    let ghost model = points@;
    let mut out: Vec<(i64, i64, (u8, u8, u8))> = Vec::new();
    let n = points.len();
    let mut idx: usize = 0;
    let last = (size - 1) as i64;
    #[verifier::loop_isolation(false)]
    while idx < n
        invariant
            0 <= idx <= n,
            out@.len() == idx,
            forall|i: int| 0 <= i < idx ==> {
                let p = model[i];
                let q = #[trigger] out@[i];
                &&& q.0 == p.0
                &&& q.1 == p.1
                &&& q.2 == ramp_color(
                    dir_grd.ramp(),
                    clamp_to(
                        dir_grd.projection(p.0 as int, p.1 as int, offset as int),
                        size as int - 1,
                    ),
                    size as int,
                )
            },
        decreases n - idx,
    {
        let (x, y) = points[idx];
        proof {
            assert(points_view(points@)[idx as int] == (x as int, y as int));
        }
        let (proj, grad) = match dir_grd {
            DirectionGradient::Left(grad) => (offset - x, grad),
            DirectionGradient::TopLeft(grad) => (offset - (x + y), grad),
            DirectionGradient::Top(grad) => (offset - y, grad),
            DirectionGradient::TopRight(grad) => (x - y + offset, grad),
            DirectionGradient::Right(grad) => (x + offset, grad),
            DirectionGradient::BottomRight(grad) => (x + y + offset, grad),
            DirectionGradient::Bottom(grad) => (y + offset, grad),
            DirectionGradient::BottomLeft(grad) => (offset - (x - y), grad),
        };
        let pos = if proj < 0 {
            0
        } else if proj > last {
            last
        } else {
            proj
        };
        let color = eval_ramp(&grad, pos as usize, size);
        out.push((x, y, color));
        idx = idx + 1;
    }
    out
}

} // verus!
