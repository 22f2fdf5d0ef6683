//! Pixel-coordinate generation for filled circular figures.
//!
//! A midpoint-style state machine walks the boundary of a disc of a given
//! integer radius and emits one horizontal span per row. Stateless
//! combinators turn those spans into full circles, semicircles, quadrant
//! wedges and stretched variants, translate the resulting points, and
//! attach colors from an external gradient ramp.

use vstd::prelude::*;

pub mod colorize;
pub mod combinators;
pub mod generator;
pub mod symmetry;

pub use generator::SemicircleFilled;
pub use generator::Span;
pub use combinators::Rasterization;
pub use combinators::offset;
pub use colorize::DirectionGradient;
pub use colorize::gradient;

verus! {

/// Largest radius the generators accept; beyond it the error accumulator
/// of the 32-bit walk could overflow.
pub const MAX_RADIUS: u64 = 100_000_000;

} // verus!
