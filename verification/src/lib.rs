//! Text snippet extraction: pull a contiguous range of lines out of a
//! multi-line string, or the region between a named pair of anchor markers.
//!
//! Both entry points are total: out-of-range or inverted line ranges clamp
//! to the available lines, unknown anchors yield an empty result, and an
//! unterminated anchor captures through the end of the input.

use vstd::prelude::*;

pub mod anchor;
pub mod range;
pub mod text;

verus! {

pub use anchor::take_anchored_lines;
pub use range::LineBound;
pub use range::LineRange;
pub use range::take_lines;

} // verus!
