//! Vector math primitives over IEEE-754 binary64 bit patterns.
//!
//! The two vector types hold their components as raw binary64 bit patterns
//! (`u64`), so that the exact operations — construction, component access,
//! functional update, negation, IEEE-754 equality, integer encoding and
//! rounding to integral values — can be specified and verified down to the
//! bit level.

pub mod bits;
pub mod vectors;
