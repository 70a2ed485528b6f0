//! Compact, reversible integer codes for three kinds of arrangement:
//! the order of distinct values, the positions of a marked subset, and a
//! per-element label whose sum is fixed modulo the base.

pub mod arith;
pub mod arrangement;
pub mod order;
pub mod permutation;
pub mod position;
pub mod property;
pub mod width;
