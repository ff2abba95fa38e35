//! Ordered selections and cartesian products, given one at a time and without
//! reading more of their sequences than the tuples given so far need.

pub mod adaptors;
pub mod buffer;
pub mod lookup;
pub mod odometer;
pub mod permutations;
pub mod ranges;
pub mod ranking;
pub mod size_hint;
