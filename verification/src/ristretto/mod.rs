//! The prime-order group: cosets of the subgroup of order four, with
//! their canonical 56-byte encoding.
pub mod points;
