//! Group arithmetic on the twisted Edwards curve `y^2 - x^2 = 1 + d*x^2*y^2`
//! over the field of `2^448 - 2^224 - 1` elements, and the prime-order
//! group built on it by identifying points that differ by a point of
//! order one, two or four.
pub mod constants;
pub mod ct;
pub mod curve;
pub mod field;
pub mod ristretto;
