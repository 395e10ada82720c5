//! The twisted Edwards curve in its four point representations.
pub mod affine;
pub mod closure;
pub mod extended;
pub mod extensible;
