//! The base field: its arithmetic as mathematics, limb sequences, and the
//! executable field element.
pub mod arith;
pub mod bytes;
pub mod element;
pub mod limbs;
pub mod product;
