//! Elliptic curves.
pub mod twedwards;
