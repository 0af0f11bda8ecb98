//! A constructive numeric tower: Peano naturals, then integers, rationals,
//! interval-approximated reals and complex numbers, each stage built from the
//! one below it, with no machine-integer arithmetic in any value.

pub mod complex;
pub mod frac;
pub mod integers;
pub mod naturals;
pub mod rationals;
pub mod reals;

pub use complex::Complex;
pub use integers::Int;
pub use naturals::Nat;
pub use rationals::Rat;
pub use reals::Interval;
pub use reals::Real;
