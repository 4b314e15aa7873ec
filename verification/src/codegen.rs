//! The text of the programs that evaluate a contraction.

pub mod ndarray;
