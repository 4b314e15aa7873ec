//! Compile-time planning of Einstein summations.
//!
//! A subscript string such as `ij,jk->ik` says how tensors are multiplied
//! and summed: every input and the output is labelled with indices, and an
//! index that occurs in several inputs but not in the output is summed
//! over. This crate reads such a string, brings it into a canonical form,
//! searches for the cheapest way to carry the contraction out as a
//! sequence of smaller ones, and writes the text of a program that does so
//! on arrays of the `ndarray` crate.
//!
//! ```text
//! ab,bc,cd->ad | arg0,arg1,arg2->out0
//! ```
//!
//! becomes
//!
//! ```text
//! ab,bc->ac | arg0,arg1->out1
//! ab,bc->ac | out1,arg2->out0
//! ```
//!
//! Everything here is verified with Verus. Each type has a view that
//! says what it holds, each function a contract over those views, and the
//! modules [`laws`], [`notation`] and [`path`] hold what is proved of the
//! functions taken together.
//!
//! - [`grammar`] and [`parser`]: what a text of subscripts means, and how
//!   it is read.
//! - [`namespace`]: the names of the tensors.
//! - [`subscripts`] and [`canonical`]: subscripts with the names of their
//!   tensors, their canonical form, their cost, and how they are split.
//! - [`path`] and [`subsets`]: the search for the cheapest plan.
//! - [`codegen`] and [`program`]: the text of the program.

pub mod canonical;
pub mod codegen;
pub mod error;
pub mod grammar;
pub mod laws;
pub mod namespace;
pub mod notation;
pub mod parser;
pub mod path;
pub mod program;
pub mod subscripts;
pub mod subsets;
pub mod text;

pub use error::Error;
pub use namespace::{Namespace, Position};
pub use parser::{RawSubscript, RawSubscripts};
pub use path::Path;
pub use program::{einsum, expand, Argument};
pub use subscripts::{dot, gemm, Subscript, Subscripts};
