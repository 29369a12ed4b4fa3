//! Ordinal notation toolkit: Buchholz-style ψ terms, PSS hydras, sequence
//! systems and Bashicu matrices, with verified contracts.
use vstd::prelude::*;

pub mod term;
pub mod text;
pub mod hydra;
pub mod expand;
pub mod parser;
pub mod bms;
pub mod lmn;
pub mod sss;
pub mod ocf;
pub mod mocf;
pub mod mocf_norm;
pub mod mbocf;
pub mod ihss;
pub mod cli;
pub mod one_y;
pub mod seq_std;

verus! {

/// Column-major matrix: `matrix[col][row]`.
pub type Matrix = Vec<Vec<i32>>;

/// Layered mountain: outer = layer, inner = (value, parent distance).
pub type Mountain = Vec<Vec<(i32, i32)>>;

} // verus!
