//! A full-screen terminal calculator: an editable multi-line text buffer in
//! which each line can be evaluated as an integer addition/subtraction
//! expression, with soft-wrapped rendering onto a bounded terminal grid.
use vstd::prelude::*;

pub mod chars;
pub mod buffer;
pub mod eval;
pub mod lexer;
pub mod render;

verus! {

} // verus!
