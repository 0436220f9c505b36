//! A line-oriented page layout language: a numeric expression reader, a
//! directive parser, a greedy word-wrap engine and the layout state that turns
//! directives into drawing operations.
use vstd::prelude::*;

pub mod layout;
pub mod number;
pub mod script;
pub mod session;
pub mod wrap;

verus! {

} // verus!
