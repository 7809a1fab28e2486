//! Replaces calls of well-known JavaScript methods on literals by their results: `'aB'.trim()`,
//! `'abc'.indexOf('b')`, `[1].concat(2)` and the like.
//!
//! [`known_methods`] holds the pass and [`outcome`] says what becomes of each call, in terms of
//! [`text`], [`number`] and [`concat`]. [`call_laws`] and [`concat_laws`] state what the calls of
//! each method become, and [`laws`] and [`text_laws`] what holds of the whole.
//! The pass works on the tree of [`ast`], and learns from a [`context`] what the call alone does
//! not tell. What is taken on trust is in [`outside`].
use vstd::prelude::*;

pub mod ast;
pub mod call_laws;
pub mod concat;
pub mod concat_laws;
pub mod context;
pub mod known_methods;
pub mod laws;
pub mod number;
pub mod outcome;
pub mod outside;
pub mod text;
pub mod text_laws;

verus! {

} // verus!
