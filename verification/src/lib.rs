//! Tracks TODO-style annotations in source-comment blocks: extracting them
//! from text, deriving exact literal match patterns for their unreported and
//! reported forms, and rewriting text to stamp annotations with an issue id
//! or to strip blocks whose issue has been closed.
use vstd::prelude::*;

pub mod actions;
pub mod api;
pub mod config;
pub mod escape;
pub mod laws;
pub mod lines;
pub mod mutate;
pub mod text;
pub mod todo;
pub mod todo_parser;

verus! {

} // verus!
