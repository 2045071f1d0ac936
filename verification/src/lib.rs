//! An interpreter for a small expression language: a grammar that reads
//! source text into a flat operator tree, a pass that resolves operator
//! precedence into a core tree, and an evaluator for the core tree.
use vstd::prelude::*;

pub mod builtins;
pub mod combinator;
pub mod corelang;
pub mod format;
pub mod ghast;
pub mod operator;
pub mod parser;
pub mod phase2;
pub mod phase3;
pub mod primary;
pub mod text;
pub mod utils;

verus! {
} // verus!
