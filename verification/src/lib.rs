//! A minimal ECMAScript-module bundler.
//!
//! The library recognizes `import` and re-export `export ... from`
//! statements in JavaScript sources, records the exact character span of
//! each module specifier, builds a dependency graph rooted at an entry
//! module, and emits a single bootstrap file that registers every
//! discovered module in dependency-first order before triggering
//! execution of the entry module.

pub mod lexer;
pub mod parser;
pub mod resolve;
pub mod graph;
pub mod bundler;

use vstd::prelude::*;

verus! {

} // verus!
