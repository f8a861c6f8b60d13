//! Scrust: a compiled language for Scratch 3.0 projects.
use vstd::prelude::*;

pub mod ast;
pub mod text;
pub mod codegen;
pub mod transform;
pub mod merge;
pub mod sb3;
pub mod compiler;
pub mod parser;
pub mod config;
pub mod checker;
pub mod project;

verus! {

} // verus!
