//! Lint rules over parsed Rust and C# sources, with their contracts proved by Verus.
//!
//! - [`diagnostic`]: the finding shape every rule emits.
//! - [`text`]: character-level helpers shared by the rules.
//! - [`syntax`]: the plain syntax-tree model the rules read.
//! - [`parser`]: tree-sitter parsing into that model.
use vstd::prelude::*;

pub use regions::{run_region_checks, run_text_checks};

pub mod codes;
pub mod csharp;
pub mod diagnostic;
pub mod dup001_duplication;
pub mod order;
pub mod parser;
pub mod lex;
pub mod mod001_module_size;
pub mod perf_hint;
pub mod regions;
pub mod rust;
pub mod sole_caller;
pub mod symbol_policy;
pub mod symbol_usage;
pub mod symbols;
pub mod syntax;
pub mod text;

verus! {

} // verus!
