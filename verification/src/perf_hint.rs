//! The reminder entry type shared by the Rust and C# `PERF001` rules.
use vstd::prelude::*;

verus! {

/// One reminder entry: the API pattern and the message it emits.
#[derive(Debug, Clone)]
pub struct PerfHint {
    pub pattern: String,
    pub message: String,
}

} // verus!
