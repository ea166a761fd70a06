//! The finding shape every rule emits: a severity, a lint code, a message,
//! and the line and item it concerns.
use vstd::prelude::*;

verus! {

/// How strongly a finding asks for a change.
#[derive(Debug, Clone, Copy, PartialEq, Eq, Structural)]
pub enum Severity {
    Error,
    Warning,
    Reminder,
    Hint,
}

/// One finding of one rule.
#[derive(Debug, Clone)]
pub struct Diagnostic {
    pub severity: Severity,
    pub code: &'static str,
    pub title: Option<String>,
    pub message: String,
    pub line: usize,
    pub item_kind: String,
    pub item_name: Option<String>,
}

} // verus!
