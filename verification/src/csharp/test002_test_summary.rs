//! `TEST002`: a test method has no comment directly above its attribute
//! list. An XML doc run or a plain `//` block satisfies it; only presence
//! is checked, never wording.
use crate::codes::CODE_TEST_SUMMARY;
use crate::csharp::declarations::{decl_diagnostic, decl_finding, Declaration};
use crate::diagnostic::{Diagnostic, Severity};
use crate::text::{owned, push_str};
use vstd::prelude::*;

verus! {

/// TEST002 applies to `decl`.
pub open spec fn fires(decl: Declaration) -> bool {
    decl.test_marked && !decl.leading_comment && decl.name is Some
}

/// The TEST002 message for the test `name`.
pub open spec fn message(name: Seq<char>) -> Seq<char> {
    "test method `"@ + name
        + "` is missing a short explanatory comment above its attributes.\n\nWhy: Readers need to understand why this test matters without tracing its body.\n\nSuggestions:\n- Explain the requirement, edge case, or regression the test protects against.\n- Add context rather than restating the test name.\n- Consider Arrange\u{2013}Act\u{2013}Assert: setup, action, then assertions, separated by comments."@
}

/// `d` is the TEST002 finding on `decl`.
pub open spec fn expected(d: Diagnostic, decl: Declaration) -> bool {
    decl.name matches Some(n) && decl_finding(
        d,
        decl,
        CODE_TEST_SUMMARY@,
        Severity::Reminder,
        "test missing its summary comment"@,
        message(n@),
    )
}

/// Report a test method without a comment above its attributes;
/// `[Ignore]` grants no exemption.
///
/// # Returns
///
/// One TEST002 reminder for an unsummarised test, else nothing.
pub fn check(decl: &Declaration) -> (r: Vec<Diagnostic>)
    ensures
        r.len() == (if fires(*decl) {
            1int
        } else {
            0int
        }),
        r.len() == 1 ==> expected(r@[0], *decl),
{
    let mut out: Vec<Diagnostic> = Vec::new();
    if !decl.test_marked || decl.leading_comment {
        return out;
    }
    let name = match &decl.name {
        Some(n) => n,
        None => return out,
    };
    let mut message = owned("test method `");
    push_str(&mut message, name.as_str());
    push_str(
        &mut message,
        "` is missing a short explanatory comment above its attributes.\n\nWhy: Readers need to understand why this test matters without tracing its body.\n\nSuggestions:\n- Explain the requirement, edge case, or regression the test protects against.\n- Add context rather than restating the test name.\n- Consider Arrange\u{2013}Act\u{2013}Assert: setup, action, then assertions, separated by comments.",
    );
    out.push(decl_diagnostic(decl, CODE_TEST_SUMMARY, Severity::Reminder, "test missing its summary comment", message));
    out
}

} // verus!
