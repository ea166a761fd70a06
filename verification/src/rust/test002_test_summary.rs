//! `TEST002`: a test function lacks a summary comment above its
//! attributes.
//!
//! An outer doc run or a plain `//` block directly above the attribute
//! block satisfies the rule; only presence is checked, never wording.
use crate::codes::CODE_TEST_SUMMARY;
use crate::diagnostic::{Diagnostic, Severity};
use crate::rust::items::{kind_label, kind_label_spec, SourceItem};
use crate::text::{copy_string, owned, push_str};
use vstd::prelude::*;

verus! {

/// The TEST002 message for the test `name`.
pub open spec fn test_summary_message(name: Seq<char>) -> Seq<char> {
    "test function `"@ + name
        + "` is missing a short explanatory comment above its attributes.\n\nWhy: Readers need to understand why this test matters without tracing its body.\n\nSuggestions:\n- Explain the requirement, edge case, or regression the test protects against.\n- Add context rather than restating the test name.\n- Consider Arrange\u{2013}Act\u{2013}Assert: setup, action, then assertions, separated by comments."@
}

/// `r` is exactly the rule's report: the count its condition gives, and
/// the finding's fields when there is one.
pub open spec fn reports(item: SourceItem, r: Seq<Diagnostic>) -> bool {
    &&& r.len() == (if item.is_test_fn && !item.has_summary_comment && item.name is Some {
        1int
    } else {
        0int
    })
    &&& r.len() == 1 ==> {
        let d = r[0];
        &&& d.code@ == CODE_TEST_SUMMARY@
        &&& d.severity == Severity::Reminder
        &&& d.title matches Some(t) && t@ == "test missing its summary comment"@
        &&& d.line == item.start_line
        &&& d.item_kind@ == kind_label_spec(item.kind)
        &&& d.item_name matches Some(n) && item.name matches Some(m) && n@ == m@
        &&& d.message@ == test_summary_message(d.item_name->0@)
    }
}

/// Report a named test function with no comment directly above its
/// attribute block; `#[ignore]` grants no exemption.
///
/// # Arguments
///
/// - `item` - the item to inspect.
///
/// # Returns
///
/// One TEST002 reminder for an unsummarised test, else nothing.
pub fn check(item: &SourceItem) -> (r: Vec<Diagnostic>)
    ensures
        reports(*item, r@),
{
    let mut out: Vec<Diagnostic> = Vec::new();
    if !item.is_test_fn || item.has_summary_comment {
        return out;
    }
    let name = match &item.name {
        Some(n) => n,
        None => return out,
    };
    let mut message = owned("test function `");
    push_str(&mut message, name.as_str());
    push_str(
        &mut message,
        "` is missing a short explanatory comment above its attributes.\n\nWhy: Readers need to understand why this test matters without tracing its body.\n\nSuggestions:\n- Explain the requirement, edge case, or regression the test protects against.\n- Add context rather than restating the test name.\n- Consider Arrange\u{2013}Act\u{2013}Assert: setup, action, then assertions, separated by comments.",
    );
    out.push(
        Diagnostic {
            severity: Severity::Reminder,
            code: CODE_TEST_SUMMARY,
            title: Some(owned("test missing its summary comment")),
            message,
            line: item.start_line,
            item_kind: kind_label(item.kind),
            item_name: Some(copy_string(name)),
        },
    );
    out
}

} // verus!
