//! `DOC011`: a public function returning a value lacks a `# Returns`
//! section.
//!
//! A value return warns; exactly `bool` reminds. Unit, never, no declared
//! type, `Self` and `Result<(), _>` never fire.
use crate::codes::CODE_MISSING_RETURNS;
use crate::diagnostic::{Diagnostic, Severity};
use crate::rust::items::{ItemKind, ReturnKind, SourceItem, VisibilityTier};
use crate::rust::sections::{find_section, header_from, item_diagnostic, item_finding, Section};
use crate::text::{owned, views};
use vstd::prelude::*;

verus! {

/// The message for a `bool`-returning function.
pub const BOOL_MESSAGE: &'static str = "Function returns `bool` but has no `# Returns` section.\n\nWhy: Readers should not have to inspect the implementation to understand what `true` and `false` mean.\n\nSuggestions:\n- No change is needed if the function name or summary already makes both outcomes clear.\n- Otherwise, consider a short `# Returns` section explaining when the function returns `true` and when it returns `false`.";

/// The message for a value-returning function.
pub const VALUE_MESSAGE: &'static str = "Function returns a value but has no `# Returns` section.\n\nWhy: Readers need to understand what the returned value represents, not just its type.\n\nSuggestions:\n- Add a `# Returns` section explaining what the value represents and any special cases callers need to handle.\n- Describe only existing behavior. Do not invent guarantees or change the implementation to satisfy this lint.";

/// `item` is a `pub fn` returning a value or `bool` with no `# Returns`
/// header.
pub open spec fn lacks_returns(item: SourceItem) -> bool {
    &&& item.kind == ItemKind::Fn
    &&& item.visibility == Some(VisibilityTier::Pub)
    &&& (item.return_kind == ReturnKind::Value || item.return_kind == ReturnKind::Bool)
    &&& header_from(views(item.doc_comments@), 0, Section::Returns) is None
}

/// `r` is exactly the rule's report: the count its condition gives, and
/// the finding's fields when there is one.
pub open spec fn reports(item: SourceItem, r: Seq<Diagnostic>) -> bool {
    &&& r.len() == (if lacks_returns(item) {
        1int
    } else {
        0int
    })
    &&& r.len() == 1 ==> item_finding(
        r[0],
        item,
        CODE_MISSING_RETURNS@,
        if item.return_kind == ReturnKind::Bool {
            Severity::Reminder
        } else {
            Severity::Warning
        },
        Some("missing `# Returns` section"@),
        if item.return_kind == ReturnKind::Bool {
            BOOL_MESSAGE@
        } else {
            VALUE_MESSAGE@
        },
    )
}

/// Report a `pub fn` returning a documented value without a `# Returns`
/// header.
///
/// # Arguments
///
/// - `item` - the item to inspect.
///
/// # Returns
///
/// One DOC011 finding, a warning for a value and a reminder for `bool`,
/// or nothing.
pub fn check(item: &SourceItem) -> (r: Vec<Diagnostic>)
    ensures
        reports(*item, r@),
{
    let mut out: Vec<Diagnostic> = Vec::new();
    if !(item.kind == ItemKind::Fn && item.visibility == Some(VisibilityTier::Pub)) {
        return out;
    }
    let (severity, message) = match item.return_kind {
        ReturnKind::Value => (
            Severity::Warning,
            owned(VALUE_MESSAGE),
        ),
        ReturnKind::Bool => (
            Severity::Reminder,
            owned(BOOL_MESSAGE),
        ),
        _ => return out,
    };
    if find_section(&item.doc_comments, Section::Returns).is_some() {
        return out;
    }
    out.push(item_diagnostic(item, CODE_MISSING_RETURNS, severity, Some("missing `# Returns` section"), message));
    out
}

} // verus!
