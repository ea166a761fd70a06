//! `DOC002`: a public function returning `Result` lacks an `# Errors`
//! section.
use crate::codes::CODE_MISSING_ERRORS;
use crate::diagnostic::{Diagnostic, Severity};
use crate::rust::items::{ItemKind, SourceItem, VisibilityTier};
use crate::rust::sections::{find_errors_section, header_from, item_diagnostic, item_finding, Section};
use crate::text::{owned, views};
use vstd::prelude::*;

verus! {

/// A fully public function whose return type's final segment is `Result`.
pub open spec fn is_pub_result_fn(item: SourceItem) -> bool {
    item.kind == ItemKind::Fn && item.visibility == Some(VisibilityTier::Pub) && item.returns_result
}

/// True when `item` is a `pub fn` returning `Result`.
pub fn pub_result_fn(item: &SourceItem) -> (r: bool)
    ensures
        r == is_pub_result_fn(*item),
{
    item.kind == ItemKind::Fn && item.visibility == Some(VisibilityTier::Pub) && item.returns_result
}

/// The DOC002 message.
pub open spec fn missing_errors_message() -> Seq<char> {
    "pub fn returning Result is missing a `# Errors` doc section.\n\nWhy: Readers need to understand possible failures and when they occur.\n\nSuggestions:\n- Add a `# Errors` section describing each error the implementation can return and its specific trigger.\n- If it cannot return an error, say so.\n- Do not invent errors or change behavior to satisfy this lint."@
}

/// `r` is exactly the rule's report: the count its condition gives, and
/// the finding's fields when there is one.
pub open spec fn reports(item: SourceItem, r: Seq<Diagnostic>) -> bool {
    &&& r.len() == (if is_pub_result_fn(item) && header_from(views(item.doc_comments@), 0, Section::Errors) is None {
        1int
    } else {
        0int
    })
    &&& r.len() == 1 ==> item_finding(r[0], item, CODE_MISSING_ERRORS@, Severity::Error, None, missing_errors_message())
}

/// Report a `pub fn` returning `Result` whose docs hold no `# Errors`
/// header.
///
/// # Arguments
///
/// - `item` - the item to inspect.
///
/// # Returns
///
/// One DOC002 error when the section is missing, else nothing.
pub fn check(item: &SourceItem) -> (r: Vec<Diagnostic>)
    ensures
        reports(*item, r@),
{
    let mut out: Vec<Diagnostic> = Vec::new();
    if !pub_result_fn(item) {
        return out;
    }
    if find_errors_section(&item.doc_comments).is_some() {
        return out;
    }
    let message = owned(
        "pub fn returning Result is missing a `# Errors` doc section.\n\nWhy: Readers need to understand possible failures and when they occur.\n\nSuggestions:\n- Add a `# Errors` section describing each error the implementation can return and its specific trigger.\n- If it cannot return an error, say so.\n- Do not invent errors or change behavior to satisfy this lint.",
    );
    out.push(item_diagnostic(item, CODE_MISSING_ERRORS, Severity::Error, None, message));
    out
}

} // verus!
