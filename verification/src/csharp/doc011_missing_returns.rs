//! `DOC011`: a non-private method returning a value carries no
//! `<returns>` tag; a `bool` return only reminds, since a good summary
//! often covers both outcomes.
use crate::codes::CODE_MISSING_RETURNS;
use crate::csharp::declarations::{decl_diagnostic, decl_finding, Declaration};
use crate::csharp::doc_tags::{tag_slices, tag_slices_spec};
use crate::diagnostic::{Diagnostic, Severity};
use crate::rust::items::ReturnKind;
use crate::text::{owned, views};
use vstd::prelude::*;

verus! {

/// DOC011 applies to `decl`.
pub open spec fn fires(decl: Declaration) -> bool {
    &&& decl.non_private
    &&& decl.return_kind matches Some(k) && (k == ReturnKind::Bool || k == ReturnKind::Value)
    &&& tag_slices_spec(views(decl.docs@), "returns"@).len() == 0
}

/// The DOC011 reminder for a `bool` return.
pub open spec fn bool_message() -> Seq<char> {
    "Method returns `bool` but has no `<returns>` tag.\n\nWhy: Readers should not have to inspect the implementation to understand what `true` and `false` mean.\n\nSuggestions:\n- No change is needed if the method name or summary already makes both outcomes clear.\n- Otherwise, consider a short `<returns>` tag explaining when the method returns `true` and when it returns `false`."@
}

/// The DOC011 warning for any other value.
pub open spec fn value_message() -> Seq<char> {
    "Method returns a value but has no `<returns>` tag.\n\nWhy: Readers need to understand what the returned value represents, not just its type.\n\nSuggestions:\n- Add a `<returns>` tag explaining what the value represents and any special cases callers need to handle.\n- Describe only existing behavior. Do not invent guarantees or change the implementation to satisfy this lint."@
}

/// `d` is the DOC011 finding on `decl`.
pub open spec fn expected(d: Diagnostic, decl: Declaration) -> bool {
    if decl.return_kind == Some(ReturnKind::Bool) {
        decl_finding(d, decl, CODE_MISSING_RETURNS@, Severity::Reminder, "missing `<returns>` tag"@, bool_message())
    } else {
        decl_finding(d, decl, CODE_MISSING_RETURNS@, Severity::Warning, "missing `<returns>` tag"@, value_message())
    }
}

/// Report a non-private method returning a value without a `<returns>`
/// tag.
///
/// # Returns
///
/// One DOC011 finding (a reminder for `bool`, a warning otherwise), else
/// nothing.
pub fn check(decl: &Declaration) -> (r: Vec<Diagnostic>)
    ensures
        r.len() == (if fires(*decl) {
            1int
        } else {
            0int
        }),
        r.len() == 1 ==> expected(r@[0], *decl),
{
    let mut out: Vec<Diagnostic> = Vec::new();
    if !decl.non_private {
        return out;
    }
    let is_bool = match decl.return_kind {
        Some(ReturnKind::Bool) => true,
        Some(ReturnKind::Value) => false,
        _ => {
            return out;
        },
    };
    let tags = tag_slices(&decl.docs, "returns");
    if tags.len() > 0 {
        return out;
    }
    if is_bool {
        out.push(
            decl_diagnostic(
                decl,
                CODE_MISSING_RETURNS,
                Severity::Reminder,
                "missing `<returns>` tag",
                owned(
                    "Method returns `bool` but has no `<returns>` tag.\n\nWhy: Readers should not have to inspect the implementation to understand what `true` and `false` mean.\n\nSuggestions:\n- No change is needed if the method name or summary already makes both outcomes clear.\n- Otherwise, consider a short `<returns>` tag explaining when the method returns `true` and when it returns `false`.",
                ),
            ),
        );
    } else {
        out.push(
            decl_diagnostic(
                decl,
                CODE_MISSING_RETURNS,
                Severity::Warning,
                "missing `<returns>` tag",
                owned(
                    "Method returns a value but has no `<returns>` tag.\n\nWhy: Readers need to understand what the returned value represents, not just its type.\n\nSuggestions:\n- Add a `<returns>` tag explaining what the value represents and any special cases callers need to handle.\n- Describe only existing behavior. Do not invent guarantees or change the implementation to satisfy this lint.",
                ),
            ),
        );
    }
    out
}

} // verus!
