//! `DOC002`: a non-private method or constructor that can throw carries
//! no `<exception>` doc tag.
use crate::codes::CODE_MISSING_ERRORS;
use crate::csharp::declarations::{decl_diagnostic, decl_finding, is_throwing_kind, throwing_kind, Declaration};
use crate::csharp::exception_tags::{exception_tags, exception_tags_spec};
use crate::diagnostic::{Diagnostic, Severity};
use crate::text::{owned, views};
use vstd::prelude::*;

verus! {

/// DOC002 applies to `decl`, given whether it can throw.
pub open spec fn fires(decl: Declaration, throws: bool) -> bool {
    &&& decl.non_private
    &&& throwing_kind(decl.kind)
    &&& throws
    &&& exception_tags_spec(views(decl.docs@)).len() == 0
}

/// The DOC002 message.
pub open spec fn message() -> Seq<char> {
    "member that can throw is missing an `<exception>` doc tag.\n\nWhy: Readers need to understand possible failures and when they occur.\n\nSuggestions:\n- Trace its throws and calls.\n- Document each exception that can escape with `<exception cref=\"Type\">` and the specific condition that causes it.\n- Do not invent exceptions or change behavior to satisfy this lint."@
}

/// `d` is the DOC002 finding on `decl`.
pub open spec fn expected(d: Diagnostic, decl: Declaration) -> bool {
    decl_finding(d, decl, CODE_MISSING_ERRORS@, Severity::Error, "missing `<exception>` doc tag"@, message())
}

/// Report a non-private member that can throw and documents no
/// `<exception>`.
///
/// # Arguments
///
/// - `decl` - the declaration to inspect.
/// - `throws` - whether the member can throw, directly or through the
///   same-file members it calls.
///
/// # Returns
///
/// One DOC002 error when the tag is missing, else nothing.
pub fn check(decl: &Declaration, throws: bool) -> (r: Vec<Diagnostic>)
    ensures
        r.len() == (if fires(*decl, throws) {
            1int
        } else {
            0int
        }),
        r.len() == 1 ==> expected(r@[0], *decl),
{
    let mut out: Vec<Diagnostic> = Vec::new();
    if !decl.non_private || !is_throwing_kind(decl.kind) || !throws {
        return out;
    }
    let tags = exception_tags(&decl.docs);
    if tags.len() == 0 {
        out.push(
            decl_diagnostic(
                decl,
                CODE_MISSING_ERRORS,
                Severity::Error,
                "missing `<exception>` doc tag",
                owned(
                    "member that can throw is missing an `<exception>` doc tag.\n\nWhy: Readers need to understand possible failures and when they occur.\n\nSuggestions:\n- Trace its throws and calls.\n- Document each exception that can escape with `<exception cref=\"Type\">` and the specific condition that causes it.\n- Do not invent exceptions or change behavior to satisfy this lint.",
                ),
            ),
        );
    }
    out
}

} // verus!
