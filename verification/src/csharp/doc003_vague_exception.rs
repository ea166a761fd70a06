//! `DOC003`: a non-private member that can throw documents exceptions,
//! but no `<exception>` tag names a concrete `cref` type.
use crate::codes::CODE_VAGUE_ERRORS;
use crate::csharp::declarations::{decl_diagnostic, decl_finding, is_throwing_kind, throwing_kind, Declaration};
use crate::csharp::exception_tags::{any_concrete_type, exception_tags, exception_tags_spec, names_concrete_type};
use crate::diagnostic::{Diagnostic, Severity};
use crate::text::{owned, views};
use vstd::prelude::*;

verus! {

/// DOC003 applies to `decl`, given whether it can throw.
pub open spec fn fires(decl: Declaration, throws: bool) -> bool {
    let tags = exception_tags_spec(views(decl.docs@));
    &&& decl.non_private
    &&& throwing_kind(decl.kind)
    &&& throws
    &&& tags.len() > 0
    &&& !names_concrete_type(tags)
}

/// The DOC003 message.
pub open spec fn message() -> Seq<char> {
    "`<exception>` doc tags name no concrete exception type (`cref`).\n\nWhy: Concrete exception types help readers connect failure conditions to handling code.\n\nSuggestions:\n- Verify the member and its calls.\n- Set each `cref` to the actual exception type that can escape.\n- Describe the specific condition that causes each exception.\n- Do not invent exceptions or change behavior to satisfy this lint."@
}

/// `d` is the DOC003 finding on `decl`.
pub open spec fn expected(d: Diagnostic, decl: Declaration) -> bool {
    decl_finding(d, decl, CODE_VAGUE_ERRORS@, Severity::Warning, "vague `# Errors` section"@, message())
}

/// Report a non-private member that can throw whose `<exception>` tags
/// all lack a concrete `cref`.
///
/// # Arguments
///
/// - `decl` - the declaration to inspect.
/// - `throws` - whether the member can throw.
///
/// # Returns
///
/// One DOC003 warning when every tag is vague, else nothing.
pub fn check(decl: &Declaration, throws: bool) -> (r: Vec<Diagnostic>)
    ensures
        r.len() == (if fires(*decl, throws) {
            1int
        } else {
            0int
        }),
        r.len() == 1 ==> expected(r@[0], *decl),
{
    let mut out: Vec<Diagnostic> = Vec::new();
    if !decl.non_private || !is_throwing_kind(decl.kind) || !throws {
        return out;
    }
    let tags = exception_tags(&decl.docs);
    if tags.len() > 0 && !any_concrete_type(&tags) {
        out.push(
            decl_diagnostic(
                decl,
                CODE_VAGUE_ERRORS,
                Severity::Warning,
                "vague `# Errors` section",
                owned(
                    "`<exception>` doc tags name no concrete exception type (`cref`).\n\nWhy: Concrete exception types help readers connect failure conditions to handling code.\n\nSuggestions:\n- Verify the member and its calls.\n- Set each `cref` to the actual exception type that can escape.\n- Describe the specific condition that causes each exception.\n- Do not invent exceptions or change behavior to satisfy this lint.",
                ),
            ),
        );
    }
    out
}

} // verus!
