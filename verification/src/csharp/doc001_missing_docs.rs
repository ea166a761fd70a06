//! `DOC001`: a non-private declaration of a documentable kind carries no
//! `///` doc comment.
use crate::codes::CODE_MISSING_DOCS;
use crate::csharp::declarations::{decl_diagnostic, decl_finding, documentable, is_documentable, Declaration};
use crate::diagnostic::{Diagnostic, Severity};
use crate::text::owned;
use vstd::prelude::*;

verus! {

/// DOC001 applies to `decl`.
pub open spec fn fires(decl: Declaration) -> bool {
    decl.non_private && documentable(decl.kind) && decl.docs.len() == 0
}

/// The DOC001 message.
pub open spec fn message() -> Seq<char> {
    "non-private item is missing a doc comment.\n\nWhy: Readers need its purpose and contract without tracing the implementation.\n\nSuggestions:\n- Add `/// <summary>` docs describing its purpose and supported contract."@
}

/// `d` is the DOC001 finding on `decl`.
pub open spec fn expected(d: Diagnostic, decl: Declaration) -> bool {
    decl_finding(d, decl, CODE_MISSING_DOCS@, Severity::Error, "missing documentation"@, message())
}

/// Report a non-private documentable declaration without doc lines.
///
/// # Returns
///
/// One DOC001 error when the docs are missing, else nothing.
pub fn check(decl: &Declaration) -> (r: Vec<Diagnostic>)
    ensures
        r.len() == (if fires(*decl) {
            1int
        } else {
            0int
        }),
        r.len() == 1 ==> expected(r@[0], *decl),
{
    let mut out: Vec<Diagnostic> = Vec::new();
    if decl.non_private && is_documentable(decl.kind) && decl.docs.len() == 0 {
        out.push(
            decl_diagnostic(
                decl,
                CODE_MISSING_DOCS,
                Severity::Error,
                "missing documentation",
                owned(
                    "non-private item is missing a doc comment.\n\nWhy: Readers need its purpose and contract without tracing the implementation.\n\nSuggestions:\n- Add `/// <summary>` docs describing its purpose and supported contract.",
                ),
            ),
        );
    }
    out
}

} // verus!
