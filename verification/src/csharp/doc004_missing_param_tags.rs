//! `DOC004`: a non-private member with parameters documents none of them
//! with a `<param>` tag.
use crate::codes::CODE_MISSING_ARGUMENTS;
use crate::csharp::declarations::{decl_diagnostic, decl_finding, Declaration};
use crate::csharp::doc_tags::{param_tags, param_tags_spec};
use crate::diagnostic::{Diagnostic, Severity};
use crate::text::{owned, views};
use vstd::prelude::*;

verus! {

/// The parameter checks read `decl`: a non-private method, constructor or
/// indexer that declares parameters.
pub open spec fn scans_params(decl: Declaration) -> bool {
    decl.non_private && decl.parameterized && decl.params.len() > 0
}

/// DOC004 applies to `decl`.
pub open spec fn fires(decl: Declaration) -> bool {
    scans_params(decl) && param_tags_spec(views(decl.docs@)).len() == 0
}

/// The DOC004 message.
pub open spec fn message() -> Seq<char> {
    "member with parameters is missing `<param>` doc tags.\n\nWhy: Readers need parameter roles and constraints to supply appropriate inputs.\n\nSuggestions:\n- Add a `<param name=\"...\">` tag for each declared parameter, describing its role and any constraints supported by the existing contract."@
}

/// `d` is the DOC004 finding on `decl`.
pub open spec fn expected(d: Diagnostic, decl: Declaration) -> bool {
    decl_finding(d, decl, CODE_MISSING_ARGUMENTS@, Severity::Warning, "missing `<param>` doc tags"@, message())
}

/// Report a non-private member with parameters and no `<param>` tag.
///
/// # Returns
///
/// One DOC004 warning when no parameter is tagged, else nothing.
pub fn check(decl: &Declaration) -> (r: Vec<Diagnostic>)
    ensures
        r.len() == (if fires(*decl) {
            1int
        } else {
            0int
        }),
        r.len() == 1 ==> expected(r@[0], *decl),
{
    let mut out: Vec<Diagnostic> = Vec::new();
    if !decl.non_private || !decl.parameterized || decl.params.len() == 0 {
        return out;
    }
    let tags = param_tags(&decl.docs);
    if tags.len() == 0 {
        out.push(
            decl_diagnostic(
                decl,
                CODE_MISSING_ARGUMENTS,
                Severity::Warning,
                "missing `<param>` doc tags",
                owned(
                    "member with parameters is missing `<param>` doc tags.\n\nWhy: Readers need parameter roles and constraints to supply appropriate inputs.\n\nSuggestions:\n- Add a `<param name=\"...\">` tag for each declared parameter, describing its role and any constraints supported by the existing contract.",
                ),
            ),
        );
    }
    out
}

} // verus!
