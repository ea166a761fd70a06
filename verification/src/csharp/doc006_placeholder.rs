//! `DOC006`: a documentable declaration's doc comment holds a placeholder
//! marker word (`TODO`, `FIXME` or `TBD`, in any ASCII case).
use crate::codes::CODE_DOC_PLACEHOLDER;
use crate::csharp::declarations::{decl_diagnostic, decl_finding, documentable, is_documentable, Declaration};
use crate::csharp::doc_tags::{contains_word, contains_word_spec};
use crate::diagnostic::{Diagnostic, Severity};
use crate::text::owned;
use vstd::prelude::*;

verus! {

/// The doc line `line` holds a placeholder marker as a whole word.
pub open spec fn has_marker(line: Seq<char>) -> bool {
    contains_word_spec(line, "todo"@) || contains_word_spec(line, "fixme"@) || contains_word_spec(line, "tbd"@)
}

/// DOC006 applies to `decl`.
pub open spec fn fires(decl: Declaration) -> bool {
    documentable(decl.kind) && exists|i: int| 0 <= i < decl.docs.len() && has_marker(#[trigger] decl.docs@[i]@)
}

/// The DOC006 message.
pub open spec fn message() -> Seq<char> {
    "doc comment contains placeholder text (TODO/FIXME/TBD).\n\nWhy: Placeholders leave readers without an explanation of current behavior.\n\nSuggestions:\n- Replace the placeholder with an accurate description of the existing contract."@
}

/// `d` is the DOC006 finding on `decl`.
pub open spec fn expected(d: Diagnostic, decl: Declaration) -> bool {
    decl_finding(d, decl, CODE_DOC_PLACEHOLDER@, Severity::Warning, "placeholder text"@, message())
}

/// True when `line` holds a placeholder marker as a whole word.
fn marker_in(line: &str) -> (r: bool)
    ensures
        r == has_marker(line@),
{
    proof {
        reveal_strlit("todo");
        reveal_strlit("fixme");
        reveal_strlit("tbd");
    }
    contains_word(line, "todo") || contains_word(line, "fixme") || contains_word(line, "tbd")
}

/// Report a documentable declaration whose docs hold a placeholder.
///
/// # Returns
///
/// One DOC006 warning when some doc line holds a marker, else nothing.
pub fn check(decl: &Declaration) -> (r: Vec<Diagnostic>)
    ensures
        r.len() == (if fires(*decl) {
            1int
        } else {
            0int
        }),
        r.len() == 1 ==> expected(r@[0], *decl),
{
    let mut out: Vec<Diagnostic> = Vec::new();
    if !is_documentable(decl.kind) {
        return out;
    }
    let mut i: usize = 0;
    while i < decl.docs.len()
        invariant
            i <= decl.docs.len(),
            documentable(decl.kind),
            out.len() == 0,
            forall|q: int| 0 <= q < i ==> !has_marker(#[trigger] decl.docs@[q]@),
        decreases decl.docs.len() - i,
    {
        if marker_in(decl.docs[i].as_str()) {
            assert(has_marker(decl.docs@[i as int]@));
            out.push(
                decl_diagnostic(
                    decl,
                    CODE_DOC_PLACEHOLDER,
                    Severity::Warning,
                    "placeholder text",
                    owned(
                        "doc comment contains placeholder text (TODO/FIXME/TBD).\n\nWhy: Placeholders leave readers without an explanation of current behavior.\n\nSuggestions:\n- Replace the placeholder with an accurate description of the existing contract.",
                    ),
                ),
            );
            return out;
        }
        i += 1;
    }
    out
}

} // verus!
