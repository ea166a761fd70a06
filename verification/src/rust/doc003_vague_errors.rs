//! `DOC003`: an `# Errors` section names no concrete error variant.
//!
//! A variant counts as named when a non-blank body line holds a `::` path.
use crate::codes::CODE_VAGUE_ERRORS;
use crate::diagnostic::{Diagnostic, Severity};
use crate::rust::doc002_missing_errors_section::{is_pub_result_fn, pub_result_fn};
use crate::rust::items::SourceItem;
use crate::rust::sections::{
    find_errors_section, header_from, item_diagnostic, item_finding, section_body, section_body_spec, Section,
};
use crate::text::{chars_of, contains_seq, owned, str_contains, trim, trim_spec, views};
use vstd::prelude::*;

verus! {

/// Some non-blank line of `lines` holds a `::` path.
pub open spec fn names_variant(lines: Seq<Seq<char>>) -> bool {
    exists|k: int|
        0 <= k < lines.len() && trim_spec(#[trigger] lines[k]).len() > 0 && contains_seq(trim_spec(lines[k]), "::"@)
}

/// True when some non-blank line of `lines` holds a `::` path.
pub fn section_names_variant(lines: &Vec<String>) -> (r: bool)
    ensures
        r == names_variant(views(lines@)),
{
    let n = lines.len();
    let mut k: usize = 0;
    while k < n
        invariant
            n == lines.len(),
            k <= n,
            forall|j: int|
                0 <= j < k ==> !(trim_spec(#[trigger] views(lines@)[j]).len() > 0 && contains_seq(
                    trim_spec(views(lines@)[j]),
                    "::"@,
                )),
        decreases n - k,
    {
        let t = trim(lines[k].as_str());
        assert(views(lines@)[k as int] == lines@[k as int]@);
        if chars_of(t.as_str()).len() > 0 && str_contains(t.as_str(), "::") {
            return true;
        }
        k += 1;
    }
    false
}

/// The vague-errors condition: a `pub fn` returning `Result` whose
/// `# Errors` body names no variant.
pub open spec fn is_vague(item: SourceItem) -> bool {
    is_pub_result_fn(item) && match header_from(views(item.doc_comments@), 0, Section::Errors) {
        Some(start) => !names_variant(section_body_spec(views(item.doc_comments@), start)),
        None => false,
    }
}

/// DOC002 and DOC003 never report on the same item: one asks for a
/// missing `# Errors` section, the other for a vague one that exists.
pub proof fn lemma_never_with_missing_section(item: SourceItem)
    ensures
        !(is_vague(item) && header_from(views(item.doc_comments@), 0, Section::Errors) is None),
{
}

/// The DOC003 message.
pub open spec fn vague_errors_message() -> Seq<char> {
    "`# Errors` section has no `::` path naming a concrete error variant.\n\nWhy: Concrete error names help readers connect failure conditions to handling code.\n\nSuggestions:\n- Document each error the implementation can return and its specific trigger.\n- Use variant paths where they exist.\n- If the error type has no variants or the function cannot fail, document that contract.\n- Do not invent variants or change behavior to silence this warning."@
}

/// `r` is exactly the rule's report: the count its condition gives, and
/// the finding's fields when there is one.
pub open spec fn reports(item: SourceItem, r: Seq<Diagnostic>) -> bool {
    &&& r.len() == (if is_vague(item) {
        1int
    } else {
        0int
    })
    &&& r.len() == 1 ==> item_finding(
        r[0],
        item,
        CODE_VAGUE_ERRORS@,
        Severity::Warning,
        Some("vague `# Errors` section"@),
        vague_errors_message(),
    )
}

/// Report a `pub fn` returning `Result` whose `# Errors` section names no
/// concrete variant through a `::` path.
///
/// # Arguments
///
/// - `item` - the item to inspect.
///
/// # Returns
///
/// One DOC003 warning for a vague section, else nothing.
pub fn check(item: &SourceItem) -> (r: Vec<Diagnostic>)
    ensures
        reports(*item, r@),
{
    let mut out: Vec<Diagnostic> = Vec::new();
    if !pub_result_fn(item) {
        return out;
    }
    let start = match find_errors_section(&item.doc_comments) {
        Some(s) => s,
        None => return out,
    };
    let body = section_body(&item.doc_comments, start);
    if section_names_variant(&body) {
        return out;
    }
    let message = owned(
        "`# Errors` section has no `::` path naming a concrete error variant.\n\nWhy: Concrete error names help readers connect failure conditions to handling code.\n\nSuggestions:\n- Document each error the implementation can return and its specific trigger.\n- Use variant paths where they exist.\n- If the error type has no variants or the function cannot fail, document that contract.\n- Do not invent variants or change behavior to silence this warning.",
    );
    out.push(item_diagnostic(item, CODE_VAGUE_ERRORS, Severity::Warning, Some("vague `# Errors` section"), message));
    out
}

} // verus!
