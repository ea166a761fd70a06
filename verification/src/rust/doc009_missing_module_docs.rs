//! `DOC009`: a Rust module file without top-level `//!` docs.
//!
//! The rule fires once per file that has top-level items but no `//!` line
//! in its preamble: the source before the first top-level item (after that
//! item's own docs and attributes, so `///` outer docs never count).
//! Item-less files and files that fail to parse never fire.
use crate::codes::CODE_MISSING_MODULE_DOCS;
use crate::diagnostic::{Diagnostic, Severity};
use crate::rust::items::{item_kind_of, item_kind_spec};
use crate::syntax::{has_error, span_text, tree_has_error, tree_ok, utf8_span, SyntaxTree};
use crate::text::{chars_of, is_white_space, occurs_at, owned, push_str};
use vstd::prelude::*;

verus! {

/// Header-writing guidance shared by the module-docs findings.
pub const HEADER_GUIDANCE: &'static str = "Why: A purpose-first header helps readers understand the module\nwithout reading its implementation.\n\nSuggestions:\n- Read the module and relevant callers; document only supported facts.\n- Start with one concise sentence explaining what the module does and why.\n  Do not just restate its name. A simple module needs no more.\n- If more detail is useful, put it below the summary, separated by a blank doc line.\n- Use that detail to outline major responsibilities, entry points, or non-obvious constraints.\n- Use bullets for multiple topics.\n- Link to item docs instead of repeating their details.";

/// The DOC009 message.
pub open spec fn module_docs_message() -> Seq<char> {
    "module file is missing `//!` module docs.\n\n"@ + HEADER_GUIDANCE@
        + "\n- Add `//!` docs before the first top-level item.\n- For a module root (`mod.rs`, or `foo.rs` with child modules), identify\n  main entry points and relevant child-module responsibilities.\n- Keep this change to header writing; do not move code."@
}

/// The first child of the root, from child `c` up to `stop`, that is an
/// item.
pub open spec fn first_item_from(tree: SyntaxTree, c: int, stop: int) -> Option<int>
    decreases stop - c,
{
    if c < 0 || c >= stop || c >= tree.nodes.len() || c >= tree.ends.len() {
        None
    } else if item_kind_spec(tree.nodes[c].kind@) is Some {
        Some(c)
    } else if tree.ends[c] <= c || tree.ends[c] >= stop {
        None
    } else {
        first_item_from(tree, tree.ends[c] as int, stop)
    }
}

/// The file's first top-level item.
pub open spec fn first_item(tree: SyntaxTree) -> Option<int> {
    first_item_from(tree, 1, tree.ends[0] as int)
}

/// `text` has a line whose first non-whitespace characters are `//!`.
pub open spec fn has_doc_line(text: Seq<char>) -> bool {
    exists|p: int|
        #![trigger occurs_at(text, "//!"@, p)]
        occurs_at(text, "//!"@, p) && forall|k: int|
            0 <= k < p && (forall|m: int| k <= m < p ==> text[m] != '\n') ==> is_white_space(#[trigger] text[k])
}

/// The file has items and no `//!` line before the first of them.
pub open spec fn lacks_module_docs(tree: SyntaxTree, src: Seq<u8>) -> bool {
    &&& !has_error(tree)
    &&& first_item(tree) matches Some(f)
    &&& !(span_text(src, 0, tree.nodes[f].start as int) matches Some(t) && has_doc_line(t))
}

/// The index of the file's first top-level item.
fn find_first_item(tree: &SyntaxTree) -> (r: Option<usize>)
    requires
        tree.wf(),
    ensures
        r matches Some(f) ==> first_item(*tree) == Some(f as int) && f < tree.nodes.len(),
        r is None ==> first_item(*tree) is None,
{
    let stop = tree.ends[0];
    let mut c: usize = 1;
    while c < stop
        invariant
            tree.wf(),
            stop == tree.ends[0],
            stop <= tree.nodes.len(),
            0 < c,
            first_item(*tree) == first_item_from(*tree, c as int, stop as int),
        decreases tree.nodes.len() - c,
    {
        if item_kind_of(tree, c).is_some() {
            return Some(c);
        }
        c = tree.ends[c];
    }
    None
}

/// True when `text` has a line whose first non-whitespace characters are
/// `//!`.
fn contains_doc_line(text: &str) -> (r: bool)
    ensures
        r == has_doc_line(text@),
{
    let chars = chars_of(text);
    let n = chars.len();
    let mut blank = true;
    let mut p: usize = 0;
    while p < n
        invariant
            chars@ == text@,
            n == chars.len(),
            p <= n,
            blank == forall|k: int|
                0 <= k < p && (forall|m: int| k <= m < p ==> text@[m] != '\n') ==> is_white_space(#[trigger] text@[k]),
            forall|q: int|
                0 <= q < p ==> !(occurs_at(text@, "//!"@, q) && forall|k: int|
                    0 <= k < q && (forall|m: int| k <= m < q ==> text@[m] != '\n') ==> is_white_space(
                        #[trigger] text@[k],
                    )),
        decreases n - p,
    {
        proof {
            reveal_strlit("//!");
        }
        let here = blank && n - p >= 3 && chars[p] == '/' && chars[p + 1] == '/' && chars[p + 2] == '!';
        if here {
            assert(text@.subrange(p as int, p + 3) =~= "//!"@);
            assert(occurs_at(text@, "//!"@, p as int));
            return true;
        }
        proof {
            if occurs_at(text@, "//!"@, p as int) {
                assert(text@.subrange(p as int, p + 3)[0] == '/');
                assert(text@.subrange(p as int, p + 3)[1] == '/');
                assert(text@.subrange(p as int, p + 3)[2] == '!');
            }
        }
        let c = chars[p];
        let ghost old_blank = blank;
        if c == '\n' {
            blank = true;
        } else if !(('\t' <= c && c <= '\r') || c == ' ' || c == '\u{85}' || c == '\u{a0}' || c == '\u{1680}' || (
        '\u{2000}' <= c && c <= '\u{200a}') || c == '\u{2028}' || c == '\u{2029}' || c == '\u{202f}' || c
            == '\u{205f}' || c == '\u{3000}') {
            blank = false;
        }
        proof {
            let np = p + 1;
            if c == '\n' {
                assert forall|k: int|
                    0 <= k < np && (forall|m: int| k <= m < np ==> text@[m] != '\n') implies is_white_space(
                        #[trigger] text@[k],
                    ) by {
                    assert(text@[p as int] == '\n');
                }
            } else if is_white_space(c) {
                if old_blank {
                    assert forall|k: int|
                        0 <= k < np && (forall|m: int| k <= m < np ==> text@[m] != '\n') implies is_white_space(
                            #[trigger] text@[k],
                        ) by {
                        if k < p {
                            assert(forall|m: int| k <= m < p ==> text@[m] != '\n');
                        }
                    }
                } else {
                    let w = choose|k: int|
                        0 <= k < p && (forall|m: int| k <= m < p ==> text@[m] != '\n') && !is_white_space(
                            #[trigger] text@[k],
                        );
                    assert(0 <= w < np && (forall|m: int| w <= m < np ==> text@[m] != '\n') && !is_white_space(
                        text@[w],
                    ));
                }
            } else {
                assert(0 <= p < np && (forall|m: int| p <= m < np ==> text@[m] != '\n') && !is_white_space(
                    text@[p as int],
                ));
            }
        }
        p += 1;
    }
    proof {
        reveal_strlit("//!");
        if has_doc_line(text@) {
            let q = choose|q: int|
                #![trigger occurs_at(text@, "//!"@, q)]
                occurs_at(text@, "//!"@, q) && forall|k: int|
                    0 <= k < q && (forall|m: int| k <= m < q ==> text@[m] != '\n') ==> is_white_space(
                        #[trigger] text@[k],
                    );
            assert(q < n);
        }
    }
    false
}

/// `r` is exactly the rule's report: the count its condition gives, and
/// the finding's fields when there is one.
pub open spec fn reports(tree: SyntaxTree, src: Seq<u8>, r: Seq<Diagnostic>) -> bool {
    &&& r.len() == (if lacks_module_docs(tree, src) {
        1int
    } else {
        0int
    })
    &&& r.len() == 1 ==> {
        &&& r[0].code@ == CODE_MISSING_MODULE_DOCS@
        &&& r[0].severity == Severity::Error
        &&& r[0].title matches Some(t) && t@ == "module file without top-level docs"@
        &&& r[0].message@ == module_docs_message()
        &&& r[0].line == 1
        &&& r[0].item_kind@ == "file"@
        &&& r[0].item_name is None
    }
}

/// Report a file with top-level items and no `//!` module docs before the
/// first of them.
///
/// # Arguments
///
/// - `tree` - the parsed file.
/// - `src` - the file's bytes.
///
/// # Returns
///
/// One DOC009 error on line 1 for a file missing module docs, else nothing.
pub fn check(tree: &SyntaxTree, src: &[u8]) -> (r: Vec<Diagnostic>)
    requires
        tree_ok(tree, src),
    ensures
        reports(*tree, src@, r@),
{
    let mut out: Vec<Diagnostic> = Vec::new();
    if tree_has_error(tree) {
        return out;
    }
    let first = match find_first_item(tree) {
        Some(f) => f,
        None => return out,
    };
    let documented = match utf8_span(src, 0, tree.nodes[first].start) {
        Some(text) => contains_doc_line(text.as_str()),
        None => false,
    };
    if documented {
        return out;
    }
    let mut message = owned("module file is missing `//!` module docs.\n\n");
    push_str(&mut message, HEADER_GUIDANCE);
    push_str(
        &mut message,
        "\n- Add `//!` docs before the first top-level item.\n- For a module root (`mod.rs`, or `foo.rs` with child modules), identify\n  main entry points and relevant child-module responsibilities.\n- Keep this change to header writing; do not move code.",
    );
    out.push(
        Diagnostic {
            severity: Severity::Error,
            code: CODE_MISSING_MODULE_DOCS,
            title: Some(owned("module file without top-level docs")),
            message,
            line: 1,
            item_kind: owned("file"),
            item_name: None,
        },
    );
    out
}

} // verus!
