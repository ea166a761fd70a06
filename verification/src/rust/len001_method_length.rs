//! `LEN001`: hint at Rust functions whose bodies run over a line budget.
//!
//! Every bodied `function_item` is measured on its own braces: free
//! functions, methods, test functions, and inner functions, whose lines
//! also count toward the enclosing function.
//!
//! A measured line is a physical line strictly between the body braces
//! that holds a non-whitespace byte outside every comment. Blank lines and
//! comment-only lines never count, `//` and `/* */` alike, and the
//! signature never counts: the range starts after the opening brace.
use crate::codes::CODE_LEN001;
use crate::diagnostic::{Diagnostic, Severity};
use crate::syntax::{field_child, node_text, span_text, tree_ok, SyntaxTree};
use crate::text::{decimal, decimal_string, owned, push_str};
use vstd::prelude::*;

verus! {

/// Node `c` is a line or block comment.
pub open spec fn is_comment(tree: SyntaxTree, c: int) -> bool {
    tree.nodes[c].kind@ == "line_comment"@ || tree.nodes[c].kind@ == "block_comment"@
}

/// Byte `p` lies inside some comment's span.
pub open spec fn covered(tree: SyntaxTree, p: int) -> bool {
    exists|c: int| 0 <= c < tree.nodes.len() && is_comment(tree, c) && #[trigger] tree.nodes[c].start <= p
        < tree.nodes[c].end
}

/// ASCII whitespace: tab, line feed, form feed, carriage return, space.
pub open spec fn is_space(b: u8) -> bool {
    b == 9 || b == 10 || b == 12 || b == 13 || b == 32
}

/// Byte `p` is code: not whitespace and not inside a comment.
pub open spec fn code_at(tree: SyntaxTree, src: Seq<u8>, p: int) -> bool {
    !is_space(src[p]) && !covered(tree, p)
}

/// The number of lines of `src[p..e]` that hold code, where `seen` says
/// whether the line in progress at `p` already does.
pub open spec fn count_from(tree: SyntaxTree, src: Seq<u8>, p: int, e: int, seen: bool) -> nat
    decreases e - p,
{
    if p >= e {
        if seen {
            1
        } else {
            0
        }
    } else if src[p] == 10 {
        (if seen {
            1nat
        } else {
            0nat
        }) + count_from(tree, src, p + 1, e, false)
    } else {
        count_from(tree, src, p + 1, e, seen || code_at(tree, src, p))
    }
}

/// The measured range of the body node `b`: after its opening brace and
/// before its closing one, never inverted.
pub open spec fn body_start(tree: SyntaxTree, b: int) -> int {
    tree.nodes[b].start + 1
}

pub open spec fn body_end(tree: SyntaxTree, b: int) -> int {
    let close = if tree.nodes[b].end >= 1 {
        tree.nodes[b].end - 1
    } else {
        0
    };
    if close > body_start(tree, b) {
        close
    } else {
        body_start(tree, b)
    }
}

/// The measured lines of the body node `b`.
pub open spec fn measured(tree: SyntaxTree, src: Seq<u8>, b: int) -> nat {
    count_from(tree, src, body_start(tree, b), body_end(tree, b), false)
}

/// Node `i` is a function item with a body; the result is its body node.
pub open spec fn function_body(tree: SyntaxTree, i: int) -> Option<int> {
    if tree.nodes[i].kind@ == "function_item"@ {
        field_child(tree, i, "body"@)
    } else {
        None
    }
}

/// The name a finding shows for function `i`: its name text, or
/// `<unnamed>`.
pub open spec fn shown_name(tree: SyntaxTree, src: Seq<u8>, i: int) -> Seq<char> {
    match field_child(tree, i, "name"@) {
        Some(n) => match span_text(src, tree.nodes[n].start as int, tree.nodes[n].end as int) {
            Some(t) => t,
            None => "<unnamed>"@,
        },
        None => "<unnamed>"@,
    }
}

/// Function `i` runs over `max_lines`.
pub open spec fn oversized(tree: SyntaxTree, src: Seq<u8>, i: int, max_lines: usize) -> bool {
    function_body(tree, i) matches Some(b) && measured(tree, src, b) > max_lines
}

/// The oversized functions among nodes `0..n`, in document order.
pub open spec fn oversized_upto(tree: SyntaxTree, src: Seq<u8>, n: int, max_lines: usize) -> Seq<int>
    decreases n,
{
    if n <= 0 {
        Seq::empty()
    } else if oversized(tree, src, n - 1, max_lines) {
        oversized_upto(tree, src, n - 1, max_lines).push(n - 1)
    } else {
        oversized_upto(tree, src, n - 1, max_lines)
    }
}

/// The hint message for function `name` measuring `count` lines.
pub open spec fn len001_message(name: Seq<char>, count: nat, max_lines: nat) -> Seq<char> {
    "fn `"@ + name + "` has "@ + decimal(count)
        + " body lines (blank and comment-only lines excluded),\nover the "@ + decimal(max_lines)
        + "-line budget (method_length.max_lines).\nWhy:\n- Long functions can make readers track too much control flow and local state.\n- Named, cohesive steps can help readers follow the flow without tracking every detail.\nSuggestions:\n- Consider extracting cohesive steps into functions named for what they do,\n  so the outer function reads as an overview of the flow.\n- Keep closely related work together. Avoid new types, forwarding wrappers,\n  or a wider public API solely to shorten the body.\n- Preserve behavior and performance. Avoid extra allocations, cloning, or\n  repeated work; measure performance-sensitive changes.\n- Mark extracted functions as `#[inline]` if needed.\n- Inner functions still count toward the enclosing body.\n- Keep the body intact if splitting would make it harder to follow or slower."@
}

/// `d` is the finding for the oversized function `i`.
pub open spec fn finding_for(d: Diagnostic, tree: SyntaxTree, src: Seq<u8>, i: int, max_lines: usize) -> bool {
    &&& d.code@ == CODE_LEN001@
    &&& d.severity == Severity::Hint
    &&& d.title is None
    &&& d.line == tree.nodes[i].row + 1
    &&& d.item_kind@ == "fn"@
    &&& d.item_name matches Some(n) && n@ == shown_name(tree, src, i)
    &&& function_body(tree, i) matches Some(b) && d.message@ == len001_message(
        shown_name(tree, src, i),
        measured(tree, src, b),
        max_lines as nat,
    )
}

/// Whether each byte of `src` lies inside a comment.
fn comment_map(tree: &SyntaxTree, src: &[u8]) -> (r: Vec<bool>)
    requires
        tree_ok(tree, src),
    ensures
        r.len() == src.len(),
        forall|p: int| 0 <= p < r.len() ==> r@[p] == covered(*tree, p),
{
    let len = src.len();
    let mut cov: Vec<bool> = Vec::new();
    while cov.len() < len
        invariant
            cov.len() <= len,
            forall|p: int| 0 <= p < cov.len() ==> !cov@[p],
        decreases len - cov.len(),
    {
        cov.push(false);
    }
    let n = tree.nodes.len();
    let mut c: usize = 0;
    while c < n
        invariant
            tree_ok(tree, src),
            len == src.len() == tree.source_len,
            n == tree.nodes.len(),
            c <= n,
            cov.len() == len,
            forall|p: int|
                0 <= p < len ==> cov@[p] == exists|d: int|
                    0 <= d < c && is_comment(*tree, d) && #[trigger] tree.nodes[d].start <= p < tree.nodes[d].end,
        decreases n - c,
    {
        if tree.is_kind(c, "line_comment") || tree.is_kind(c, "block_comment") {
            let start = tree.nodes[c].start;
            let end = tree.nodes[c].end;
            let mut q = start;
            while q < end
                invariant
                    tree_ok(tree, src),
                    len == src.len() == tree.source_len,
                    c < n == tree.nodes.len(),
                    is_comment(*tree, c as int),
                    start == tree.nodes[c as int].start,
                    end == tree.nodes[c as int].end,
                    start <= q <= end <= len,
                    cov.len() == len,
                    forall|p: int|
                        0 <= p < len ==> cov@[p] == ((exists|d: int|
                            0 <= d < c && is_comment(*tree, d) && #[trigger] tree.nodes[d].start <= p
                                < tree.nodes[d].end) || (start <= p < q)),
                decreases end - q,
            {
                cov.set(q, true);
                q += 1;
            }
            assert forall|p: int| 0 <= p < len implies cov@[p] == exists|d: int|
                0 <= d < c + 1 && is_comment(*tree, d) && #[trigger] tree.nodes[d].start <= p
                    < tree.nodes[d].end by {
                if start <= p < end {
                    assert(tree.nodes[c as int].start <= p < tree.nodes[c as int].end);
                }
            }
        } else {
            assert forall|p: int| 0 <= p < len implies cov@[p] == exists|d: int|
                0 <= d < c + 1 && is_comment(*tree, d) && #[trigger] tree.nodes[d].start <= p
                    < tree.nodes[d].end by {
                if exists|d: int|
                    0 <= d < c + 1 && is_comment(*tree, d) && #[trigger] tree.nodes[d].start <= p
                        < tree.nodes[d].end {
                    let d = choose|d: int|
                        0 <= d < c + 1 && is_comment(*tree, d) && #[trigger] tree.nodes[d].start <= p
                            < tree.nodes[d].end;
                    assert(d != c);
                }
            }
        }
        c += 1;
    }
    cov
}

/// The measured lines of `src[start..end]` under the comment map `cov`.
fn count_code_lines(tree: &SyntaxTree, src: &[u8], cov: &Vec<bool>, start: usize, end: usize) -> (r: usize)
    requires
        start <= end <= src.len(),
        cov.len() == src.len(),
        forall|p: int| 0 <= p < cov.len() ==> cov@[p] == covered(*tree, p),
    ensures
        r == count_from(*tree, src@, start as int, end as int, false),
{
    let mut count: usize = 0;
    let mut seen = false;
    let mut p = start;
    while p < end
        invariant
            start <= p <= end <= src.len(),
            cov.len() == src.len(),
            forall|q: int| 0 <= q < cov.len() ==> cov@[q] == covered(*tree, q),
            count + (if seen {
                1int
            } else {
                0int
            }) <= p - start,
            count + count_from(*tree, src@, p as int, end as int, seen) == count_from(
                *tree,
                src@,
                start as int,
                end as int,
                false,
            ),
        decreases end - p,
    {
        if src[p] == 10 {
            if seen {
                count += 1;
            }
            seen = false;
        } else {
            let code = !(src[p] == 9 || src[p] == 10 || src[p] == 12 || src[p] == 13 || src[p] == 32) && !cov[p];
            seen = seen || code;
        }
        p += 1;
    }
    if seen {
        count += 1;
    }
    count
}

/// The finding for an oversized function.
fn finding(name: Option<String>, count: usize, max_lines: usize, line: usize) -> (r: Diagnostic)
    ensures
        r.code@ == CODE_LEN001@,
        r.severity == Severity::Hint,
        r.title is None,
        r.line == line,
        r.item_kind@ == "fn"@,
        r.item_name matches Some(n) && n@ == (match name {
            Some(t) => t@,
            None => "<unnamed>"@,
        }),
        r.message@ == len001_message(
            match name {
                Some(t) => t@,
                None => "<unnamed>"@,
            },
            count as nat,
            max_lines as nat,
        ),
{
    let shown = match name {
        Some(t) => t,
        None => owned("<unnamed>"),
    };
    let mut message = owned("fn `");
    push_str(&mut message, shown.as_str());
    push_str(&mut message, "` has ");
    let measured = decimal_string(count);
    push_str(&mut message, measured.as_str());
    push_str(&mut message, " body lines (blank and comment-only lines excluded),\nover the ");
    let budget = decimal_string(max_lines);
    push_str(&mut message, budget.as_str());
    push_str(
        &mut message,
        "-line budget (method_length.max_lines).\nWhy:\n- Long functions can make readers track too much control flow and local state.\n- Named, cohesive steps can help readers follow the flow without tracking every detail.\nSuggestions:\n- Consider extracting cohesive steps into functions named for what they do,\n  so the outer function reads as an overview of the flow.\n- Keep closely related work together. Avoid new types, forwarding wrappers,\n  or a wider public API solely to shorten the body.\n- Preserve behavior and performance. Avoid extra allocations, cloning, or\n  repeated work; measure performance-sensitive changes.\n- Mark extracted functions as `#[inline]` if needed.\n- Inner functions still count toward the enclosing body.\n- Keep the body intact if splitting would make it harder to follow or slower.",
    );
    Diagnostic {
        severity: Severity::Hint,
        code: CODE_LEN001,
        title: None,
        message,
        line,
        item_kind: owned("fn"),
        item_name: Some(shown),
    }
}

/// Hint at every bodied function whose measured lines exceed `max_lines`.
///
/// A body at exactly `max_lines` stays silent; test functions, methods and
/// inner functions are measured alike.
///
/// # Arguments
///
/// - `tree` - the parsed file.
/// - `src` - the file's bytes.
/// - `max_lines` - the line budget per function body.
///
/// # Returns
///
/// One LEN001 hint per oversized function, in document order.
pub fn check(tree: &SyntaxTree, src: &[u8], max_lines: usize) -> (r: Vec<Diagnostic>)
    requires
        tree.wf(),
        tree.source_len == src@.len(),
    ensures
        r.len() == oversized_upto(*tree, src@, tree.nodes.len() as int, max_lines).len(),
        forall|j: int|
            #![trigger r@[j]]
            0 <= j < r.len() ==> finding_for(
                r@[j],
                *tree,
                src@,
                oversized_upto(*tree, src@, tree.nodes.len() as int, max_lines)[j],
                max_lines,
            ),
{
    let cov = comment_map(tree, src);
    let n = tree.nodes.len();
    let mut out: Vec<Diagnostic> = Vec::new();
    let mut i: usize = 0;
    while i < n
        invariant
            tree_ok(tree, src),
            n == tree.nodes.len(),
            i <= n,
            cov.len() == src.len(),
            forall|p: int| 0 <= p < cov.len() ==> cov@[p] == covered(*tree, p),
            out.len() == oversized_upto(*tree, src@, i as int, max_lines).len(),
            forall|j: int|
                #![trigger out@[j]]
                0 <= j < out.len() ==> finding_for(
                    out@[j],
                    *tree,
                    src@,
                    oversized_upto(*tree, src@, i as int, max_lines)[j],
                    max_lines,
                ),
        decreases n - i,
    {
        let ghost before = oversized_upto(*tree, src@, i as int, max_lines);
        if tree.is_kind(i, "function_item") {
            if let Some(b) = tree.child_by_field(i, "body") {
                let start = tree.nodes[b].start;
                let close = if tree.nodes[b].end >= 1 {
                    tree.nodes[b].end - 1
                } else {
                    0
                };
                let count = if start >= src.len() {
                    0
                } else {
                    let s = start + 1;
                    let e = if close > s {
                        close
                    } else {
                        s
                    };
                    count_code_lines(tree, src, &cov, s, e)
                };
                proof {
                    assert(function_body(*tree, i as int) == Some(b as int));
                    if start >= src.len() {
                        assert(body_end(*tree, b as int) == body_start(*tree, b as int));
                    }
                    assert(count == measured(*tree, src@, b as int));
                }
                if count > max_lines {
                    let name = match tree.child_by_field(i, "name") {
                        Some(nm) => node_text(tree, src, nm),
                        None => None,
                    };
                    let d = finding(name, count, max_lines, tree.nodes[i].row + 1);
                    proof {
                        assert(name matches Some(t) ==> t@ == shown_name(*tree, src@, i as int));
                        assert(name is None ==> "<unnamed>"@ == shown_name(*tree, src@, i as int));
                    }
                    out.push(d);
                    proof {
                        assert(oversized(*tree, src@, i as int, max_lines));
                        let after = oversized_upto(*tree, src@, i + 1, max_lines);
                        assert(after == before.push(i as int));
                        assert forall|j: int| 0 <= j < out.len() implies finding_for(
                            #[trigger] out@[j],
                            *tree,
                            src@,
                            after[j],
                            max_lines,
                        ) by {
                            if j < out.len() - 1 {
                                assert(after[j] == before[j]);
                            }
                        }
                    }
                } else {
                    assert(!oversized(*tree, src@, i as int, max_lines));
                }
            } else {
                assert(function_body(*tree, i as int) is None);
            }
        }
        i += 1;
    }
    out
}

} // verus!
