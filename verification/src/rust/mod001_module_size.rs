//! `MOD001` for Rust: an oversized module.
//!
//! [`check_with_options`] leaves top-level `#[cfg(test)]` mod regions out
//! of the count unless `include_in_file_tests` is set, and skips files
//! under a `tests` directory unless `include_test_files` is set. The
//! warning adds module-root guidance and says which test lines count.
use crate::diagnostic::{Diagnostic, Severity};
use crate::mod001_module_size::{diagnostic, finding, message};
use crate::syntax::{kind_is, named_children_spec, node_text, text_of, tree_ok, SyntaxTree};
use crate::text::{chars_of, owned, push_str, str_eq};
use vstd::prelude::*;

verus! {

/// The index of the first `\n` byte of `s` at or after `o`, or its length.
pub open spec fn line_end(s: Seq<u8>, o: int) -> int
    decreases s.len() - o,
{
    if o < 0 || o >= s.len() {
        s.len() as int
    } else if s[o] == 10 {
        o
    } else {
        line_end(s, o + 1)
    }
}

/// The end of the line starting at `o`, a carriage return before its
/// newline aside.
pub open spec fn content_end(s: Seq<u8>, o: int) -> int {
    let e = line_end(s, o);
    if e > o && s[e - 1] == 13 {
        e - 1
    } else {
        e
    }
}

/// A span removes line `no`, starting at byte `o`: some span covers the
/// line's whole content, and no production item starts on it.
pub open spec fn span_owns(s: Seq<u8>, spans: Seq<(usize, usize)>, production: Seq<usize>, o: int, no: int) -> bool {
    &&& !(exists|k: int| 0 <= k < production.len() && production[k] == no)
    &&& exists|k: int| 0 <= k < spans.len() && spans[k].0 <= o && spans[k].1 >= content_end(s, o)
}

/// The lines no span owns, from the line starting at byte `o`, numbered
/// `no`.
pub open spec fn tally(s: Seq<u8>, spans: Seq<(usize, usize)>, production: Seq<usize>, o: int, no: int) -> int
    decreases s.len() + 1 - o,
{
    if o < 0 || o >= s.len() {
        0
    } else {
        proof {
            lemma_line_end_bounds(s, o);
        }
        (if span_owns(s, spans, production, o, no) {
            0int
        } else {
            1int
        }) + tally(s, spans, production, line_end(s, o) + 1, no + 1)
    }
}

/// The number of the `need`-th line no span owns, from the line starting
/// at byte `o`, numbered `no`.
pub open spec fn counted_line(
    s: Seq<u8>,
    spans: Seq<(usize, usize)>,
    production: Seq<usize>,
    o: int,
    no: int,
    need: int,
) -> Option<int>
    decreases s.len() + 1 - o,
{
    if o < 0 || o >= s.len() {
        None
    } else if span_owns(s, spans, production, o, no) {
        proof {
            lemma_line_end_bounds(s, o);
        }
        counted_line(s, spans, production, line_end(s, o) + 1, no + 1, need)
    } else if need <= 1 {
        Some(no)
    } else {
        proof {
            lemma_line_end_bounds(s, o);
        }
        counted_line(s, spans, production, line_end(s, o) + 1, no + 1, need - 1)
    }
}

/// An optional machine integer as an optional integer.
pub open spec fn int_option(o: Option<usize>) -> Option<int> {
    match o {
        Some(v) => Some(v as int),
        None => None,
    }
}

/// The end of a line lies between its start and the end of the input,
/// and only that end can hold a newline.
pub proof fn lemma_line_end_bounds(s: Seq<u8>, o: int)
    requires
        0 <= o <= s.len(),
    ensures
        o <= line_end(s, o) <= s.len(),
        line_end(s, o) < s.len() ==> s[line_end(s, o)] == 10,
        forall|i: int| o <= i < line_end(s, o) ==> s[i] != 10,
    decreases s.len() - o,
{
    if o < s.len() && s[o] != 10 {
        lemma_line_end_bounds(s, o + 1);
    }
}

/// The reported line and the count agree: the `need`-th counted line
/// exists exactly when at least `need` lines are counted. So the warning's
/// line is always a counted line of the file, and a file whose count is
/// at most `max_lines` has no line past the budget.
pub proof fn lemma_crossing_exists_iff_count_reaches(
    s: Seq<u8>,
    spans: Seq<(usize, usize)>,
    production: Seq<usize>,
    o: int,
    no: int,
    need: int,
)
    requires
        need >= 1,
    ensures
        counted_line(s, spans, production, o, no, need) is Some <==> tally(s, spans, production, o, no) >= need,
    decreases s.len() + 1 - o,
{
    if 0 <= o < s.len() {
        lemma_line_end_bounds(s, o);
        let next = line_end(s, o) + 1;
        if span_owns(s, spans, production, o, no) {
            lemma_crossing_exists_iff_count_reaches(s, spans, production, next, no + 1, need);
        } else if need > 1 {
            lemma_crossing_exists_iff_count_reaches(s, spans, production, next, no + 1, need - 1);
        } else {
            lemma_tally_nonnegative(s, spans, production, next, no + 1);
        }
    }
}

/// A tally never goes below zero.
proof fn lemma_tally_nonnegative(s: Seq<u8>, spans: Seq<(usize, usize)>, production: Seq<usize>, o: int, no: int)
    ensures
        tally(s, spans, production, o, no) >= 0,
    decreases s.len() + 1 - o,
{
    if 0 <= o < s.len() {
        lemma_line_end_bounds(s, o);
        lemma_tally_nonnegative(s, spans, production, line_end(s, o) + 1, no + 1);
    }
}

/// Spans only ever remove lines: the count with spans never exceeds the
/// count of every physical line.
pub proof fn lemma_spans_only_remove_lines(
    s: Seq<u8>,
    spans: Seq<(usize, usize)>,
    production: Seq<usize>,
    o: int,
    no: int,
)
    ensures
        tally(s, spans, production, o, no) <= tally(s, Seq::empty(), Seq::empty(), o, no),
    decreases s.len() + 1 - o,
{
    if 0 <= o < s.len() {
        lemma_line_end_bounds(s, o);
        lemma_spans_only_remove_lines(s, spans, production, line_end(s, o) + 1, no + 1);
    }
}

/// True when `list` holds `x`.
fn holds(list: &[usize], x: usize) -> (r: bool)
    ensures
        r == exists|k: int| 0 <= k < list@.len() && list@[k] == x,
{
    let mut k: usize = 0;
    while k < list.len()
        invariant
            k <= list@.len(),
            forall|j: int| 0 <= j < k ==> list@[j] != x,
        decreases list.len() - k,
    {
        if list[k] == x {
            return true;
        }
        k += 1;
    }
    false
}

/// True when some span covers `[from, to)`.
fn covered(spans: &[(usize, usize)], from: usize, to: usize) -> (r: bool)
    ensures
        r == exists|k: int| 0 <= k < spans@.len() && spans@[k].0 <= from && spans@[k].1 >= to,
{
    let mut k: usize = 0;
    while k < spans.len()
        invariant
            k <= spans@.len(),
            forall|j: int| 0 <= j < k ==> !(spans@[j].0 <= from && spans@[j].1 >= to),
        decreases spans.len() - k,
    {
        let (a, b) = spans[k];
        if a <= from && b >= to {
            return true;
        }
        k += 1;
    }
    false
}

/// Count the physical lines of `source` no span owns, and find where that
/// count passes `max_lines`.
///
/// A span owns a line when it covers the line's whole byte range (a
/// carriage return before the newline aside) and no entry of
/// `production_start_lines` names the line. The piece after a trailing
/// newline is not a line.
///
/// # Returns
///
/// The count, and the 1-based line holding the `max_lines + 1`-th counted
/// line, if the count gets that far.
pub fn count_lines_outside_spans(
    source: &[u8],
    spans: &[(usize, usize)],
    production_start_lines: &[usize],
    max_lines: usize,
) -> (r: (usize, Option<usize>))
    requires
        source@.len() < usize::MAX,
    ensures
        r.0 == tally(source@, spans@, production_start_lines@, 0, 1),
        int_option(r.1) == counted_line(source@, spans@, production_start_lines@, 0, 1, max_lines + 1),
{
    let ghost s = source@;
    let ghost sp = spans@;
    let ghost pr = production_start_lines@;
    let n = source.len();
    let mut count: usize = 0;
    let mut crossing: Option<usize> = None;
    let mut line_number: usize = 1;
    let mut offset: usize = 0;
    while offset < n
        invariant
            s == source@,
            sp == spans@,
            pr == production_start_lines@,
            n == s.len(),
            n < usize::MAX,
            offset <= n + 1,
            line_number <= offset + 1,
            count < line_number,
            tally(s, sp, pr, 0, 1) == count + tally(s, sp, pr, offset as int, line_number as int),
            crossing matches Some(c) ==> count > max_lines && counted_line(s, sp, pr, 0, 1, max_lines + 1) == Some(
                c as int,
            ),
            crossing is None ==> count <= max_lines && counted_line(s, sp, pr, 0, 1, max_lines + 1)
                == counted_line(s, sp, pr, offset as int, line_number as int, max_lines + 1 - count),
        decreases n + 1 - offset,
    {
        proof {
            lemma_line_end_bounds(s, offset as int);
        }
        let mut e = offset;
        while e < n && source[e] != 10
            invariant
                s == source@,
                n == s.len(),
                offset <= e <= n,
                line_end(s, offset as int) == line_end(s, e as int),
            decreases n - e,
        {
            e += 1;
        }
        let content = if e > offset && source[e - 1] == 13 {
            e - 1
        } else {
            e
        };
        let owned = !holds(production_start_lines, line_number) && covered(spans, offset, content);
        if !owned {
            count += 1;
            if count > max_lines && crossing.is_none() {
                crossing = Some(line_number);
            }
        }
        offset = e + 1;
        line_number += 1;
    }
    (count, crossing)
}

/// A whole `tests` component of `path` starts at index `a`: components
/// are split at `/`.
pub open spec fn tests_at(path: Seq<char>, a: int) -> bool {
    &&& 0 <= a
    &&& a + 5 <= path.len()
    &&& (a == 0 || path[a - 1] == '/')
    &&& (a + 5 == path.len() || path[a + 5] == '/')
    &&& path.subrange(a, a + 5) == "tests"@
}

/// `path` has a component that is exactly `tests`.
pub open spec fn tests_component(path: Seq<char>) -> bool {
    exists|a: int| #[trigger] tests_at(path, a)
}

/// True when `path` has a `tests` directory component, such as
/// `tests/csharp/main.rs` or `src/cli/tests/config/main.rs`; a file named
/// `tests.rs` does not match.
pub fn is_tests_path(path: &str) -> (r: bool)
    ensures
        r == tests_component(path@),
{
    let chars = chars_of(path);
    let n = chars.len();
    let mut a: usize = 0;
    while n >= 5 && a <= n - 5
        invariant
            chars@ == path@,
            n == chars.len(),
            forall|q: int| 0 <= q < a ==> !#[trigger] tests_at(path@, q),
        decreases n - a,
    {
        proof {
            reveal_strlit("tests");
        }
        let left = a == 0 || chars[a - 1] == '/';
        let right = a + 5 == n || chars[a + 5] == '/';
        let word = chars[a] == 't' && chars[a + 1] == 'e' && chars[a + 2] == 's' && chars[a + 3] == 't' && chars[a
            + 4] == 's';
        if left && right && word {
            assert(chars@.subrange(a as int, a + 5) =~= "tests"@);
            assert(tests_at(path@, a as int));
            return true;
        }
        proof {
            if chars@.subrange(a as int, a + 5) == "tests"@ {
                assert(chars@.subrange(a as int, a + 5)[0] == chars@[a as int]);
                assert(chars@.subrange(a as int, a + 5)[1] == chars@[a + 1]);
                assert(chars@.subrange(a as int, a + 5)[2] == chars@[a + 2]);
                assert(chars@.subrange(a as int, a + 5)[3] == chars@[a + 3]);
                assert(chars@.subrange(a as int, a + 5)[4] == chars@[a + 4]);
            }
        }
        a += 1;
    }
    false
}

/// The Rust module-root guidance the warning ends with, given whether
/// in-file test modules and files under `tests/` count.
pub open spec fn rust_guidance(include_in_file_tests: bool, include_test_files: bool) -> Seq<char> {
    "\n- When splitting a Rust module, consider keeping main entry points and\n  high-level orchestration in the module root (`mod.rs` or `foo.rs`).\n  Put implementation details in child modules.\n- If entry points belong in child modules, consider selective re-exports\n  through the root without widening visibility.\n- Update root docs to explain the module's purpose and direct readers\n  to main entry points and relevant child modules.\n- Top-level `#[cfg(test)]` test modules are "@
        + (if include_in_file_tests {
        "counted"@
    } else {
        "excluded"@
    }) + ".\n  Other lines count, including comments and blank lines.\n- Rust files in `tests/` directories are "@
        + (if include_test_files {
        "checked"@
    } else {
        "skipped"@
    }) + "."@
}

/// `finding` with the Rust guidance appended.
fn with_rust_guidance(mut finding: Diagnostic, include_in_file_tests: bool, include_test_files: bool) -> (r:
    Diagnostic)
    ensures
        r.message@ == finding.message@ + rust_guidance(include_in_file_tests, include_test_files),
        r.code == finding.code,
        r.severity == finding.severity,
        r.title == finding.title,
        r.line == finding.line,
        r.item_kind == finding.item_kind,
        r.item_name == finding.item_name,
{
    let regions = if include_in_file_tests {
        "counted"
    } else {
        "excluded"
    };
    let files = if include_test_files {
        "checked"
    } else {
        "skipped"
    };
    push_str(
        &mut finding.message,
        "\n- When splitting a Rust module, consider keeping main entry points and\n  high-level orchestration in the module root (`mod.rs` or `foo.rs`).\n  Put implementation details in child modules.\n- If entry points belong in child modules, consider selective re-exports\n  through the root without widening visibility.\n- Update root docs to explain the module's purpose and direct readers\n  to main entry points and relevant child modules.\n- Top-level `#[cfg(test)]` test modules are ",
    );
    push_str(&mut finding.message, regions);
    push_str(&mut finding.message, ".\n  Other lines count, including comments and blank lines.\n- Rust files in `tests/` directories are ");
    push_str(&mut finding.message, files);
    push_str(&mut finding.message, ".");
    finding
}

/// The first index at or after `e` that holds a line feed, or the end.
pub open spec fn line_end_from(src: Seq<u8>, e: int) -> int
    decreases src.len() - e,
{
    if e >= src.len() {
        e
    } else if src[e] == 10 {
        e
    } else {
        line_end_from(src, e + 1)
    }
}

/// The index just past the first line feed at or after `e`; the length
/// when none follows, or `e` itself when it lies past the end.
pub open spec fn next_line_spec(src: Seq<u8>, e: int) -> int {
    let k = line_end_from(src, e);
    if k < src.len() {
        k + 1
    } else if e <= src.len() {
        src.len() as int
    } else {
        e
    }
}

/// What the top-level scan has gathered: the test-module spans, the other
/// items' start lines, the start of the pending attribute run, and whether
/// that run holds `#[cfg(test)]`.
pub type RegionScan = (Seq<(usize, usize)>, Seq<usize>, Option<usize>, bool);

/// The scan after top-level node `c`.
pub open spec fn region_step(tree: SyntaxTree, src: Seq<u8>, st: RegionScan, c: usize) -> RegionScan {
    let ci = c as int;
    if kind_is(tree, ci, "attribute_item"@) {
        (st.0, st.1, if st.2 is None {
            Some(tree.nodes[ci].start)
        } else {
            st.2
        }, st.3 || text_of(tree, src, ci) == Some("#[cfg(test)]"@))
    } else if kind_is(tree, ci, "line_comment"@) || kind_is(tree, ci, "block_comment"@) {
        st
    } else if st.3 && kind_is(tree, ci, "mod_item"@) {
        let from = match st.2 {
            Some(s) => s,
            None => tree.nodes[ci].start,
        };
        (st.0.push((from, next_line_spec(src, tree.nodes[ci].end as int) as usize)), st.1, None, false)
    } else if tree.nodes[ci].row < usize::MAX {
        (st.0, st.1.push((tree.nodes[ci].row + 1) as usize), None, false)
    } else {
        (st.0, st.1, None, false)
    }
}

/// The scan over the top-level nodes `kids`, in order.
pub open spec fn regions_scan(tree: SyntaxTree, src: Seq<u8>, kids: Seq<usize>) -> RegionScan
    decreases kids.len(),
{
    if kids.len() == 0 {
        (Seq::empty(), Seq::empty(), None, false)
    } else {
        region_step(tree, src, regions_scan(tree, src, kids.drop_last()), kids.last())
    }
}

/// The index just past the first `\n` at or after `e`, or the length.
fn next_line_start(src: &[u8], e: usize) -> (r: usize)
    ensures
        r <= src@.len() || r == e,
        r == next_line_spec(src@, e as int),
{
    let mut k = e;
    while k < src.len() && src[k] != 10
        invariant
            e <= k,
            line_end_from(src@, e as int) == line_end_from(src@, k as int),
        decreases src.len() - k,
    {
        k += 1;
    }
    if k < src.len() {
        k + 1
    } else if e <= src.len() {
        src.len()
    } else {
        e
    }
}

/// The byte spans of the file's top-level `#[cfg(test)]` modules, from
/// their first attribute to the start of the line after their closing
/// brace, and the 1-based start lines of the other top-level items, in
/// file order.
pub fn module_regions(tree: &SyntaxTree, src: &[u8]) -> (r: (Vec<(usize, usize)>, Vec<usize>))
    requires
        tree.wf(),
        tree.source_len == src@.len(),
    ensures
        r.0@ == regions_scan(*tree, src@, named_children_spec(*tree, 0)).0,
        r.1@ == regions_scan(*tree, src@, named_children_spec(*tree, 0)).1,
{
    let mut spans: Vec<(usize, usize)> = Vec::new();
    let mut starts: Vec<usize> = Vec::new();
    let kids = tree.named_children(0);
    let mut run_start: Option<usize> = None;
    let mut cfg_test = false;
    let mut k: usize = 0;
    assert(kids@.take(0) =~= Seq::<usize>::empty());
    while k < kids.len()
        invariant
            tree_ok(tree, src),
            k <= kids.len(),
            forall|j: int| #![trigger kids@[j]] 0 <= j < kids.len() ==> 0 < kids@[j] < tree.nodes.len(),
            (spans@, starts@, run_start, cfg_test) == regions_scan(*tree, src@, kids@.take(k as int)),
        decreases kids.len() - k,
    {
        let c = kids[k];
        assert(kids@.take(k + 1).drop_last() =~= kids@.take(k as int));
        assert(kids@.take(k + 1).last() == c);
        if tree.is_kind(c, "attribute_item") {
            if run_start.is_none() {
                run_start = Some(tree.nodes[c].start);
            }
            if let Some(t) = node_text(tree, src, c) {
                if str_eq(t.as_str(), "#[cfg(test)]") {
                    cfg_test = true;
                }
            }
        } else if tree.is_kind(c, "line_comment") || tree.is_kind(c, "block_comment") {
        } else {
            if cfg_test && tree.is_kind(c, "mod_item") {
                let from = match run_start {
                    Some(s) => s,
                    None => tree.nodes[c].start,
                };
                spans.push((from, next_line_start(src, tree.nodes[c].end)));
            } else if tree.nodes[c].row < usize::MAX {
                starts.push(tree.nodes[c].row + 1);
            }
            run_start = None;
            cfg_test = false;
        }
        k += 1;
    }
    assert(kids@.take(k as int) =~= kids@);
    (spans, starts)
}

/// The `exclusions` wording of the test-excluding count.
pub open spec fn outside_tests() -> Seq<char> {
    " outside `#[cfg(test)]` mod regions"@
}

/// Warn when a Rust file exceeds its line budget.
///
/// Counts every physical line of the file, blanks included, less the lines
/// that a top-level `#[cfg(test)]` module span alone occupies, unless
/// `include_in_file_tests` is set; fires when the count is strictly over
/// `max_lines`, at the first line past the budget.
///
/// # Arguments
///
/// - `tree` and `src` - the parsed file and its bytes.
/// - `path` - the file's path, checked for a `tests` directory component.
/// - `max_lines` - the `module_size.max_lines` budget.
/// - `include_in_file_tests` - count the whole file instead.
/// - `include_test_files` - check files under `tests/` too.
///
/// # Returns
///
/// The MOD001 warning, or nothing.
pub fn check_with_options(
    tree: &SyntaxTree,
    src: &[u8],
    path: &str,
    max_lines: usize,
    include_in_file_tests: bool,
    include_test_files: bool,
) -> (r: Option<Diagnostic>)
    requires
        tree.wf(),
        tree.source_len == src@.len(),
        src@.len() < usize::MAX,
    ensures
        !include_test_files && tests_component(path@) ==> r is None,
        include_in_file_tests && !(!include_test_files && tests_component(path@)) ==> {
            let lines = tally(src@, Seq::empty(), Seq::empty(), 0, 1);
            &&& (r is Some <==> lines > max_lines)
            &&& r matches Some(d) ==> {
                &&& d.code@ == crate::codes::CODE_MODULE_SIZE@
                &&& d.severity == Severity::Warning
                &&& d.line == max_lines + 1
                &&& d.item_kind@ == "file"@
                &&& d.item_name is None
                &&& d.message@ == message(lines as nat, max_lines as nat, ""@) + rust_guidance(
                    true,
                    include_test_files,
                )
            }
        },
        !include_in_file_tests && !(!include_test_files && tests_component(path@)) ==> ({
            let scan = regions_scan(*tree, src@, named_children_spec(*tree, 0));
            let (sp, st) = (scan.0, scan.1);
            {
                let lines = tally(src@, sp, st, 0, 1);
                &&& (r is Some <==> lines > max_lines)
                &&& r matches Some(d) ==> {
                    &&& d.code@ == crate::codes::CODE_MODULE_SIZE@
                    &&& d.severity == Severity::Warning
                    &&& counted_line(src@, sp, st, 0, 1, max_lines + 1) == Some(d.line as int)
                    &&& d.item_kind@ == "file"@
                    &&& d.item_name is None
                    &&& d.message@ == message(lines as nat, max_lines as nat, outside_tests()) + rust_guidance(
                        false,
                        include_test_files,
                    )
                }
            }
        }),
{
    if !include_test_files && is_tests_path(path) {
        return None;
    }
    let spans: Vec<(usize, usize)> = Vec::new();
    let starts: Vec<usize> = Vec::new();
    if include_in_file_tests {
        let (lines, _) = count_lines_outside_spans(src, spans.as_slice(), starts.as_slice(), max_lines);
        if lines > max_lines {
            let d = diagnostic(lines, max_lines + 1, max_lines, "");
            return Some(with_rust_guidance(d, true, include_test_files));
        }
        return None;
    }
    let (spans, starts) = module_regions(tree, src);
    let (lines, crossing) = count_lines_outside_spans(src, spans.as_slice(), starts.as_slice(), max_lines);
    proof {
        lemma_crossing_exists_iff_count_reaches(src@, spans@, starts@, 0, 1, max_lines + 1);
    }
    if lines > max_lines {
        let at = match crossing {
            Some(c) => c,
            None => 1,
        };
        let d = diagnostic(lines, at, max_lines, " outside `#[cfg(test)]` mod regions");
        let r = with_rust_guidance(d, false, include_test_files);
        assert(tally(src@, spans@, starts@, 0, 1) == lines);
        Some(r)
    } else {
        assert(tally(src@, spans@, starts@, 0, 1) == lines);
        None
    }
}

} // verus!
