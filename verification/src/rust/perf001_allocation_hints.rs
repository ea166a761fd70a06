//! `PERF001`: remind at invocations of APIs with a cheaper alternative.
//!
//! Each reminder entry names an API pattern and a message; a matching
//! invocation emits the message as a hint. Matching reads syntax only, so
//! mentions in comments or strings never fire, and no loop or hoisting is
//! analysed.
//!
//! - Call-path patterns (`Vec::new`) match a callee by trailing path
//!   components, so qualification (`std::vec::Vec::new`) and turbofish
//!   (`Vec::<u8>::new`) both match; method patterns (`to_uppercase`) match
//!   the method name.
//! - Patterns ending in `new` are constructor patterns: they match only
//!   calls without arguments, so `Thing::new(seed)` stays silent.
//! - Macro patterns (`format!`) match the bare macro name.
//!
//! The base list comes first and the extra list after it; the first
//! matching entry wins.
use crate::codes::CODE_PERF001;
use crate::diagnostic::{Diagnostic, Severity};
use crate::syntax::{field_child, named_children_spec, span_text, tree_ok, utf8_span, SyntaxTree};
use crate::text::{chars_of, copy_string, owned, push_char, str_eq, trim, trim_spec, views};
pub use crate::perf_hint::PerfHint;
use vstd::prelude::*;

verus! {

/// The pieces of `s[start..]` split at each `::`, scanning left to right
/// from `p`, as `str::split("::")`.
pub open spec fn split_from(s: Seq<char>, start: int, p: int) -> Seq<Seq<char>>
    decreases s.len() - p,
{
    if p >= s.len() {
        seq![s.subrange(start, s.len() as int)]
    } else if p + 2 <= s.len() && s[p] == ':' && s[p + 1] == ':' {
        seq![s.subrange(start, p)] + split_from(s, p + 2, p + 2)
    } else {
        split_from(s, start, p + 1)
    }
}

/// The pieces of `s[..end]` split at each `::`, scanning right to left
/// from `p`, last piece first, as `str::rsplit("::")`.
pub open spec fn rsplit_from(s: Seq<char>, end: int, p: int) -> Seq<Seq<char>>
    decreases p,
{
    if p <= 0 {
        seq![s.subrange(0, end)]
    } else if p >= 2 && s[p - 2] == ':' && s[p - 1] == ':' {
        seq![s.subrange(p, end)] + rsplit_from(s, p - 2, p - 2)
    } else {
        rsplit_from(s, end, p - 1)
    }
}

/// A trimmed piece that counts as a path component: non-empty and not a
/// turbofish segment.
pub open spec fn is_component(t: Seq<char>) -> bool {
    t.len() > 0 && t[0] != '<'
}

/// The trimmed path components among `pieces`, in order.
pub open spec fn components_of(pieces: Seq<Seq<char>>) -> Seq<Seq<char>>
    decreases pieces.len(),
{
    if pieces.len() == 0 {
        Seq::empty()
    } else {
        let t = trim_spec(pieces[0]);
        let rest = components_of(pieces.drop_first());
        if is_component(t) {
            seq![t] + rest
        } else {
            rest
        }
    }
}

/// The call-path components of a pattern: `std::vec::Vec::<u8>::new`
/// yields `std`, `vec`, `Vec`, `new`.
pub open spec fn call_path_spec(text: Seq<char>) -> Seq<Seq<char>> {
    components_of(split_from(text, 0, 0))
}

/// Whether the right-to-left callee pieces `parts` end with the first
/// `remaining` components, skipping empty and turbofish pieces.
pub open spec fn ends_with_from(parts: Seq<Seq<char>>, comps: Seq<Seq<char>>, remaining: int) -> bool
    decreases parts.len(),
{
    if parts.len() == 0 {
        remaining == 0
    } else if remaining <= 0 {
        true
    } else {
        let part = trim_spec(parts[0]);
        if !is_component(part) {
            ends_with_from(parts.drop_first(), comps, remaining)
        } else if part != comps[remaining - 1] {
            false
        } else {
            ends_with_from(parts.drop_first(), comps, remaining - 1)
        }
    }
}

/// The callee ends with the non-empty component list `comps`.
pub open spec fn callee_ends_with_spec(callee: Seq<char>, comps: Seq<Seq<char>>) -> bool {
    comps.len() > 0 && ends_with_from(rsplit_from(callee, callee.len() as int, callee.len() as int), comps, comps.len() as int)
}

/// A reminder with component list `comps` matches the call: constructor
/// patterns (ending in `new`) need a call without arguments.
pub open spec fn matches_call_spec(comps: Seq<Seq<char>>, callee: Seq<char>, zero_args: bool) -> bool {
    let is_constructor = comps.len() > 0 && comps.last() == "new"@;
    (!is_constructor || zero_args) && callee_ends_with_spec(callee, comps)
}

/// `pattern` names the macro `name`, with or without its trailing `!`.
pub open spec fn matches_macro_spec(pattern: Seq<char>, name: Seq<char>) -> bool {
    pattern == name || (pattern.len() > 0 && pattern.last() == '!' && pattern.drop_last() == name)
}

/// The message of the first hint in `hints` whose pattern matches the call.
pub open spec fn first_call_match(hints: Seq<PerfHint>, callee: Seq<char>, zero_args: bool) -> Option<Seq<char>>
    decreases hints.len(),
{
    if hints.len() == 0 {
        None
    } else if matches_call_spec(call_path_spec(hints[0].pattern@), callee, zero_args) {
        Some(hints[0].message@)
    } else {
        first_call_match(hints.drop_first(), callee, zero_args)
    }
}

/// The message of the first hint in `hints` whose pattern names the macro.
pub open spec fn first_macro_match(hints: Seq<PerfHint>, name: Seq<char>) -> Option<Seq<char>>
    decreases hints.len(),
{
    if hints.len() == 0 {
        None
    } else if matches_macro_spec(hints[0].pattern@, name) {
        Some(hints[0].message@)
    } else {
        first_macro_match(hints.drop_first(), name)
    }
}

/// The trimmed source text of node `n`, or nothing when its span is not
/// text.
pub open spec fn trimmed_text(tree: SyntaxTree, src: Seq<u8>, n: int) -> Seq<char> {
    match span_text(src, tree.nodes[n].start as int, tree.nodes[n].end as int) {
        Some(t) => trim_spec(t),
        None => Seq::empty(),
    }
}

/// The callee a call node names: a method's name for a field expression,
/// else the callee's whole text.
pub open spec fn callee_of(tree: SyntaxTree, src: Seq<u8>, function: int) -> Seq<char> {
    if tree.nodes[function].kind@ == "field_expression"@ {
        match field_child(tree, function, "field"@) {
            Some(f) => trimmed_text(tree, src, f),
            None => Seq::empty(),
        }
    } else {
        trimmed_text(tree, src, function)
    }
}

/// The reminder node `i` triggers: its message, the invocation kind, and
/// the invoked name.
pub open spec fn finding_at(tree: SyntaxTree, src: Seq<u8>, hints: Seq<PerfHint>, i: int) -> Option<
    (Seq<char>, Seq<char>, Seq<char>),
> {
    if tree.nodes[i].kind@ == "call_expression"@ {
        match field_child(tree, i, "function"@) {
            None => None,
            Some(function) => {
                let callee = callee_of(tree, src, function);
                let zero_args = match field_child(tree, i, "arguments"@) {
                    None => true,
                    Some(a) => named_children_spec(tree, a as usize).len() == 0,
                };
                if callee.len() == 0 {
                    None
                } else {
                    match first_call_match(hints, callee, zero_args) {
                        Some(m) => Some((m, "call"@, callee)),
                        None => None,
                    }
                }
            },
        }
    } else if tree.nodes[i].kind@ == "macro_invocation"@ {
        match field_child(tree, i, "macro"@) {
            None => None,
            Some(m) => {
                let name = trimmed_text(tree, src, m);
                match first_macro_match(hints, name) {
                    Some(msg) => Some((msg, "macro"@, name)),
                    None => None,
                }
            },
        }
    } else {
        None
    }
}

/// The nodes among `0..n` that trigger a reminder, in document order.
pub open spec fn reminded_upto(tree: SyntaxTree, src: Seq<u8>, hints: Seq<PerfHint>, n: int) -> Seq<int>
    decreases n,
{
    if n <= 0 {
        Seq::empty()
    } else if finding_at(tree, src, hints, n - 1) is Some {
        reminded_upto(tree, src, hints, n - 1).push(n - 1)
    } else {
        reminded_upto(tree, src, hints, n - 1)
    }
}

/// `d` is the reminder node `i` triggers.
pub open spec fn finding_for(d: Diagnostic, tree: SyntaxTree, src: Seq<u8>, hints: Seq<PerfHint>, i: int) -> bool {
    finding_at(tree, src, hints, i) matches Some(f) && {
        &&& d.code@ == CODE_PERF001@
        &&& d.severity == Severity::Hint
        &&& d.title is None
        &&& d.message@ == f.0
        &&& d.line == tree.nodes[i].row + 1
        &&& d.item_kind@ == f.1
        &&& d.item_name matches Some(n) && n@ == f.2
    }
}

/// The pieces of `chars` split at each `::`, left to right.
fn split_pieces(chars: &Vec<char>) -> (r: Vec<Vec<char>>)
    ensures
        r@.map_values(|v: Vec<char>| v@) == split_from(chars@, 0, 0),
{
    let n = chars.len();
    let mut out: Vec<Vec<char>> = Vec::new();
    let mut start: usize = 0;
    let mut p: usize = 0;
    let mut piece: Vec<char> = Vec::new();
    while p < n
        invariant
            n == chars.len(),
            start <= p <= n,
            piece@ == chars@.subrange(start as int, p as int),
            out@.map_values(|v: Vec<char>| v@) + split_from(chars@, start as int, p as int) == split_from(
                chars@,
                0,
                0,
            ),
        decreases n - p,
    {
        if n - p >= 2 && chars[p] == ':' && chars[p + 1] == ':' {
            let ghost before = out@.map_values(|v: Vec<char>| v@);
            out.push(piece);
            piece = Vec::new();
            proof {
                assert(out@.map_values(|v: Vec<char>| v@) =~= before.push(chars@.subrange(start as int, p as int)));
                assert(split_from(chars@, start as int, p as int) == seq![chars@.subrange(start as int, p as int)]
                    + split_from(chars@, p + 2, p + 2));
                assert(before + split_from(chars@, start as int, p as int) =~= out@.map_values(
                    |v: Vec<char>| v@,
                ) + split_from(chars@, p + 2, p + 2));
            }
            p += 2;
            start = p;
            assert(piece@ =~= chars@.subrange(start as int, p as int));
        } else {
            piece.push(chars[p]);
            assert(piece@ =~= chars@.subrange(start as int, p + 1));
            p += 1;
        }
    }
    let ghost before = out@.map_values(|v: Vec<char>| v@);
    out.push(piece);
    assert(out@.map_values(|v: Vec<char>| v@) =~= before + split_from(chars@, start as int, p as int));
    out
}

/// The pieces of `chars` split at each `::`, right to left.
fn rsplit_pieces(chars: &Vec<char>) -> (r: Vec<Vec<char>>)
    ensures
        r@.map_values(|v: Vec<char>| v@) == rsplit_from(chars@, chars.len() as int, chars.len() as int),
{
    let n = chars.len();
    let mut out: Vec<Vec<char>> = Vec::new();
    let mut end: usize = n;
    let mut p: usize = n;
    while p > 0
        invariant
            n == chars.len(),
            p <= end <= n,
            out@.map_values(|v: Vec<char>| v@) + rsplit_from(chars@, end as int, p as int) == rsplit_from(
                chars@,
                n as int,
                n as int,
            ),
        decreases p,
    {
        if p >= 2 && chars[p - 2] == ':' && chars[p - 1] == ':' {
            let piece = slice_chars(chars, p, end);
            let ghost before = out@.map_values(|v: Vec<char>| v@);
            out.push(piece);
            proof {
                assert(out@.map_values(|v: Vec<char>| v@) =~= before.push(chars@.subrange(p as int, end as int)));
                assert(before + rsplit_from(chars@, end as int, p as int) =~= out@.map_values(
                    |v: Vec<char>| v@,
                ) + rsplit_from(chars@, p - 2, p - 2));
            }
            p -= 2;
            end = p;
        } else {
            p -= 1;
        }
    }
    let piece = slice_chars(chars, 0, end);
    let ghost before = out@.map_values(|v: Vec<char>| v@);
    out.push(piece);
    assert(out@.map_values(|v: Vec<char>| v@) =~= before + rsplit_from(chars@, end as int, p as int));
    out
}

/// The characters `chars[from..to]`.
fn slice_chars(chars: &Vec<char>, from: usize, to: usize) -> (r: Vec<char>)
    requires
        from <= to <= chars.len(),
    ensures
        r@ == chars@.subrange(from as int, to as int),
{
    let mut out: Vec<char> = Vec::new();
    let mut k = from;
    while k < to
        invariant
            from <= k <= to <= chars.len(),
            out@ == chars@.subrange(from as int, k as int),
        decreases to - k,
    {
        out.push(chars[k]);
        assert(out@ =~= chars@.subrange(from as int, k + 1));
        k += 1;
    }
    out
}

/// The string holding `chars`.
fn string_of(chars: &Vec<char>) -> (r: String)
    ensures
        r@ == chars@,
{
    let mut out = String::new();
    let mut k: usize = 0;
    while k < chars.len()
        invariant
            k <= chars.len(),
            out@ == chars@.subrange(0, k as int),
        decreases chars.len() - k,
    {
        push_char(&mut out, chars[k]);
        assert(out@ =~= chars@.subrange(0, k + 1));
        k += 1;
    }
    assert(out@ =~= chars@);
    out
}

/// The trimmed component strings among `pieces`.
fn components(pieces: &Vec<Vec<char>>) -> (r: Vec<String>)
    ensures
        views(r@) == components_of(pieces@.map_values(|v: Vec<char>| v@)),
{
    let ghost all = pieces@.map_values(|v: Vec<char>| v@);
    let mut out: Vec<String> = Vec::new();
    let mut k: usize = 0;
    assert(all.skip(0) =~= all);
    while k < pieces.len()
        invariant
            all == pieces@.map_values(|v: Vec<char>| v@),
            k <= pieces.len(),
            views(out@) + components_of(all.skip(k as int)) == components_of(all),
        decreases pieces.len() - k,
    {
        let text = string_of(&pieces[k]);
        let t = trim(text.as_str());
        let tc = chars_of(t.as_str());
        let ghost rest = all.skip(k as int);
        assert(rest[0] == pieces@[k as int]@);
        assert(rest.drop_first() =~= all.skip(k + 1));
        let ghost before = views(out@);
        if tc.len() > 0 && tc[0] != '<' {
            out.push(t);
            assert(views(out@) =~= before.push(trim_spec(rest[0])));
            assert(before + components_of(rest) =~= views(out@) + components_of(all.skip(k + 1)));
        }
        k += 1;
    }
    assert(all.skip(pieces.len() as int) =~= Seq::<Seq<char>>::empty());
    assert(views(out@) + Seq::<Seq<char>>::empty() =~= views(out@));
    out
}

/// The call-path components of `text`.
pub fn call_path(text: &str) -> (r: Vec<String>)
    ensures
        views(r@) == call_path_spec(text@),
{
    let chars = chars_of(text);
    let pieces = split_pieces(&chars);
    components(&pieces)
}

/// True when `callee` ends with the non-empty component list `comps`,
/// ignoring turbofish segments.
pub fn callee_ends_with(callee: &str, comps: &Vec<String>) -> (r: bool)
    ensures
        r == callee_ends_with_spec(callee@, views(comps@)),
{
    if comps.len() == 0 {
        return false;
    }
    let chars = chars_of(callee);
    let parts = rsplit_pieces(&chars);
    let ghost all = parts@.map_values(|v: Vec<char>| v@);
    let ghost cs = views(comps@);
    let mut remaining = comps.len();
    let mut k: usize = 0;
    assert(all.skip(0) =~= all);
    while k < parts.len()
        invariant
            all == parts@.map_values(|v: Vec<char>| v@),
            all == rsplit_from(callee@, callee@.len() as int, callee@.len() as int),
            cs == views(comps@),
            comps.len() > 0,
            k <= parts.len(),
            remaining <= comps.len(),
            ends_with_from(all, cs, comps.len() as int) == ends_with_from(all.skip(k as int), cs, remaining as int),
        decreases parts.len() - k,
    {
        let ghost rest = all.skip(k as int);
        assert(rest[0] == parts@[k as int]@);
        assert(rest.drop_first() =~= all.skip(k + 1));
        if remaining == 0 {
            return true;
        }
        let text = string_of(&parts[k]);
        let part = trim(text.as_str());
        let pc = chars_of(part.as_str());
        if !(pc.len() > 0 && pc[0] != '<') {
            k += 1;
            continue;
        }
        assert(cs[remaining - 1] == comps@[remaining - 1]@);
        if !str_eq(part.as_str(), comps[remaining - 1].as_str()) {
            return false;
        }
        remaining -= 1;
        k += 1;
    }
    assert(all.skip(parts.len() as int).len() == 0);
    remaining == 0
}

/// True when the hint with components `comps` matches the call.
fn matches_call(comps: &Vec<String>, callee: &str, zero_args: bool) -> (r: bool)
    ensures
        r == matches_call_spec(views(comps@), callee@, zero_args),
{
    let is_constructor = comps.len() > 0 && str_eq(comps[comps.len() - 1].as_str(), "new");
    proof {
        if comps.len() > 0 {
            assert(views(comps@).last() == comps@[comps.len() - 1]@);
        }
    }
    (!is_constructor || zero_args) && callee_ends_with(callee, comps)
}

/// True when `pattern` names the macro `name`.
pub fn matches_macro(pattern: &str, name: &str) -> (r: bool)
    ensures
        r == matches_macro_spec(pattern@, name@),
{
    if str_eq(pattern, name) {
        return true;
    }
    let pc = chars_of(pattern);
    if pc.len() == 0 || pc[pc.len() - 1] != '!' {
        return false;
    }
    let body = slice_chars(&pc, 0, pc.len() - 1);
    let text = string_of(&body);
    assert(pattern@.drop_last() =~= body@);
    str_eq(text.as_str(), name)
}

/// The message of the first hint of `a` then `b` matching the call.
fn find_call_match(a: &Vec<PerfHint>, b: &Vec<PerfHint>, callee: &str, zero_args: bool) -> (r: Option<String>)
    ensures
        r matches Some(m) ==> first_call_match(a@ + b@, callee@, zero_args) == Some(m@),
        r is None ==> first_call_match(a@ + b@, callee@, zero_args) is None,
{
    let ghost hints = a@ + b@;
    let mut k: usize = 0;
    assert(hints.skip(0) =~= hints);
    while k < a.len()
        invariant
            hints == a@ + b@,
            k <= a.len(),
            first_call_match(hints, callee@, zero_args) == first_call_match(hints.skip(k as int), callee@, zero_args),
        decreases a.len() - k,
    {
        assert(hints.skip(k as int)[0] == a@[k as int]);
        let comps = call_path(a[k].pattern.as_str());
        if matches_call(&comps, callee, zero_args) {
            return Some(copy_string(&a[k].message));
        }
        assert(hints.skip(k as int).drop_first() =~= hints.skip(k + 1));
        k += 1;
    }
    let mut j: usize = 0;
    while j < b.len()
        invariant
            hints == a@ + b@,
            j <= b.len(),
            first_call_match(hints, callee@, zero_args) == first_call_match(
                hints.skip(a.len() + j),
                callee@,
                zero_args,
            ),
        decreases b.len() - j,
    {
        assert(hints.skip(a.len() + j)[0] == b@[j as int]);
        let comps = call_path(b[j].pattern.as_str());
        if matches_call(&comps, callee, zero_args) {
            return Some(copy_string(&b[j].message));
        }
        assert(hints.skip(a.len() + j).drop_first() =~= hints.skip(a.len() + j + 1));
        j += 1;
    }
    assert(hints.skip(a.len() + j).len() == 0);
    None
}

/// The message of the first hint of `a` then `b` naming the macro.
fn find_macro_match(a: &Vec<PerfHint>, b: &Vec<PerfHint>, name: &str) -> (r: Option<String>)
    ensures
        r matches Some(m) ==> first_macro_match(a@ + b@, name@) == Some(m@),
        r is None ==> first_macro_match(a@ + b@, name@) is None,
{
    let ghost hints = a@ + b@;
    let mut k: usize = 0;
    assert(hints.skip(0) =~= hints);
    while k < a.len()
        invariant
            hints == a@ + b@,
            k <= a.len(),
            first_macro_match(hints, name@) == first_macro_match(hints.skip(k as int), name@),
        decreases a.len() - k,
    {
        assert(hints.skip(k as int)[0] == a@[k as int]);
        if matches_macro(a[k].pattern.as_str(), name) {
            return Some(copy_string(&a[k].message));
        }
        assert(hints.skip(k as int).drop_first() =~= hints.skip(k + 1));
        k += 1;
    }
    let mut j: usize = 0;
    while j < b.len()
        invariant
            hints == a@ + b@,
            j <= b.len(),
            first_macro_match(hints, name@) == first_macro_match(hints.skip(a.len() + j), name@),
        decreases b.len() - j,
    {
        assert(hints.skip(a.len() + j)[0] == b@[j as int]);
        if matches_macro(b[j].pattern.as_str(), name) {
            return Some(copy_string(&b[j].message));
        }
        assert(hints.skip(a.len() + j).drop_first() =~= hints.skip(a.len() + j + 1));
        j += 1;
    }
    assert(hints.skip(a.len() + j).len() == 0);
    None
}

/// The trimmed text of node `n`.
fn node_trimmed(tree: &SyntaxTree, src: &[u8], n: usize) -> (r: String)
    requires
        tree_ok(tree, src),
        n < tree.nodes.len(),
    ensures
        r@ == trimmed_text(*tree, src@, n as int),
{
    match utf8_span(src, tree.nodes[n].start, tree.nodes[n].end) {
        Some(t) => trim(t.as_str()),
        None => String::new(),
    }
}

/// The reminder node `i` triggers, if any.
fn reminder_at(tree: &SyntaxTree, src: &[u8], a: &Vec<PerfHint>, b: &Vec<PerfHint>, i: usize) -> (r: Option<
    (String, String, String),
>)
    requires
        tree_ok(tree, src),
        i < tree.nodes.len(),
    ensures
        r matches Some(f) ==> finding_at(*tree, src@, a@ + b@, i as int) == Some((f.0@, f.1@, f.2@)),
        r is None ==> finding_at(*tree, src@, a@ + b@, i as int) is None,
{
    if tree.is_kind(i, "call_expression") {
        let function = match tree.child_by_field(i, "function") {
            Some(f) => f,
            None => return None,
        };
        let callee = if tree.is_kind(function, "field_expression") {
            match tree.child_by_field(function, "field") {
                Some(f) => node_trimmed(tree, src, f),
                None => String::new(),
            }
        } else {
            node_trimmed(tree, src, function)
        };
        let zero_args = match tree.child_by_field(i, "arguments") {
            None => true,
            Some(a) => tree.named_children(a).len() == 0,
        };
        if chars_of(callee.as_str()).len() == 0 {
            return None;
        }
        match find_call_match(a, b, callee.as_str(), zero_args) {
            Some(m) => Some((m, owned("call"), callee)),
            None => None,
        }
    } else if tree.is_kind(i, "macro_invocation") {
        let m = match tree.child_by_field(i, "macro") {
            Some(m) => m,
            None => return None,
        };
        let name = node_trimmed(tree, src, m);
        match find_macro_match(a, b, name.as_str()) {
            Some(msg) => Some((msg, owned("macro"), name)),
            None => None,
        }
    } else {
        None
    }
}

/// Remind at every invocation that a hint matches, trying `hints` before
/// `extra_hints`.
///
/// # Arguments
///
/// - `tree` - the parsed file.
/// - `src` - the file's bytes.
/// - `hints` - the base reminder list.
/// - `extra_hints` - reminders searched after the base list.
///
/// # Returns
///
/// One PERF001 hint per matching invocation, in document order; nothing
/// when both lists are empty.
pub fn check(tree: &SyntaxTree, src: &[u8], hints: &Vec<PerfHint>, extra_hints: &Vec<PerfHint>) -> (r: Vec<
    Diagnostic,
>)
    requires
        tree.wf(),
        tree.source_len == src@.len(),
    ensures
        r.len() == reminded_upto(*tree, src@, hints@ + extra_hints@, tree.nodes.len() as int).len(),
        forall|j: int|
            #![trigger r@[j]]
            0 <= j < r.len() ==> finding_for(
                r@[j],
                *tree,
                src@,
                hints@ + extra_hints@,
                reminded_upto(*tree, src@, hints@ + extra_hints@, tree.nodes.len() as int)[j],
            ),
{
    let ghost all = hints@ + extra_hints@;
    let n = tree.nodes.len();
    let mut out: Vec<Diagnostic> = Vec::new();
    if hints.len() == 0 && extra_hints.len() == 0 {
        proof {
            assert(all.len() == 0);
            assert forall|m: int| 0 <= m <= n implies reminded_upto(*tree, src@, all, m).len() == 0 by {
                lemma_nothing_reminded(*tree, src@, all, m);
            }
        }
        return out;
    }
    let mut i: usize = 0;
    while i < n
        invariant
            tree_ok(tree, src),
            all == hints@ + extra_hints@,
            n == tree.nodes.len(),
            i <= n,
            out.len() == reminded_upto(*tree, src@, all, i as int).len(),
            forall|j: int|
                #![trigger out@[j]]
                0 <= j < out.len() ==> finding_for(out@[j], *tree, src@, all, reminded_upto(*tree, src@, all, i as int)[j]),
        decreases n - i,
    {
        let ghost before = reminded_upto(*tree, src@, all, i as int);
        if let Some((message, kind, name)) = reminder_at(tree, src, hints, extra_hints, i) {
            let d = Diagnostic {
                severity: Severity::Hint,
                code: CODE_PERF001,
                title: None,
                message,
                line: tree.nodes[i].row + 1,
                item_kind: kind,
                item_name: Some(name),
            };
            out.push(d);
            proof {
                let after = reminded_upto(*tree, src@, all, i + 1);
                assert(after == before.push(i as int));
                assert forall|j: int| 0 <= j < out.len() implies finding_for(#[trigger] out@[j], *tree, src@, all, after[j]) by {
                    if j < out.len() - 1 {
                        assert(after[j] == before[j]);
                    }
                }
            }
        }
        i += 1;
    }
    out
}

/// With no hints, no node triggers a reminder.
proof fn lemma_nothing_reminded(tree: SyntaxTree, src: Seq<u8>, hints: Seq<PerfHint>, n: int)
    requires
        hints.len() == 0,
    ensures
        reminded_upto(tree, src, hints, n).len() == 0,
    decreases n,
{
    if n > 0 {
        lemma_nothing_reminded(tree, src, hints, n - 1);
        assert(first_call_match(hints, Seq::empty(), true) is None);
    }
}


/// The built-in reminders: standard containers whose zero-capacity
/// constructor has a capacity-setting alternative.
pub open spec fn default_hints_spec() -> Seq<(Seq<char>, Seq<char>)> {
    seq![
        ("Vec::new"@, "`Vec::new()` starts with zero capacity.\n\nWhy: filling it afterwards can repeatedly reallocate as it grows.\n\nSuggestions:\n- If the expected element count is known, use `Vec::with_capacity(count)`.\n- Keep `Vec::new()` when the final size is unknown; a wrong guess wastes memory."@),
        ("String::new"@, "`String::new()` starts with zero capacity.\n\nWhy: appending text afterwards can repeatedly reallocate as it grows.\n\nSuggestions:\n- If the expected byte length is known, use `String::with_capacity(len)`.\n- Keep `String::new()` when the final length is unknown; a wrong guess wastes memory."@),
        ("VecDeque::new"@, "`VecDeque::new()` starts with zero capacity.\n\nWhy: filling it afterwards can repeatedly reallocate as it grows.\n\nSuggestions:\n- If the expected element count is known, use `VecDeque::with_capacity(count)`.\n- Keep `VecDeque::new()` when the final size is unknown; a wrong guess wastes memory."@),
        ("BinaryHeap::new"@, "`BinaryHeap::new()` starts with zero capacity.\n\nWhy: filling it afterwards can repeatedly reallocate as it grows.\n\nSuggestions:\n- If the expected element count is known, use `BinaryHeap::with_capacity(count)`.\n- Keep `BinaryHeap::new()` when the final size is unknown; a wrong guess wastes memory."@),
        ("HashMap::new"@, "`HashMap::new()` starts with zero capacity.\n\nWhy: filling it afterwards can repeatedly rehash and reallocate as it grows.\n\nSuggestions:\n- If the expected entry count is known, use `HashMap::with_capacity(count)`.\n- Keep `HashMap::new()` when the final size is unknown; a wrong guess wastes memory."@),
        ("HashSet::new"@, "`HashSet::new()` starts with zero capacity.\n\nWhy: filling it afterwards can repeatedly rehash and reallocate as it grows.\n\nSuggestions:\n- If the expected element count is known, use `HashSet::with_capacity(count)`.\n- Keep `HashSet::new()` when the final size is unknown; a wrong guess wastes memory."@),
    ]
}

/// One reminder entry.
fn reminder(pattern: &str, message: &str) -> (r: PerfHint)
    ensures
        r.pattern@ == pattern@,
        r.message@ == message@,
{
    PerfHint { pattern: owned(pattern), message: owned(message) }
}

/// The built-in reminder list; a configured list replaces it.
///
/// # Returns
///
/// The container-constructor reminders, in their documented order.
pub fn default_hints() -> (r: Vec<PerfHint>)
    ensures
        r.len() == default_hints_spec().len(),
        forall|k: int|
            0 <= k < r.len() ==> (#[trigger] r@[k]).pattern@ == default_hints_spec()[k].0 && r@[k].message@
                == default_hints_spec()[k].1,
{
    let mut out: Vec<PerfHint> = Vec::new();
    out.push(reminder("Vec::new", "`Vec::new()` starts with zero capacity.\n\nWhy: filling it afterwards can repeatedly reallocate as it grows.\n\nSuggestions:\n- If the expected element count is known, use `Vec::with_capacity(count)`.\n- Keep `Vec::new()` when the final size is unknown; a wrong guess wastes memory."));
    out.push(reminder("String::new", "`String::new()` starts with zero capacity.\n\nWhy: appending text afterwards can repeatedly reallocate as it grows.\n\nSuggestions:\n- If the expected byte length is known, use `String::with_capacity(len)`.\n- Keep `String::new()` when the final length is unknown; a wrong guess wastes memory."));
    out.push(reminder("VecDeque::new", "`VecDeque::new()` starts with zero capacity.\n\nWhy: filling it afterwards can repeatedly reallocate as it grows.\n\nSuggestions:\n- If the expected element count is known, use `VecDeque::with_capacity(count)`.\n- Keep `VecDeque::new()` when the final size is unknown; a wrong guess wastes memory."));
    out.push(reminder("BinaryHeap::new", "`BinaryHeap::new()` starts with zero capacity.\n\nWhy: filling it afterwards can repeatedly reallocate as it grows.\n\nSuggestions:\n- If the expected element count is known, use `BinaryHeap::with_capacity(count)`.\n- Keep `BinaryHeap::new()` when the final size is unknown; a wrong guess wastes memory."));
    out.push(reminder("HashMap::new", "`HashMap::new()` starts with zero capacity.\n\nWhy: filling it afterwards can repeatedly rehash and reallocate as it grows.\n\nSuggestions:\n- If the expected entry count is known, use `HashMap::with_capacity(count)`.\n- Keep `HashMap::new()` when the final size is unknown; a wrong guess wastes memory."));
    out.push(reminder("HashSet::new", "`HashSet::new()` starts with zero capacity.\n\nWhy: filling it afterwards can repeatedly rehash and reallocate as it grows.\n\nSuggestions:\n- If the expected element count is known, use `HashSet::with_capacity(count)`.\n- Keep `HashSet::new()` when the final size is unknown; a wrong guess wastes memory."));
    out
}

} // verus!
