//! `PERF001` for C#: remind at creations and calls with a cheaper
//! alternative.
//!
//! Matching reads syntax only, so mentions in comments or strings never
//! fire, and no fill loop or hoisting is analysed.
//!
//! - Creation patterns (`List::new`) match `new T()` by the created type's
//!   unqualified base name without generic arguments, and only for
//!   creations with no arguments and no initializer, so
//!   `new List<int>(capacity)` and `new List<int> { 1, 2 }` stay silent.
//! - Call patterns (`ToString`) match an invocation's final name: member
//!   calls by member name, plain calls by the callee text.
//!
//! The base list comes first and the extra list after it; the first
//! matching entry wins.
use crate::codes::CODE_PERF001;
use crate::diagnostic::{Diagnostic, Severity};
use crate::perf_hint::PerfHint;
use crate::syntax::{field_child, named_children_spec, span_text, tree_ok, utf8_span, SyntaxTree};
use crate::text::{chars_of, copy_string, owned, push_char, str_eq, trim, trim_spec};
use vstd::prelude::*;

verus! {

/// The index of the first `<` in `s`, or its length.
pub open spec fn first_lt(s: Seq<char>, i: int) -> int
    decreases s.len() - i,
{
    if i >= s.len() || i < 0 {
        s.len() as int
    } else if s[i] == '<' {
        i
    } else {
        first_lt(s, i + 1)
    }
}

/// The index after the last `.` in `s[..end]`, or 0.
pub open spec fn after_last_dot(s: Seq<char>, end: int) -> int
    decreases end,
{
    if end <= 0 {
        0
    } else if s[end - 1] == '.' {
        end
    } else {
        after_last_dot(s, end - 1)
    }
}

/// The matchable base name of a created type: generic arguments and
/// namespace qualification come off, so
/// `System.Collections.Generic.List<T>` yields `List`.
pub open spec fn bare_type_name_spec(t: Seq<char>) -> Seq<char> {
    let end = first_lt(t, 0);
    trim_spec(t.subrange(after_last_dot(t, end), end))
}

/// `pattern` is `name` followed by `::new`.
pub open spec fn creates(pattern: Seq<char>, name: Seq<char>) -> bool {
    pattern.len() >= 5 && pattern.skip(pattern.len() - 5) == "::new"@ && pattern.take(pattern.len() - 5) == name
}

/// The message of the first hint whose creation pattern names `bare`.
pub open spec fn first_creation_match(hints: Seq<PerfHint>, bare: Seq<char>) -> Option<Seq<char>>
    decreases hints.len(),
{
    if hints.len() == 0 {
        None
    } else if creates(hints[0].pattern@, bare) {
        Some(hints[0].message@)
    } else {
        first_creation_match(hints.drop_first(), bare)
    }
}

/// The message of the first hint whose pattern is exactly `name`.
pub open spec fn first_name_match(hints: Seq<PerfHint>, name: Seq<char>) -> Option<Seq<char>>
    decreases hints.len(),
{
    if hints.len() == 0 {
        None
    } else if hints[0].pattern@ == name {
        Some(hints[0].message@)
    } else {
        first_name_match(hints.drop_first(), name)
    }
}

/// The trimmed source text of node `n`, or nothing when its span is not
/// text.
pub open spec fn trimmed_text(tree: SyntaxTree, src: Seq<u8>, n: int) -> Seq<char> {
    match span_text(src, tree.nodes[n].start as int, tree.nodes[n].end as int) {
        Some(t) => trim_spec(t),
        None => Seq::empty(),
    }
}

/// The reminder node `i` triggers: its message, the invocation kind, and
/// the invoked name.
pub open spec fn finding_at(tree: SyntaxTree, src: Seq<u8>, hints: Seq<PerfHint>, i: int) -> Option<
    (Seq<char>, Seq<char>, Seq<char>),
> {
    if tree.nodes[i].kind@ == "object_creation_expression"@ {
        match field_child(tree, i, "type"@) {
            None => None,
            Some(t) => {
                let bare = bare_type_name_spec(trimmed_text(tree, src, t));
                let zero = (match field_child(tree, i, "arguments"@) {
                    Some(a) => named_children_spec(tree, a as usize).len() == 0,
                    None => false,
                }) && field_child(tree, i, "initializer"@) is None;
                if !zero {
                    None
                } else {
                    match first_creation_match(hints, bare) {
                        Some(m) => Some((m, "creation"@, bare)),
                        None => None,
                    }
                }
            },
        }
    } else if tree.nodes[i].kind@ == "invocation_expression"@ {
        match field_child(tree, i, "function"@) {
            None => None,
            Some(f) => {
                let name = if tree.nodes[f].kind@ == "member_access_expression"@ {
                    match field_child(tree, f, "name"@) {
                        Some(n) => trimmed_text(tree, src, n),
                        None => Seq::empty(),
                    }
                } else {
                    trimmed_text(tree, src, f)
                };
                if name.len() == 0 {
                    None
                } else {
                    match first_name_match(hints, name) {
                        Some(m) => Some((m, "call"@, name)),
                        None => None,
                    }
                }
            },
        }
    } else {
        None
    }
}

/// The nodes among `0..n` that trigger a reminder, in document order.
pub open spec fn reminded_upto(tree: SyntaxTree, src: Seq<u8>, hints: Seq<PerfHint>, n: int) -> Seq<int>
    decreases n,
{
    if n <= 0 {
        Seq::empty()
    } else if finding_at(tree, src, hints, n - 1) is Some {
        reminded_upto(tree, src, hints, n - 1).push(n - 1)
    } else {
        reminded_upto(tree, src, hints, n - 1)
    }
}

/// `d` is the reminder node `i` triggers.
pub open spec fn finding_for(d: Diagnostic, tree: SyntaxTree, src: Seq<u8>, hints: Seq<PerfHint>, i: int) -> bool {
    finding_at(tree, src, hints, i) matches Some(f) && {
        &&& d.code@ == CODE_PERF001@
        &&& d.severity == Severity::Hint
        &&& d.title is None
        &&& d.message@ == f.0
        &&& d.line == tree.nodes[i].row + 1
        &&& d.item_kind@ == f.1
        &&& d.item_name matches Some(n) && n@ == f.2
    }
}

/// The characters `chars[from..to]` as a string.
fn substring(chars: &Vec<char>, from: usize, to: usize) -> (r: String)
    requires
        from <= to <= chars.len(),
    ensures
        r@ == chars@.subrange(from as int, to as int),
{
    let mut out = String::new();
    let mut k = from;
    while k < to
        invariant
            from <= k <= to <= chars.len(),
            out@ == chars@.subrange(from as int, k as int),
        decreases to - k,
    {
        push_char(&mut out, chars[k]);
        assert(out@ =~= chars@.subrange(from as int, k + 1));
        k += 1;
    }
    out
}

/// The matchable base name of the created type text `t`.
pub fn bare_type_name(t: &str) -> (r: String)
    ensures
        r@ == bare_type_name_spec(t@),
{
    let chars = chars_of(t);
    let mut end: usize = 0;
    while end < chars.len() && chars[end] != '<'
        invariant
            chars@ == t@,
            end <= chars.len(),
            first_lt(t@, 0) == first_lt(t@, end as int),
        decreases chars.len() - end,
    {
        end += 1;
    }
    let mut start = end;
    while start > 0 && chars[start - 1] != '.'
        invariant
            chars@ == t@,
            start <= end <= chars.len(),
            first_lt(t@, 0) == end,
            after_last_dot(t@, end as int) == after_last_dot(t@, start as int),
        decreases start,
    {
        start -= 1;
    }
    let base = substring(&chars, start, end);
    trim(base.as_str())
}

/// True when `pattern` is `name` followed by `::new`.
fn creation_pattern_names(pattern: &str, name: &str) -> (r: bool)
    ensures
        r == creates(pattern@, name@),
{
    let chars = chars_of(pattern);
    let n = chars.len();
    if n < 5 {
        return false;
    }
    let tail = substring(&chars, n - 5, n);
    if !str_eq(tail.as_str(), "::new") {
        assert(pattern@.skip(n - 5) =~= tail@);
        return false;
    }
    assert(pattern@.skip(n - 5) =~= tail@);
    let head = substring(&chars, 0, n - 5);
    assert(pattern@.take(n - 5) =~= head@);
    str_eq(head.as_str(), name)
}

/// The message of the first hint of `a` then `b` whose creation pattern
/// names `bare`.
fn find_creation(a: &Vec<PerfHint>, b: &Vec<PerfHint>, bare: &str) -> (r: Option<String>)
    ensures
        r matches Some(m) ==> first_creation_match(a@ + b@, bare@) == Some(m@),
        r is None ==> first_creation_match(a@ + b@, bare@) is None,
{
    let ghost hints = a@ + b@;
    let mut k: usize = 0;
    assert(hints.skip(0) =~= hints);
    while k < a.len()
        invariant
            hints == a@ + b@,
            k <= a.len(),
            first_creation_match(hints, bare@) == first_creation_match(hints.skip(k as int), bare@),
        decreases a.len() - k,
    {
        assert(hints.skip(k as int)[0] == a@[k as int]);
        if creation_pattern_names(a[k].pattern.as_str(), bare) {
            return Some(copy_string(&a[k].message));
        }
        assert(hints.skip(k as int).drop_first() =~= hints.skip(k + 1));
        k += 1;
    }
    let mut j: usize = 0;
    while j < b.len()
        invariant
            hints == a@ + b@,
            j <= b.len(),
            first_creation_match(hints, bare@) == first_creation_match(hints.skip(a.len() + j), bare@),
        decreases b.len() - j,
    {
        assert(hints.skip(a.len() + j)[0] == b@[j as int]);
        if creation_pattern_names(b[j].pattern.as_str(), bare) {
            return Some(copy_string(&b[j].message));
        }
        assert(hints.skip(a.len() + j).drop_first() =~= hints.skip(a.len() + j + 1));
        j += 1;
    }
    assert(hints.skip(a.len() + j).len() == 0);
    None
}

/// The message of the first hint of `a` then `b` whose pattern is `name`.
fn find_name(a: &Vec<PerfHint>, b: &Vec<PerfHint>, name: &str) -> (r: Option<String>)
    ensures
        r matches Some(m) ==> first_name_match(a@ + b@, name@) == Some(m@),
        r is None ==> first_name_match(a@ + b@, name@) is None,
{
    let ghost hints = a@ + b@;
    let mut k: usize = 0;
    assert(hints.skip(0) =~= hints);
    while k < a.len()
        invariant
            hints == a@ + b@,
            k <= a.len(),
            first_name_match(hints, name@) == first_name_match(hints.skip(k as int), name@),
        decreases a.len() - k,
    {
        assert(hints.skip(k as int)[0] == a@[k as int]);
        if str_eq(a[k].pattern.as_str(), name) {
            return Some(copy_string(&a[k].message));
        }
        assert(hints.skip(k as int).drop_first() =~= hints.skip(k + 1));
        k += 1;
    }
    let mut j: usize = 0;
    while j < b.len()
        invariant
            hints == a@ + b@,
            j <= b.len(),
            first_name_match(hints, name@) == first_name_match(hints.skip(a.len() + j), name@),
        decreases b.len() - j,
    {
        assert(hints.skip(a.len() + j)[0] == b@[j as int]);
        if str_eq(b[j].pattern.as_str(), name) {
            return Some(copy_string(&b[j].message));
        }
        assert(hints.skip(a.len() + j).drop_first() =~= hints.skip(a.len() + j + 1));
        j += 1;
    }
    assert(hints.skip(a.len() + j).len() == 0);
    None
}

/// The trimmed text of node `n`.
fn node_trimmed(tree: &SyntaxTree, src: &[u8], n: usize) -> (r: String)
    requires
        tree_ok(tree, src),
        n < tree.nodes.len(),
    ensures
        r@ == trimmed_text(*tree, src@, n as int),
{
    match utf8_span(src, tree.nodes[n].start, tree.nodes[n].end) {
        Some(t) => trim(t.as_str()),
        None => String::new(),
    }
}

/// The reminder node `i` triggers, if any.
fn reminder_at(tree: &SyntaxTree, src: &[u8], a: &Vec<PerfHint>, b: &Vec<PerfHint>, i: usize) -> (r: Option<
    (String, String, String),
>)
    requires
        tree_ok(tree, src),
        i < tree.nodes.len(),
    ensures
        r matches Some(f) ==> finding_at(*tree, src@, a@ + b@, i as int) == Some((f.0@, f.1@, f.2@)),
        r is None ==> finding_at(*tree, src@, a@ + b@, i as int) is None,
{
    if tree.is_kind(i, "object_creation_expression") {
        let t = match tree.child_by_field(i, "type") {
            Some(t) => t,
            None => return None,
        };
        let text = node_trimmed(tree, src, t);
        let bare = bare_type_name(text.as_str());
        let zero = (match tree.child_by_field(i, "arguments") {
            Some(args) => tree.named_children(args).len() == 0,
            None => false,
        }) && tree.child_by_field(i, "initializer").is_none();
        if !zero {
            return None;
        }
        match find_creation(a, b, bare.as_str()) {
            Some(m) => Some((m, owned("creation"), bare)),
            None => None,
        }
    } else if tree.is_kind(i, "invocation_expression") {
        let f = match tree.child_by_field(i, "function") {
            Some(f) => f,
            None => return None,
        };
        let name = if tree.is_kind(f, "member_access_expression") {
            match tree.child_by_field(f, "name") {
                Some(n) => node_trimmed(tree, src, n),
                None => String::new(),
            }
        } else {
            node_trimmed(tree, src, f)
        };
        if chars_of(name.as_str()).len() == 0 {
            return None;
        }
        match find_name(a, b, name.as_str()) {
            Some(m) => Some((m, owned("call"), name)),
            None => None,
        }
    } else {
        None
    }
}

/// With no hints, no node triggers a reminder.
proof fn lemma_nothing_reminded(tree: SyntaxTree, src: Seq<u8>, hints: Seq<PerfHint>, n: int)
    requires
        hints.len() == 0,
    ensures
        reminded_upto(tree, src, hints, n).len() == 0,
    decreases n,
{
    if n > 0 {
        lemma_nothing_reminded(tree, src, hints, n - 1);
    }
}

/// Remind at every creation and call a hint matches, trying `hints` before
/// `extra_hints`.
///
/// # Arguments
///
/// - `tree` - the parsed file.
/// - `src` - the file's bytes.
/// - `hints` - the base reminder list.
/// - `extra_hints` - reminders searched after the base list.
///
/// # Returns
///
/// One PERF001 hint per matching invocation, in document order; nothing
/// when both lists are empty.
pub fn check(tree: &SyntaxTree, src: &[u8], hints: &Vec<PerfHint>, extra_hints: &Vec<PerfHint>) -> (r: Vec<
    Diagnostic,
>)
    requires
        tree.wf(),
        tree.source_len == src@.len(),
    ensures
        r.len() == reminded_upto(*tree, src@, hints@ + extra_hints@, tree.nodes.len() as int).len(),
        forall|j: int|
            #![trigger r@[j]]
            0 <= j < r.len() ==> finding_for(
                r@[j],
                *tree,
                src@,
                hints@ + extra_hints@,
                reminded_upto(*tree, src@, hints@ + extra_hints@, tree.nodes.len() as int)[j],
            ),
{
    let ghost all = hints@ + extra_hints@;
    let n = tree.nodes.len();
    let mut out: Vec<Diagnostic> = Vec::new();
    if hints.len() == 0 && extra_hints.len() == 0 {
        proof {
            lemma_nothing_reminded(*tree, src@, all, n as int);
        }
        return out;
    }
    let mut i: usize = 0;
    while i < n
        invariant
            tree_ok(tree, src),
            all == hints@ + extra_hints@,
            n == tree.nodes.len(),
            i <= n,
            out.len() == reminded_upto(*tree, src@, all, i as int).len(),
            forall|j: int|
                #![trigger out@[j]]
                0 <= j < out.len() ==> finding_for(out@[j], *tree, src@, all, reminded_upto(*tree, src@, all, i as int)[j]),
        decreases n - i,
    {
        let ghost before = reminded_upto(*tree, src@, all, i as int);
        if let Some((message, kind, name)) = reminder_at(tree, src, hints, extra_hints, i) {
            let d = Diagnostic {
                severity: Severity::Hint,
                code: CODE_PERF001,
                title: None,
                message,
                line: tree.nodes[i].row + 1,
                item_kind: kind,
                item_name: Some(name),
            };
            out.push(d);
            proof {
                let after = reminded_upto(*tree, src@, all, i + 1);
                assert(after == before.push(i as int));
                assert forall|j: int| 0 <= j < out.len() implies finding_for(#[trigger] out@[j], *tree, src@, all, after[j]) by {
                    if j < out.len() - 1 {
                        assert(after[j] == before[j]);
                    }
                }
            }
        }
        i += 1;
    }
    out
}

/// The built-in reminders: standard collections with a capacity
/// constructor.
pub open spec fn default_hints_spec() -> Seq<(Seq<char>, Seq<char>)> {
    seq![
        ("List::new"@, "`new List<T>()` starts with zero capacity.\n\nWhy: filling it afterwards can repeatedly resize the underlying array.\n\nSuggestions:\n- If the expected element count is known, use the `List` constructor that accepts a capacity.\n- Keep the parameterless constructor when the final size is unknown; a wrong guess wastes memory."@),
        ("Dictionary::new"@, "`new Dictionary<K, V>()` starts with zero capacity.\n\nWhy: filling it afterwards can repeatedly resize and rehash the underlying storage.\n\nSuggestions:\n- If the expected entry count is known, use the `Dictionary` constructor that accepts a capacity.\n- Keep the parameterless constructor when the final size is unknown; a wrong guess wastes memory."@),
        ("HashSet::new"@, "`new HashSet<T>()` starts with zero capacity.\n\nWhy: filling it afterwards can repeatedly resize and rehash the underlying storage.\n\nSuggestions:\n- If the expected element count is known, use the `HashSet` constructor that accepts a capacity.\n- Keep the parameterless constructor when the final size is unknown; a wrong guess wastes memory."@),
        ("Queue::new"@, "`new Queue<T>()` starts without a chosen capacity.\n\nWhy: filling it afterwards can repeatedly resize the underlying array.\n\nSuggestions:\n- If the expected element count is known, use the `Queue` constructor that accepts a capacity.\n- Keep the parameterless constructor when the final size is unknown; a wrong guess wastes memory."@),
        ("Stack::new"@, "`new Stack<T>()` starts without a chosen capacity.\n\nWhy: filling it afterwards can repeatedly resize the underlying array.\n\nSuggestions:\n- If the expected element count is known, use the `Stack` constructor that accepts a capacity.\n- Keep the parameterless constructor when the final size is unknown; a wrong guess wastes memory."@),
        ("PriorityQueue::new"@, "`new PriorityQueue<TElement, TPriority>()` starts with zero capacity.\n\nWhy: filling it afterwards can repeatedly resize the underlying storage.\n\nSuggestions:\n- If the expected element count is known, use the `PriorityQueue` constructor that accepts a capacity.\n- Keep the parameterless constructor when the final size is unknown; a wrong guess wastes memory."@),
        ("SortedList::new"@, "`new SortedList<K, V>()` starts with zero capacity.\n\nWhy: filling it afterwards can repeatedly resize the underlying arrays.\n\nSuggestions:\n- If the expected entry count is known, use the `SortedList` constructor that accepts a capacity.\n- Keep the parameterless constructor when the final size is unknown; a wrong guess wastes memory."@),
        ("ArrayList::new"@, "`new ArrayList()` starts with zero capacity.\n\nWhy: filling it afterwards can repeatedly resize the underlying array.\n\nSuggestions:\n- If the expected element count is known, use the `ArrayList` constructor that accepts a capacity.\n- Keep the parameterless constructor when the final size is unknown; a wrong guess wastes memory."@),
        ("Hashtable::new"@, "`new Hashtable()` starts with zero capacity.\n\nWhy: filling it afterwards can repeatedly resize and rehash the underlying buckets.\n\nSuggestions:\n- If the expected entry count is known, use the `Hashtable` constructor that accepts a capacity.\n- Keep the parameterless constructor when the final size is unknown; a wrong guess wastes memory."@),
        ("StringBuilder::new"@, "`new StringBuilder()` starts without a chosen capacity.\n\nWhy: appending text afterwards can repeatedly resize the internal buffer.\n\nSuggestions:\n- If the expected character count is known, use the `StringBuilder` constructor that accepts a capacity.\n- Keep the parameterless constructor when the final length is unknown; a wrong guess wastes memory."@),
    ]
}

/// One reminder entry.
fn reminder(pattern: &str, message: &str) -> (r: PerfHint)
    ensures
        r.pattern@ == pattern@,
        r.message@ == message@,
{
    PerfHint { pattern: owned(pattern), message: owned(message) }
}

/// The built-in reminder list; a configured list replaces it.
///
/// # Returns
///
/// The collection-constructor reminders, in their documented order.
pub fn default_hints() -> (r: Vec<PerfHint>)
    ensures
        r.len() == default_hints_spec().len(),
        forall|k: int|
            0 <= k < r.len() ==> (#[trigger] r@[k]).pattern@ == default_hints_spec()[k].0 && r@[k].message@
                == default_hints_spec()[k].1,
{
    let mut out: Vec<PerfHint> = Vec::new();
    out.push(reminder("List::new", "`new List<T>()` starts with zero capacity.\n\nWhy: filling it afterwards can repeatedly resize the underlying array.\n\nSuggestions:\n- If the expected element count is known, use the `List` constructor that accepts a capacity.\n- Keep the parameterless constructor when the final size is unknown; a wrong guess wastes memory."));
    out.push(reminder("Dictionary::new", "`new Dictionary<K, V>()` starts with zero capacity.\n\nWhy: filling it afterwards can repeatedly resize and rehash the underlying storage.\n\nSuggestions:\n- If the expected entry count is known, use the `Dictionary` constructor that accepts a capacity.\n- Keep the parameterless constructor when the final size is unknown; a wrong guess wastes memory."));
    out.push(reminder("HashSet::new", "`new HashSet<T>()` starts with zero capacity.\n\nWhy: filling it afterwards can repeatedly resize and rehash the underlying storage.\n\nSuggestions:\n- If the expected element count is known, use the `HashSet` constructor that accepts a capacity.\n- Keep the parameterless constructor when the final size is unknown; a wrong guess wastes memory."));
    out.push(reminder("Queue::new", "`new Queue<T>()` starts without a chosen capacity.\n\nWhy: filling it afterwards can repeatedly resize the underlying array.\n\nSuggestions:\n- If the expected element count is known, use the `Queue` constructor that accepts a capacity.\n- Keep the parameterless constructor when the final size is unknown; a wrong guess wastes memory."));
    out.push(reminder("Stack::new", "`new Stack<T>()` starts without a chosen capacity.\n\nWhy: filling it afterwards can repeatedly resize the underlying array.\n\nSuggestions:\n- If the expected element count is known, use the `Stack` constructor that accepts a capacity.\n- Keep the parameterless constructor when the final size is unknown; a wrong guess wastes memory."));
    out.push(reminder("PriorityQueue::new", "`new PriorityQueue<TElement, TPriority>()` starts with zero capacity.\n\nWhy: filling it afterwards can repeatedly resize the underlying storage.\n\nSuggestions:\n- If the expected element count is known, use the `PriorityQueue` constructor that accepts a capacity.\n- Keep the parameterless constructor when the final size is unknown; a wrong guess wastes memory."));
    out.push(reminder("SortedList::new", "`new SortedList<K, V>()` starts with zero capacity.\n\nWhy: filling it afterwards can repeatedly resize the underlying arrays.\n\nSuggestions:\n- If the expected entry count is known, use the `SortedList` constructor that accepts a capacity.\n- Keep the parameterless constructor when the final size is unknown; a wrong guess wastes memory."));
    out.push(reminder("ArrayList::new", "`new ArrayList()` starts with zero capacity.\n\nWhy: filling it afterwards can repeatedly resize the underlying array.\n\nSuggestions:\n- If the expected element count is known, use the `ArrayList` constructor that accepts a capacity.\n- Keep the parameterless constructor when the final size is unknown; a wrong guess wastes memory."));
    out.push(reminder("Hashtable::new", "`new Hashtable()` starts with zero capacity.\n\nWhy: filling it afterwards can repeatedly resize and rehash the underlying buckets.\n\nSuggestions:\n- If the expected entry count is known, use the `Hashtable` constructor that accepts a capacity.\n- Keep the parameterless constructor when the final size is unknown; a wrong guess wastes memory."));
    out.push(reminder("StringBuilder::new", "`new StringBuilder()` starts without a chosen capacity.\n\nWhy: appending text afterwards can repeatedly resize the internal buffer.\n\nSuggestions:\n- If the expected character count is known, use the `StringBuilder` constructor that accepts a capacity.\n- Keep the parameterless constructor when the final length is unknown; a wrong guess wastes memory."));
    out
}

} // verus!
