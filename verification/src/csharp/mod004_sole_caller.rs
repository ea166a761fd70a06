//! `MOD004` for C#: suggest nesting a namespace under its only caller.
//!
//! When exactly one namespace's code references another, the referenced
//! namespace can live beneath that caller, so that the file layout follows
//! control flow. The rule reads the namespace reference edges of the
//! project, in a deterministic order.
//!
//! For every namespace `N` that some edge targets (the empty root
//! namespace aside):
//!
//! - Take the edges whose target is `N` itself, and leave out those from
//!   `N` or a namespace nested under it.
//! - Group the callers by namespace cut to `N`'s depth: a caller split
//!   across files, or calling from a nested namespace, counts once.
//! - Suggest nesting when exactly one caller remains, unless it is `N`'s
//!   parent, or the pair is mutual (`N`'s unit is the caller's only
//!   caller).
//!
//! The hint anchors at the file and line of the caller's first reference.
use crate::codes::CODE_MOD004;
use crate::diagnostic::{Diagnostic, Severity};
use crate::lex::{has_prefix, insert_sorted, path_lt, paths, same_path, starts_with, strictly_sorted, unit, unit_of};
use crate::sole_caller::{self, entries_match, entries_view, references_spec, references_text, SoleCallerFindings};
use crate::text::{chars_of, copy_string, join, join_spec, owned, push_char, push_str, str_eq, views};
use vstd::prelude::*;

verus! {

/// One namespace reference: line `line` of `file`, inside the namespace
/// `from`, names a type of the namespace `target` (both dotted, the root
/// namespace empty).
#[derive(Debug, Clone)]
pub struct NamespaceEdge {
    pub from: String,
    pub target: String,
    pub file: String,
    pub line: usize,
}

/// The pieces of `s[start..]` split at each `.`, scanning from `p`, as
/// `str::split('.')`.
pub open spec fn dot_split_from(s: Seq<char>, start: int, p: int) -> Seq<Seq<char>>
    decreases s.len() - p,
{
    if p >= s.len() {
        seq![s.subrange(start, s.len() as int)]
    } else if s[p] == '.' {
        seq![s.subrange(start, p)] + dot_split_from(s, p + 1, p + 1)
    } else {
        dot_split_from(s, start, p + 1)
    }
}

/// The segments of a dotted namespace name, as `str::split('.')`; the
/// empty name has one empty segment.
pub open spec fn segments_of(s: Seq<char>) -> Seq<Seq<char>> {
    dot_split_from(s, 0, 0)
}

/// Splitting always yields at least one piece.
proof fn lemma_split_nonempty(s: Seq<char>, start: int, p: int)
    ensures
        dot_split_from(s, start, p).len() >= 1,
    decreases s.len() - p,
{
    if p < s.len() {
        if s[p] == '.' {
            lemma_split_nonempty(s, p + 1, p + 1);
        } else {
            lemma_split_nonempty(s, start, p + 1);
        }
    }
}

/// The dotted spelling of a namespace path.
pub open spec fn dotted(ns: Seq<Seq<char>>) -> Seq<char> {
    join_spec(ns, "."@)
}

/// Edge `e` references the namespace `ns` itself, from outside it.
pub open spec fn counts(ns: Seq<Seq<char>>, e: NamespaceEdge) -> bool {
    e.target@ == dotted(ns) && !starts_with(segments_of(e.from@), ns)
}

/// The caller unit of edge `e`: its namespace cut to the depth of `ns`.
pub open spec fn caller_unit(ns: Seq<Seq<char>>, e: NamespaceEdge) -> Seq<Seq<char>> {
    unit(segments_of(e.from@), ns.len() as int)
}

/// The indices, from `i` on, of the edges that reference `ns` from
/// outside it.
pub open spec fn counting_from(edges: Seq<NamespaceEdge>, ns: Seq<Seq<char>>, i: int) -> Seq<int>
    decreases edges.len() - i,
{
    if i < 0 || i >= edges.len() {
        Seq::empty()
    } else if counts(ns, edges[i]) {
        seq![i] + counting_from(edges, ns, i + 1)
    } else {
        counting_from(edges, ns, i + 1)
    }
}

/// The sole caller unit of `ns`, the index of its first reference, and
/// the number of references, when exactly one caller unit references `ns`
/// from outside.
pub open spec fn sole_caller_spec(edges: Seq<NamespaceEdge>, ns: Seq<Seq<char>>) -> Option<(Seq<Seq<char>>, int, int)> {
    let c = counting_from(edges, ns, 0);
    if c.len() == 0 {
        None
    } else {
        let u = caller_unit(ns, edges[c[0]]);
        if forall|j: int| 0 <= j < c.len() ==> caller_unit(ns, #[trigger] edges[c[j]]) == u {
            Some((u, c[0], c.len() as int))
        } else {
            None
        }
    }
}

/// The namespace `caller` is referenced from outside by exactly one unit
/// at its depth, and that unit is `ns`'s: each is the other's only caller.
pub open spec fn mutual(edges: Seq<NamespaceEdge>, caller: Seq<Seq<char>>, ns: Seq<Seq<char>>) -> bool {
    let c = counting_from(edges, caller, 0);
    &&& c.len() > 0
    &&& forall|j: int| 0 <= j < c.len() ==> caller_unit(caller, #[trigger] edges[c[j]]) == unit(ns, caller.len() as int)
}

/// Some edge targets the nonempty namespace whose segments are `ns`.
pub open spec fn targeted(edges: Seq<NamespaceEdge>, ns: Seq<Seq<char>>) -> bool {
    exists|i: int| 0 <= i < edges.len() && edges[i].target@.len() > 0 && #[trigger] segments_of(edges[i].target@) == ns
}

/// The namespace `ns` gets a suggestion: an edge targets it, and it has a
/// sole caller that is neither its parent nor mutually its own sole
/// caller.
pub open spec fn suggested(edges: Seq<NamespaceEdge>, ns: Seq<Seq<char>>) -> bool {
    &&& targeted(edges, ns)
    &&& sole_caller_spec(edges, ns) matches Some((c, first, n)) && c != ns.take(ns.len() - 1) && !mutual(edges, c, ns)
}

/// The MOD004 message for the namespace `ns` and its sole caller.
pub open spec fn hint_message(ns: Seq<Seq<char>>, caller: Seq<Seq<char>>, count: nat) -> Seq<char> {
    "namespace `"@ + dotted(ns) + "` is referenced only by `"@ + dotted(caller) + "` ("@ + references_spec(count)
        + ").\nWhy:\n- Nesting helpers under their callers lets readers follow call flow\nthrough the file layout.\nSuggestions:\n- Consider nesting `"@
        + dotted(ns) + "` as `"@ + dotted(caller) + "."@ + ns.last()
        + "`, with folders to match.\nUpdate references and preserve behavior and any public API.\n- Keep the current layout if reuse or readability favors it."@
}

/// `d` is the MOD004 hint for the namespace `ns`, as its sole caller
/// decides.
pub open spec fn hint_for(d: Diagnostic, edges: Seq<NamespaceEdge>, ns: Seq<Seq<char>>) -> bool {
    &&& sole_caller_spec(edges, ns) matches Some((caller, first, count))
    &&& d.severity == Severity::Hint
    &&& d.code@ == CODE_MOD004@
    &&& d.title matches Some(t) && t@ == "sole-caller namespace placement"@
    &&& d.message@ == hint_message(ns, caller, count as nat)
    &&& d.line == edges[first].line
    &&& d.item_kind@ == "namespace"@
    &&& d.item_name matches Some(n) && n@ == ns.last()
}

/// The file a hint for `ns` anchors at: that of its caller's first
/// reference.
pub open spec fn anchor_of(edges: Seq<NamespaceEdge>, ns: Seq<Seq<char>>) -> Seq<char> {
    match sole_caller_spec(edges, ns) {
        Some((caller, first, count)) => edges[first].file@,
        None => Seq::empty(),
    }
}

/// The namespaces that get a suggestion.
pub open spec fn suggestions(edges: Seq<NamespaceEdge>) -> spec_fn(Seq<Seq<char>>) -> bool {
    |ns: Seq<Seq<char>>| suggested(edges, ns)
}

/// The anchor file of each namespace's hint.
pub open spec fn anchors(edges: Seq<NamespaceEdge>) -> spec_fn(Seq<Seq<char>>) -> Seq<char> {
    |ns: Seq<Seq<char>>| anchor_of(edges, ns)
}

/// The hint each namespace gets.
pub open spec fn hints(edges: Seq<NamespaceEdge>) -> spec_fn(Diagnostic, Seq<Seq<char>>) -> bool {
    |d: Diagnostic, ns: Seq<Seq<char>>| hint_for(d, edges, ns)
}

/// `ds` holds the hints anchored at `a`: one per suggested namespace whose
/// hint anchors there, in increasing namespace order.
pub open spec fn hinted(ds: Seq<Diagnostic>, edges: Seq<NamespaceEdge>, a: Seq<char>) -> bool {
    sole_caller::hinted(ds, a, suggestions(edges), anchors(edges), hints(edges))
}

/// The segments of a dotted namespace name, as `str::split('.')`.
pub fn dot_segments(name: &str) -> (r: Vec<String>)
    ensures
        views(r@) == segments_of(name@),
{
    let chars = chars_of(name);
    let n = chars.len();
    let mut out: Vec<String> = Vec::new();
    let mut piece = String::new();
    let mut start: usize = 0;
    let mut p: usize = 0;
    assert(piece@ =~= chars@.subrange(0, 0));
    while p < n
        invariant
            n == chars.len(),
            chars@ == name@,
            start <= p <= n,
            piece@ == chars@.subrange(start as int, p as int),
            views(out@) + dot_split_from(chars@, start as int, p as int) == segments_of(chars@),
        decreases n - p,
    {
        if chars[p] == '.' {
            let ghost before = views(out@);
            out.push(piece);
            piece = String::new();
            proof {
                assert(views(out@) =~= before.push(chars@.subrange(start as int, p as int)));
                assert(before + dot_split_from(chars@, start as int, p as int) =~= views(out@) + dot_split_from(
                    chars@,
                    p + 1,
                    p + 1,
                ));
            }
            p += 1;
            start = p;
            assert(piece@ =~= chars@.subrange(start as int, p as int));
        } else {
            push_char(&mut piece, chars[p]);
            assert(piece@ =~= chars@.subrange(start as int, p + 1));
            p += 1;
        }
    }
    let ghost before = views(out@);
    out.push(piece);
    assert(views(out@) =~= before + dot_split_from(chars@, start as int, p as int));
    out
}

/// True when `name` is `namespace` or nested beneath it.
fn is_within(name: &str, namespace: &Vec<String>) -> (r: bool)
    ensures
        r == starts_with(segments_of(name@), views(namespace@)),
{
    let segments = dot_segments(name);
    has_prefix(&segments, namespace)
}

/// Whether edge `i` references `ns` (dotted `name`) from outside, with
/// the caller unit when it does.
fn edge_counts(edges: &Vec<NamespaceEdge>, ns: &Vec<String>, name: &String, i: usize) -> (r: Option<Vec<String>>)
    requires
        i < edges.len(),
        name@ == dotted(views(ns@)),
    ensures
        r is Some <==> counts(views(ns@), edges@[i as int]),
        r matches Some(u) ==> views(u@) == caller_unit(views(ns@), edges@[i as int]),
{
    let edge = &edges[i];
    // Only references whose target is the namespace itself count.
    if !str_eq(edge.target.as_str(), name.as_str()) {
        return None;
    }
    // References from inside the namespace count for no caller.
    if is_within(edge.from.as_str(), ns) {
        return None;
    }
    let from = dot_segments(edge.from.as_str());
    Some(unit_of(&from, ns.len()))
}

/// The sole external caller of `namespace`, if there is exactly one: its
/// unit (the referencing namespace cut to `namespace`'s depth), the index
/// of its first reference, and the number of references.
fn sole_caller(edges: &Vec<NamespaceEdge>, namespace: &Vec<String>) -> (r: Option<(Vec<String>, usize, usize)>)
    ensures
        match r {
            Some((u, first, n)) => sole_caller_spec(edges@, views(namespace@)) == Some((views(u@), first as int, n as int)),
            None => sole_caller_spec(edges@, views(namespace@)) is None,
        },
{
    let ghost ns = views(namespace@);
    let name = join(namespace, ".");
    let mut caller: Option<Vec<String>> = None;
    let mut first: usize = 0;
    let mut count: usize = 0;
    let ghost mut seen: Seq<int> = Seq::empty();
    let mut i: usize = 0;
    while i < edges.len()
        invariant
            ns == views(namespace@),
            name@ == dotted(ns),
            i <= edges.len(),
            seen + counting_from(edges@, ns, i as int) == counting_from(edges@, ns, 0),
            forall|j: int| 0 <= j < seen.len() ==> 0 <= #[trigger] seen[j] < i,
            count == seen.len(),
            count <= i,
            caller is None <==> seen.len() == 0,
            caller matches Some(u) ==> {
                &&& first == seen[0]
                &&& views(u@) == caller_unit(ns, edges@[seen[0]])
                &&& forall|j: int| 0 <= j < seen.len() ==> caller_unit(ns, #[trigger] edges@[seen[j]]) == views(u@)
            },
        decreases edges.len() - i,
    {
        let ghost prev = seen;
        match edge_counts(edges, namespace, &name, i) {
            None => {
                assert(counting_from(edges@, ns, i as int) == counting_from(edges@, ns, i + 1));
            },
            Some(unit) => {
                assert(counting_from(edges@, ns, i as int) == seq![i as int] + counting_from(edges@, ns, i + 1));
                proof {
                    seen = seen.push(i as int);
                    assert(prev + counting_from(edges@, ns, i as int) =~= seen + counting_from(edges@, ns, i + 1));
                }
                match &caller {
                    None => {
                        caller = Some(unit);
                        first = i;
                    },
                    Some(seen_unit) => {
                        if !same_path(seen_unit, &unit) {
                            // Two caller units.
                            proof {
                                let c = counting_from(edges@, ns, 0);
                                assert(c[0] == seen[0]);
                                assert(c[prev.len() as int] == i as int);
                            }
                            return None;
                        }
                    },
                }
                count += 1;
            },
        }
        i += 1;
    }
    assert(counting_from(edges@, ns, i as int) =~= Seq::<int>::empty());
    assert(seen + Seq::<int>::empty() =~= seen);
    match caller {
        Some(u) => Some((u, first, count)),
        None => None,
    }
}

/// True when `caller`'s namespace has exactly one external referencer
/// unit and it is `namespace`'s unit at the caller's depth (a mutual
/// sole-caller pair).
fn sole_external_referencer_is(edges: &Vec<NamespaceEdge>, caller: &Vec<String>, namespace: &Vec<String>) -> (r: bool)
    ensures
        r == mutual(edges@, views(caller@), views(namespace@)),
{
    let ghost cv = views(caller@);
    let name = join(caller, ".");
    let namespace_unit = unit_of(namespace, caller.len());
    let mut any = false;
    let ghost mut seen: Seq<int> = Seq::empty();
    let mut i: usize = 0;
    while i < edges.len()
        invariant
            cv == views(caller@),
            name@ == dotted(cv),
            views(namespace_unit@) == unit(views(namespace@), cv.len() as int),
            i <= edges.len(),
            seen + counting_from(edges@, cv, i as int) == counting_from(edges@, cv, 0),
            any <==> seen.len() > 0,
            forall|j: int| 0 <= j < seen.len() ==> caller_unit(cv, #[trigger] edges@[seen[j]]) == views(namespace_unit@),
        decreases edges.len() - i,
    {
        let ghost prev = seen;
        match edge_counts(edges, caller, &name, i) {
            None => {
                assert(counting_from(edges@, cv, i as int) == counting_from(edges@, cv, i + 1));
            },
            Some(unit) => {
                assert(counting_from(edges@, cv, i as int) == seq![i as int] + counting_from(edges@, cv, i + 1));
                proof {
                    seen = seen.push(i as int);
                    assert(prev + counting_from(edges@, cv, i as int) =~= seen + counting_from(edges@, cv, i + 1));
                }
                if !same_path(&unit, &namespace_unit) {
                    proof {
                        let c = counting_from(edges@, cv, 0);
                        assert(c[prev.len() as int] == i as int);
                    }
                    return false;
                }
                any = true;
            },
        }
        i += 1;
    }
    assert(counting_from(edges@, cv, i as int) =~= Seq::<int>::empty());
    assert(seen + Seq::<int>::empty() =~= seen);
    any
}

/// The counting edges are edges that count.
proof fn lemma_counting_valid(edges: Seq<NamespaceEdge>, ns: Seq<Seq<char>>, i: int)
    requires
        0 <= i,
    ensures
        forall|j: int|
            0 <= j < counting_from(edges, ns, i).len() ==> i <= #[trigger] counting_from(edges, ns, i)[j] < edges.len()
                && counts(ns, edges[counting_from(edges, ns, i)[j]]),
    decreases edges.len() - i,
{
    if i < edges.len() {
        lemma_counting_valid(edges, ns, i + 1);
        let rest = counting_from(edges, ns, i + 1);
        if counts(ns, edges[i]) {
            let all = counting_from(edges, ns, i);
            assert(all == seq![i] + rest);
            assert forall|j: int| 0 <= j < all.len() implies i <= #[trigger] all[j] < edges.len() && counts(
                ns,
                edges[all[j]],
            ) by {
                if j > 0 {
                    assert(all[j] == rest[j - 1]);
                }
            }
        }
    }
}

/// The candidate namespaces: the segments of every nonempty edge target,
/// in increasing order, each once.
fn candidates(edges: &Vec<NamespaceEdge>) -> (r: Vec<Vec<String>>)
    ensures
        strictly_sorted(paths(r@)),
        forall|ns: Seq<Seq<char>>| paths(r@).contains(ns) <==> targeted(edges@, ns),
        forall|j: int| 0 <= j < r.len() ==> (#[trigger] paths(r@)[j]).len() >= 1,
{
    let mut namespaces: Vec<Vec<String>> = Vec::new();
    let mut i: usize = 0;
    while i < edges.len()
        invariant
            i <= edges.len(),
            strictly_sorted(paths(namespaces@)),
            forall|ns: Seq<Seq<char>>|
                paths(namespaces@).contains(ns) <==> exists|e: int|
                    0 <= e < i && edges@[e].target@.len() > 0 && #[trigger] segments_of(edges@[e].target@) == ns,
            forall|j: int| 0 <= j < namespaces.len() ==> (#[trigger] paths(namespaces@)[j]).len() >= 1,
        decreases edges.len() - i,
    {
        let ghost before = paths(namespaces@);
        if !edges[i].target.as_str().is_empty() {
            let segments = dot_segments(edges[i].target.as_str());
            let ghost x = views(segments@);
            proof {
                lemma_split_nonempty(edges@[i as int].target@, 0, 0);
            }
            insert_sorted(&mut namespaces, segments);
            proof {
                let now = paths(namespaces@);
                assert forall|ns: Seq<Seq<char>>|
                    now.contains(ns) <==> exists|e: int|
                        0 <= e < i + 1 && edges@[e].target@.len() > 0 && #[trigger] segments_of(edges@[e].target@) == ns by {
                    if now.contains(ns) && ns == x {
                        assert(0 <= i < i + 1 && edges@[i as int].target@.len() > 0 && segments_of(edges@[i as int].target@) == ns);
                    }
                    if exists|e: int| 0 <= e < i + 1 && edges@[e].target@.len() > 0 && #[trigger] segments_of(edges@[e].target@) == ns {
                        let e = choose|e: int| 0 <= e < i + 1 && edges@[e].target@.len() > 0 && #[trigger] segments_of(edges@[e].target@) == ns;
                        if e < i {
                            assert(before.contains(ns));
                        }
                    }
                }
                assert forall|j: int| 0 <= j < namespaces.len() implies (#[trigger] paths(namespaces@)[j]).len() >= 1 by {
                    let y = now[j];
                    assert(now.contains(y));
                    if before.contains(y) {
                        let q = choose|q: int| 0 <= q < before.len() && before[q] == y;
                        assert(before[q].len() >= 1);
                    }
                }
            }
        } else {
            proof {
                assert forall|ns: Seq<Seq<char>>|
                    before.contains(ns) <==> exists|e: int|
                        0 <= e < i + 1 && edges@[e].target@.len() > 0 && #[trigger] segments_of(edges@[e].target@) == ns by {
                    if exists|e: int| 0 <= e < i + 1 && edges@[e].target@.len() > 0 && #[trigger] segments_of(edges@[e].target@) == ns {
                        let e = choose|e: int| 0 <= e < i + 1 && edges@[e].target@.len() > 0 && #[trigger] segments_of(edges@[e].target@) == ns;
                        assert(e < i);
                    }
                }
            }
        }
        i += 1;
    }
    namespaces
}

/// Build the MOD004 hint for one qualifying namespace.
fn diagnostic(namespace: &Vec<String>, caller: &Vec<String>, first: &NamespaceEdge, count: usize) -> (r: Diagnostic)
    requires
        namespace.len() > 0,
    ensures
        r.severity == Severity::Hint,
        r.code@ == CODE_MOD004@,
        r.title matches Some(t) && t@ == "sole-caller namespace placement"@,
        r.message@ == hint_message(views(namespace@), views(caller@), count as nat),
        r.line == first.line,
        r.item_kind@ == "namespace"@,
        r.item_name matches Some(n) && n@ == views(namespace@).last(),
{
    let name = copy_string(&namespace[namespace.len() - 1]);
    let namespace_path = join(namespace, ".");
    let caller_path = join(caller, ".");
    let mut message = owned("namespace `");
    push_str(&mut message, namespace_path.as_str());
    push_str(&mut message, "` is referenced only by `");
    push_str(&mut message, caller_path.as_str());
    push_str(&mut message, "` (");
    push_str(&mut message, references_text(count).as_str());
    push_str(
        &mut message,
        ").\nWhy:\n- Nesting helpers under their callers lets readers follow call flow\nthrough the file layout.\nSuggestions:\n- Consider nesting `",
    );
    push_str(&mut message, namespace_path.as_str());
    push_str(&mut message, "` as `");
    push_str(&mut message, caller_path.as_str());
    push_str(&mut message, ".");
    push_str(&mut message, name.as_str());
    push_str(
        &mut message,
        "`, with folders to match.\nUpdate references and preserve behavior and any public API.\n- Keep the current layout if reuse or readability favors it.",
    );
    Diagnostic {
        severity: Severity::Hint,
        code: CODE_MOD004,
        title: Some(owned("sole-caller namespace placement")),
        message,
        line: first.line,
        item_kind: owned("namespace"),
        item_name: Some(name),
    }
}

/// Analyze the namespace reference edges of a C# project for sole-caller
/// placement hints. Namespaces are visited in increasing segment order.
///
/// # Returns
///
/// The hints, grouped by anchor file (the caller's file); each file's
/// hints follow increasing namespace order.
pub fn analyze(edges: &Vec<NamespaceEdge>) -> (r: SoleCallerFindings)
    ensures
        forall|a: Seq<char>| #[trigger] hinted(r.anchored(a), edges@, a),
{
    let namespaces = candidates(edges);
    let ghost nv = paths(namespaces@);
    let mut done: Vec<Vec<String>> = Vec::new();
    let mut by_file: Vec<(String, Vec<Diagnostic>)> = Vec::new();
    let mut k: usize = 0;
    while k < namespaces.len()
        invariant
            nv == paths(namespaces@),
            strictly_sorted(nv),
            forall|ns: Seq<Seq<char>>| nv.contains(ns) <==> targeted(edges@, ns),
            forall|j: int| 0 <= j < namespaces.len() ==> (#[trigger] nv[j]).len() >= 1,
            k <= namespaces.len(),
            entries_match(entries_view(by_file@), paths(done@), anchors(edges@), hints(edges@)),
            strictly_sorted(paths(done@)),
            forall|x: Seq<Seq<char>>|
                paths(done@).contains(x) <==> (exists|j: int| 0 <= j < k && #[trigger] nv[j] == x) && suggested(edges@, x),
        decreases namespaces.len() - k,
    {
        let namespace = &namespaces[k];
        let ghost nk = nv[k as int];
        assert(views(namespace@) == nk);
        assert(nv.contains(nk));
        let ghost before_done = paths(done@);
        let ghost before_entries = entries_view(by_file@);
        assert(forall|x: Seq<Seq<char>>|
            #[trigger] before_done.contains(x) <==> (exists|j: int| 0 <= j < k && #[trigger] nv[j] == x) && suggested(
                edges@,
                x,
            ));
        let mut hint: Option<(String, Diagnostic)> = None;
        if let Some((caller, first, count)) = sole_caller(edges, namespace) {
            // Parent-to-child references never flag.
            let parent = unit_of(namespace, namespace.len() - 1);
            assert(unit(nk, nk.len() - 1) == nk.take(nk.len() - 1));
            if !same_path(&caller, &parent) {
                // Mutual sole-caller pairs stay silent.
                if !sole_external_referencer_is(edges, &caller, namespace) {
                    proof {
                        lemma_counting_valid(edges@, nk, 0);
                    }
                    let d = diagnostic(namespace, &caller, &edges[first], count);
                    hint = Some((copy_string(&edges[first].file), d));
                }
            }
        }
        assert(hint is Some <==> suggested(edges@, nk));
        match hint {
            Some((anchor, d)) => {
                let mut one: Vec<Diagnostic> = Vec::new();
                one.push(d);
                by_file.push((anchor, one));
                done.push(unit_of(namespace, namespace.len()));
                proof {
                    assert(unit(nk, nk.len() as int) =~= nk);
                    let nd = paths(done@);
                    assert(nd =~= before_done.push(nk));
                    assert(entries_view(by_file@) =~= before_entries.push(entries_view(by_file@).last()));
                    assert forall|i: int, j: int| 0 <= i < j < nd.len() implies path_lt(#[trigger] nd[i], #[trigger] nd[j]) by {
                        if j == nd.len() - 1 {
                            assert(before_done.contains(nd[i]));
                            let jj = choose|jj: int| 0 <= jj < k && #[trigger] nv[jj] == nd[i];
                            assert(path_lt(nv[jj], nv[k as int]));
                        } else {
                            assert(nd[i] == before_done[i] && nd[j] == before_done[j]);
                        }
                    }
                    assert forall|x: Seq<Seq<char>>|
                        nd.contains(x) <==> (exists|j: int| 0 <= j < k + 1 && #[trigger] nv[j] == x) && suggested(edges@, x) by {
                        if nd.contains(x) {
                            let q = choose|q: int| 0 <= q < nd.len() && nd[q] == x;
                            if q < before_done.len() {
                                assert(before_done[q] == x);
                                assert(before_done.contains(x));
                            } else {
                                assert(nv[k as int] == x);
                            }
                        }
                        if (exists|j: int| 0 <= j < k + 1 && #[trigger] nv[j] == x) && suggested(edges@, x) {
                            let j = choose|j: int| 0 <= j < k + 1 && #[trigger] nv[j] == x;
                            if j < k {
                                assert(before_done.contains(x));
                                let q = choose|q: int| 0 <= q < before_done.len() && before_done[q] == x;
                                assert(nd[q] == x);
                            } else {
                                assert(nd[nd.len() - 1] == x);
                            }
                        }
                    }
                    let ne = entries_view(by_file@);
                    assert forall|q: int| 0 <= q < ne.len() implies {
                        &&& (#[trigger] ne[q]).0 == anchors(edges@)(nd[q])
                        &&& ne[q].1.len() == 1
                        &&& hints(edges@)(ne[q].1[0], nd[q])
                    } by {
                        if q < before_entries.len() {
                            assert(ne[q] == before_entries[q] && nd[q] == before_done[q]);
                        } else {
                            assert(ne[q].1 =~= seq![d]);
                        }
                    }
                }
            },
            None => {
                proof {
                    assert forall|x: Seq<Seq<char>>|
                        before_done.contains(x) <==> (exists|j: int| 0 <= j < k + 1 && #[trigger] nv[j] == x) && suggested(
                            edges@,
                            x,
                        ) by {
                        if (exists|j: int| 0 <= j < k + 1 && #[trigger] nv[j] == x) && suggested(edges@, x) {
                            let j = choose|j: int| 0 <= j < k + 1 && #[trigger] nv[j] == x;
                            if j == k {
                                assert(false);
                            }
                        }
                    }
                }
            },
        }
        k += 1;
    }
    let ghost ems = paths(done@);
    let ghost es = entries_view(by_file@);
    let r = SoleCallerFindings::new(by_file);
    proof {
        assert forall|x: Seq<Seq<char>>| ems.contains(x) <==> suggestions(edges@)(x) by {
            if suggested(edges@, x) {
                assert(nv.contains(x));
                let j = choose|j: int| 0 <= j < nv.len() && nv[j] == x;
                assert(exists|jj: int| 0 <= jj < namespaces.len() && #[trigger] nv[jj] == x);
            }
        }
        assert forall|a: Seq<char>| #[trigger] hinted(r.anchored(a), edges@, a) by {
            sole_caller::lemma_hinted(es, ems, suggestions(edges@), anchors(edges@), hints(edges@), a);
        }
    }
    r
}

/// Mutual sole callers stay silent: when each of two namespaces is the other's
/// sole caller, neither gets a suggestion.
pub proof fn lemma_mutual_pair_is_silent(edges: Seq<NamespaceEdge>, a: Seq<Seq<char>>, b: Seq<Seq<char>>)
    requires
        sole_caller_spec(edges, a) matches Some((c, first, n)) && c == b,
        sole_caller_spec(edges, b) matches Some((c, first, n)) && c == a,
    ensures
        !suggested(edges, a),
        !suggested(edges, b),
{
    let ca = counting_from(edges, a, 0);
    let cb = counting_from(edges, b, 0);
    assert(caller_unit(a, edges[ca[0]]).len() <= a.len());
    assert(caller_unit(b, edges[cb[0]]).len() <= b.len());
    assert(a.take(a.len() as int) =~= a);
    assert(b.take(b.len() as int) =~= b);
    assert(mutual(edges, b, a));
    assert(mutual(edges, a, b));
}

} // verus!
