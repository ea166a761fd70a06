//! `MOD004`: suggest moving a module under its only production caller.
//!
//! When only one part of a crate uses a module, placing that module
//! beneath its caller makes the file layout easier to follow. The rule
//! reads the crate's reference facts, [`CrateReferences`]: each file's
//! module path and the reference edges between files.
//!
//! For every module (the crate root aside):
//!
//! - Take the references to the module or any of its descendants, and
//!   leave out those from within that same subtree.
//! - Group the remaining callers by module subtree, at the depth of the
//!   module under review: a caller spread across files counts once.
//! - Suggest a move when exactly one caller remains, unless the module
//!   already lives directly under it, or the pair is mutual (each is the
//!   other's only caller).
//!
//! A module whose ancestor got a suggestion gets none of its own. The hint
//! anchors at the caller's first reference, in edge order.
use crate::codes::CODE_MOD004;
use crate::diagnostic::{Diagnostic, Severity};
use crate::lex::{
    has_prefix, insert_sorted, lemma_path_irreflexive, lemma_path_total, lemma_prefix_sorts_first, path_lt, paths,
    same_path, starts_with, strictly_sorted, unit, unit_of,
};
use crate::sole_caller::{self, entries_match, entries_view, references_spec, references_text, SoleCallerFindings};
use crate::text::{copy_string, join, join_spec, owned, push_str, str_eq, views};
use vstd::prelude::*;

verus! {

/// One reference: a line of the file `from` names an item of the file
/// `target`.
#[derive(Debug, Clone)]
pub struct ReferenceEdge {
    pub from: String,
    pub target: String,
    pub line: usize,
}

/// The crate facts MOD004 reads: each file with its module path (segments
/// below `crate`), and the reference edges in a deterministic order.
pub struct CrateReferences {
    pub files: Vec<(String, Vec<String>)>,
    pub edges: Vec<ReferenceEdge>,
}

/// The module path of the first file entry named `p`, from entry `i` on.
pub open spec fn segs_from(files: Seq<(String, Vec<String>)>, p: Seq<char>, i: int) -> Option<Seq<Seq<char>>>
    decreases files.len() - i,
{
    if i < 0 || i >= files.len() {
        None
    } else if files[i].0@ == p {
        Some(views(files[i].1@))
    } else {
        segs_from(files, p, i + 1)
    }
}

/// The module path of the file `p`, if the facts name it.
pub open spec fn segs(facts: CrateReferences, p: Seq<char>) -> Option<Seq<Seq<char>>> {
    segs_from(facts.files@, p, 0)
}

/// Edge `e` references the subtree `m` from outside it.
pub open spec fn counts(facts: CrateReferences, m: Seq<Seq<char>>, e: ReferenceEdge) -> bool {
    &&& segs(facts, e.target@) matches Some(t) && starts_with(t, m)
    &&& segs(facts, e.from@) matches Some(f) && !starts_with(f, m)
}

/// The caller unit of edge `e` at the depth of `m`.
pub open spec fn caller_unit(facts: CrateReferences, m: Seq<Seq<char>>, e: ReferenceEdge) -> Seq<Seq<char>> {
    match segs(facts, e.from@) {
        Some(f) => unit(f, m.len() as int),
        None => Seq::empty(),
    }
}

/// The indices, from `i` on, of the edges that reference the subtree `m`
/// from outside it.
pub open spec fn counting_from(facts: CrateReferences, m: Seq<Seq<char>>, i: int) -> Seq<int>
    decreases facts.edges.len() - i,
{
    if i < 0 || i >= facts.edges.len() {
        Seq::empty()
    } else if counts(facts, m, facts.edges@[i]) {
        seq![i] + counting_from(facts, m, i + 1)
    } else {
        counting_from(facts, m, i + 1)
    }
}

/// The sole caller unit of the subtree `m`, the index of its first
/// reference, and the number of references, when exactly one caller unit
/// references `m` from outside.
pub open spec fn sole_caller_spec(facts: CrateReferences, m: Seq<Seq<char>>) -> Option<(Seq<Seq<char>>, int, int)> {
    let c = counting_from(facts, m, 0);
    if c.len() == 0 {
        None
    } else {
        let u = caller_unit(facts, m, facts.edges@[c[0]]);
        if forall|j: int| 0 <= j < c.len() ==> caller_unit(facts, m, #[trigger] facts.edges@[c[j]]) == u {
            Some((u, c[0], c.len() as int))
        } else {
            None
        }
    }
}

/// The subtree `caller` is referenced from outside by exactly one unit at
/// its depth, and that unit is `m`'s: each is the other's only caller.
pub open spec fn mutual(facts: CrateReferences, caller: Seq<Seq<char>>, m: Seq<Seq<char>>) -> bool {
    let c = counting_from(facts, caller, 0);
    &&& c.len() > 0
    &&& forall|j: int|
        0 <= j < c.len() ==> caller_unit(facts, caller, #[trigger] facts.edges@[c[j]]) == unit(m, caller.len() as int)
}

/// The module `m` has a sole caller that is neither its parent nor
/// mutually its own sole caller.
pub open spec fn qualifies(facts: CrateReferences, m: Seq<Seq<char>>) -> bool {
    &&& m.len() > 0
    &&& sole_caller_spec(facts, m) matches Some((c, first, n)) && c != m.take(m.len() - 1) && !mutual(facts, c, m)
}

/// The module `m` gets a suggestion: it qualifies, and no ancestor got one.
pub open spec fn suggested(facts: CrateReferences, m: Seq<Seq<char>>) -> bool
    decreases m.len(), 1int,
{
    qualifies(facts, m) && !ancestor_suggested(facts, m, m.len() - 1)
}

/// Some ancestor of `m` with between 1 and `k` segments got a suggestion.
pub open spec fn ancestor_suggested(facts: CrateReferences, m: Seq<Seq<char>>, k: int) -> bool
    decreases k + 1, 0int,
{
    if k < 1 || k >= m.len() {
        false
    } else {
        suggested(facts, m.take(k)) || ancestor_suggested(facts, m, k - 1)
    }
}

/// An ancestor up to `k` segments long got a suggestion exactly when one
/// of those prefixes did.
proof fn lemma_ancestor_suggested(facts: CrateReferences, m: Seq<Seq<char>>, k: int)
    requires
        k < m.len(),
    ensures
        ancestor_suggested(facts, m, k) <==> exists|kk: int| 1 <= kk <= k && #[trigger] suggested(facts, m.take(kk)),
    decreases k + 1,
{
    if k >= 1 {
        lemma_ancestor_suggested(facts, m, k - 1);
        assert(ancestor_suggested(facts, m, k) == (suggested(facts, m.take(k)) || ancestor_suggested(facts, m, k - 1)));
        if suggested(facts, m.take(k)) {
            assert(1 <= k <= k && suggested(facts, m.take(k)));
        }
        if ancestor_suggested(facts, m, k - 1) {
            let kk = choose|kk: int| 1 <= kk <= k - 1 && #[trigger] suggested(facts, m.take(kk));
            assert(1 <= kk <= k && suggested(facts, m.take(kk)));
        }
        if exists|kk: int| 1 <= kk <= k && #[trigger] suggested(facts, m.take(kk)) {
            let kk = choose|kk: int| 1 <= kk <= k && #[trigger] suggested(facts, m.take(kk));
            if kk < k {
                assert(1 <= kk <= k - 1 && suggested(facts, m.take(kk)));
            }
        }
    }
}

/// The module path of the file `p`.
fn segments_for<'a>(facts: &'a CrateReferences, p: &str) -> (r: Option<&'a Vec<String>>)
    ensures
        r matches Some(v) ==> segs(*facts, p@) == Some(views(v@)),
        r is None ==> segs(*facts, p@) is None,
{
    let mut i: usize = 0;
    while i < facts.files.len()
        invariant
            i <= facts.files.len(),
            segs(*facts, p@) == segs_from(facts.files@, p@, i as int),
        decreases facts.files.len() - i,
    {
        if str_eq(facts.files[i].0.as_str(), p) {
            return Some(&facts.files[i].1);
        }
        i += 1;
    }
    None
}

/// The subtree-counting predicate for edge `i`, with the caller unit.
fn edge_counts(facts: &CrateReferences, m: &Vec<String>, i: usize) -> (r: Option<Vec<String>>)
    requires
        i < facts.edges.len(),
    ensures
        r is Some <==> counts(*facts, views(m@), facts.edges@[i as int]),
        r matches Some(u) ==> views(u@) == caller_unit(*facts, views(m@), facts.edges@[i as int]),
{
    let e = &facts.edges[i];
    let t = match segments_for(facts, e.target.as_str()) {
        Some(t) => t,
        None => return None,
    };
    if !has_prefix(t, m) {
        return None;
    }
    let f = match segments_for(facts, e.from.as_str()) {
        Some(f) => f,
        None => return None,
    };
    if has_prefix(f, m) {
        return None;
    }
    Some(unit_of(f, m.len()))
}

/// The sole caller unit of the subtree `m`, the index of its first
/// reference, and the number of references, when exactly one caller unit
/// references `m` from outside.
fn sole_caller(facts: &CrateReferences, m: &Vec<String>) -> (r: Option<(Vec<String>, usize, usize)>)
    ensures
        match r {
            Some((u, first, n)) => sole_caller_spec(*facts, views(m@)) == Some((views(u@), first as int, n as int)),
            None => sole_caller_spec(*facts, views(m@)) is None,
        },
{
    let ghost mv = views(m@);
    let mut caller: Option<Vec<String>> = None;
    let mut first: usize = 0;
    let mut count: usize = 0;
    let ghost mut seen: Seq<int> = Seq::empty();
    let mut i: usize = 0;
    while i < facts.edges.len()
        invariant
            mv == views(m@),
            i <= facts.edges.len(),
            seen + counting_from(*facts, mv, i as int) == counting_from(*facts, mv, 0),
            forall|j: int| 0 <= j < seen.len() ==> 0 <= #[trigger] seen[j] < i,
            count == seen.len(),
            count <= i,
            caller is None <==> seen.len() == 0,
            caller matches Some(u) ==> {
                &&& first == seen[0]
                &&& views(u@) == caller_unit(*facts, mv, facts.edges@[seen[0]])
                &&& forall|j: int|
                    0 <= j < seen.len() ==> caller_unit(*facts, mv, #[trigger] facts.edges@[seen[j]]) == views(u@)
            },
        decreases facts.edges.len() - i,
    {
        let ghost prev = seen;
        match edge_counts(facts, m, i) {
            None => {
                assert(counting_from(*facts, mv, i as int) == counting_from(*facts, mv, i + 1));
            },
            Some(u) => {
                assert(counting_from(*facts, mv, i as int) == seq![i as int] + counting_from(*facts, mv, i + 1));
                proof {
                    seen = seen.push(i as int);
                    assert(prev + counting_from(*facts, mv, i as int) =~= seen + counting_from(*facts, mv, i + 1));
                }
                match &caller {
                    None => {
                        caller = Some(u);
                        first = i;
                    },
                    Some(seen_unit) => {
                        if !same_path(seen_unit, &u) {
                            proof {
                                let c = counting_from(*facts, mv, 0);
                                assert(c[0] == seen[0]);
                                assert(c[prev.len() as int] == i as int);
                            }
                            return None;
                        }
                    },
                }
                count += 1;
            },
        }
        i += 1;
    }
    assert(counting_from(*facts, mv, i as int) =~= Seq::<int>::empty());
    assert(seen + Seq::<int>::empty() =~= seen);
    match caller {
        Some(u) => Some((u, first, count)),
        None => None,
    }
}

/// True when the subtree `caller` has exactly one external referencer
/// unit at its depth and it is `m`'s (a mutual sole-caller pair).
fn sole_external_referencer_is(facts: &CrateReferences, caller: &Vec<String>, m: &Vec<String>) -> (r: bool)
    ensures
        r == mutual(*facts, views(caller@), views(m@)),
{
    let ghost cv = views(caller@);
    let target = unit_of(m, caller.len());
    let mut any = false;
    let ghost mut seen: Seq<int> = Seq::empty();
    let mut i: usize = 0;
    while i < facts.edges.len()
        invariant
            cv == views(caller@),
            views(target@) == unit(views(m@), cv.len() as int),
            i <= facts.edges.len(),
            seen + counting_from(*facts, cv, i as int) == counting_from(*facts, cv, 0),
            any <==> seen.len() > 0,
            forall|j: int|
                0 <= j < seen.len() ==> caller_unit(*facts, cv, #[trigger] facts.edges@[seen[j]]) == views(target@),
        decreases facts.edges.len() - i,
    {
        let ghost prev = seen;
        match edge_counts(facts, caller, i) {
            None => {
                assert(counting_from(*facts, cv, i as int) == counting_from(*facts, cv, i + 1));
            },
            Some(u) => {
                assert(counting_from(*facts, cv, i as int) == seq![i as int] + counting_from(*facts, cv, i + 1));
                proof {
                    seen = seen.push(i as int);
                    assert(prev + counting_from(*facts, cv, i as int) =~= seen + counting_from(*facts, cv, i + 1));
                }
                if !same_path(&u, &target) {
                    proof {
                        let c = counting_from(*facts, cv, 0);
                        assert(c[prev.len() as int] == i as int);
                    }
                    return false;
                }
                any = true;
            },
        }
        i += 1;
    }
    assert(counting_from(*facts, cv, i as int) =~= Seq::<int>::empty());
    assert(seen + Seq::<int>::empty() =~= seen);
    any
}

/// The `crate::`-joined spelling of a module path; the root is `crate`.
pub open spec fn crate_path_spec(segments: Seq<Seq<char>>) -> Seq<char> {
    if segments.len() == 0 {
        "crate"@
    } else {
        "crate::"@ + join_spec(segments, "::"@)
    }
}

/// The MOD004 message for the module `m` and its sole caller `caller`.
pub open spec fn hint_message(m: Seq<Seq<char>>, caller: Seq<Seq<char>>, count: nat) -> Seq<char> {
    let name = m.last();
    "module `"@ + crate_path_spec(m) + "` is referenced only by `"@ + crate_path_spec(caller) + "` ("@
        + references_spec(count)
        + ").\nWhy:\n- Nesting code under its caller makes call flow easier to follow.\nSuggestions:\n- Consider moving `"@
        + name + "` to `"@ + crate_path_spec(caller) + "::"@ + name
        + "`.\nUpdate references; preserve behavior and public APIs.\n- Keep the current layout if it better supports reuse or readability."@
}

/// `d` is the MOD004 hint for the module `m`, as its sole caller decides.
pub open spec fn hint_for(d: Diagnostic, facts: CrateReferences, m: Seq<Seq<char>>) -> bool {
    &&& sole_caller_spec(facts, m) matches Some((caller, first, count))
    &&& d.severity == Severity::Hint
    &&& d.code@ == CODE_MOD004@
    &&& d.title matches Some(t) && t@ == "sole-caller module placement"@
    &&& d.message@ == hint_message(m, caller, count as nat)
    &&& d.line == facts.edges@[first].line
    &&& d.item_kind@ == "mod"@
    &&& d.item_name matches Some(n) && n@ == m.last()
}

/// The file a hint for `m` anchors at: that of its caller's first
/// reference.
pub open spec fn anchor_of(facts: CrateReferences, m: Seq<Seq<char>>) -> Seq<char> {
    match sole_caller_spec(facts, m) {
        Some((caller, first, count)) => facts.edges@[first].from@,
        None => Seq::empty(),
    }
}

/// The `crate::`-joined spelling of a module path.
fn crate_path(segments: &Vec<String>) -> (r: String)
    ensures
        r@ == crate_path_spec(views(segments@)),
{
    if segments.len() == 0 {
        owned("crate")
    } else {
        let mut out = owned("crate::");
        let joined = join(segments, "::");
        push_str(&mut out, joined.as_str());
        out
    }
}

/// Build the MOD004 hint for one qualifying module.
fn diagnostic(module: &Vec<String>, caller: &Vec<String>, first: &ReferenceEdge, count: usize) -> (r: Diagnostic)
    requires
        module.len() > 0,
    ensures
        r.severity == Severity::Hint,
        r.code@ == CODE_MOD004@,
        r.title matches Some(t) && t@ == "sole-caller module placement"@,
        r.message@ == hint_message(views(module@), views(caller@), count as nat),
        r.line == first.line,
        r.item_kind@ == "mod"@,
        r.item_name matches Some(n) && n@ == views(module@).last(),
{
    let name = copy_string(&module[module.len() - 1]);
    let module_spelled = crate_path(module);
    let caller_path = crate_path(caller);
    let mut message = owned("module `");
    push_str(&mut message, module_spelled.as_str());
    push_str(&mut message, "` is referenced only by `");
    push_str(&mut message, caller_path.as_str());
    push_str(&mut message, "` (");
    push_str(&mut message, references_text(count).as_str());
    push_str(
        &mut message,
        ").\nWhy:\n- Nesting code under its caller makes call flow easier to follow.\nSuggestions:\n- Consider moving `",
    );
    push_str(&mut message, name.as_str());
    push_str(&mut message, "` to `");
    push_str(&mut message, caller_path.as_str());
    push_str(&mut message, "::");
    push_str(&mut message, name.as_str());
    push_str(
        &mut message,
        "`.\nUpdate references; preserve behavior and public APIs.\n- Keep the current layout if it better supports reuse or readability.",
    );
    Diagnostic {
        severity: Severity::Hint,
        code: CODE_MOD004,
        title: Some(owned("sole-caller module placement")),
        message,
        line: first.line,
        item_kind: owned("mod"),
        item_name: Some(name),
    }
}

/// The modules that get a suggestion.
pub open spec fn suggestions(facts: CrateReferences) -> spec_fn(Seq<Seq<char>>) -> bool {
    |m: Seq<Seq<char>>| suggested(facts, m)
}

/// The anchor file of each module's hint.
pub open spec fn anchors(facts: CrateReferences) -> spec_fn(Seq<Seq<char>>) -> Seq<char> {
    |m: Seq<Seq<char>>| anchor_of(facts, m)
}

/// The hint each module gets.
pub open spec fn hints(facts: CrateReferences) -> spec_fn(Diagnostic, Seq<Seq<char>>) -> bool {
    |d: Diagnostic, m: Seq<Seq<char>>| hint_for(d, facts, m)
}

/// `ds` holds the hints anchored at `a`: one per suggested module whose
/// hint anchors there, in increasing module order.
pub open spec fn hinted(ds: Seq<Diagnostic>, facts: CrateReferences, a: Seq<char>) -> bool {
    sole_caller::hinted(ds, a, suggestions(facts), anchors(facts), hints(facts))
}

/// The counting edges are edges that count.
proof fn lemma_counting_valid(facts: CrateReferences, m: Seq<Seq<char>>, i: int)
    requires
        0 <= i,
    ensures
        forall|j: int|
            0 <= j < counting_from(facts, m, i).len() ==> i <= #[trigger] counting_from(facts, m, i)[j] < facts.edges.len()
                && counts(facts, m, facts.edges@[counting_from(facts, m, i)[j]]),
    decreases facts.edges.len() - i,
{
    if i < facts.edges.len() {
        lemma_counting_valid(facts, m, i + 1);
        let rest = counting_from(facts, m, i + 1);
        if counts(facts, m, facts.edges@[i]) {
            let all = counting_from(facts, m, i);
            assert(all == seq![i] + rest);
            assert forall|j: int| 0 <= j < all.len() implies i <= #[trigger] all[j] < facts.edges.len() && counts(
                facts,
                m,
                facts.edges@[all[j]],
            ) by {
                if j > 0 {
                    assert(all[j] == rest[j - 1]);
                }
            }
        }
    }
}

/// Every nonempty prefix of the module path `t` is among `ps`.
pub open spec fn holds_prefixes(ps: Seq<Seq<Seq<char>>>, t: Seq<Seq<char>>) -> bool {
    forall|d: int| 1 <= d <= t.len() ==> ps.contains(#[trigger] t.take(d))
}

/// The candidate modules: every nonempty prefix of a referenced file's
/// module path, in increasing order, each once.
fn candidates(facts: &CrateReferences) -> (mods: Vec<Vec<String>>)
    ensures
        strictly_sorted(paths(mods@)),
        forall|j: int| 0 <= j < mods.len() ==> (#[trigger] paths(mods@)[j]).len() > 0,
        forall|m: Seq<Seq<char>>| qualifies(*facts, m) ==> paths(mods@).contains(m),
{
    let mut mods: Vec<Vec<String>> = Vec::new();
    let mut i: usize = 0;
    while i < facts.edges.len()
        invariant
            i <= facts.edges.len(),
            strictly_sorted(paths(mods@)),
            forall|j: int| 0 <= j < mods.len() ==> (#[trigger] paths(mods@)[j]).len() > 0,
            forall|e: int|
                0 <= e < i ==> (segs(*facts, (#[trigger] facts.edges@[e]).target@) matches Some(t) ==> holds_prefixes(
                    paths(mods@),
                    t,
                )),
        decreases facts.edges.len() - i,
    {
        if let Some(t) = segments_for(facts, facts.edges[i].target.as_str()) {
            let ghost tv = views(t@);
            let mut d: usize = 0;
            while d < t.len()
                invariant
                    tv == views(t@),
                    d <= t.len(),
                    strictly_sorted(paths(mods@)),
                    forall|j: int| 0 <= j < mods.len() ==> (#[trigger] paths(mods@)[j]).len() > 0,
                    forall|e: int|
                        0 <= e < i ==> (segs(*facts, (#[trigger] facts.edges@[e]).target@) matches Some(t) ==> holds_prefixes(
                            paths(mods@),
                            t,
                        )),
                    forall|dd: int| 1 <= dd <= d ==> paths(mods@).contains(#[trigger] tv.take(dd)),
                decreases t.len() - d,
            {
                let ghost before = paths(mods@);
                let x = unit_of(t, d + 1);
                assert(views(x@) == tv.take(d + 1));
                insert_sorted(&mut mods, x);
                proof {
                    assert forall|j: int| 0 <= j < mods.len() implies (#[trigger] paths(mods@)[j]).len() > 0 by {
                        let y = paths(mods@)[j];
                        assert(paths(mods@).contains(y));
                        if before.contains(y) {
                            let q = choose|q: int| 0 <= q < before.len() && before[q] == y;
                            assert(before[q].len() > 0);
                        }
                    }
                    assert forall|e: int|
                        0 <= e < i implies (segs(*facts, (#[trigger] facts.edges@[e]).target@) matches Some(t) ==> holds_prefixes(
                            paths(mods@),
                            t,
                        )) by {
                        if let Some(tt) = segs(*facts, facts.edges@[e].target@) {
                            assert forall|dd: int| 1 <= dd <= tt.len() implies paths(mods@).contains(#[trigger] tt.take(dd)) by {
                                assert(before.contains(tt.take(dd)));
                            }
                        }
                    }
                    assert forall|dd: int| 1 <= dd <= d + 1 implies paths(mods@).contains(#[trigger] tv.take(dd)) by {
                        if dd <= d {
                            assert(before.contains(tv.take(dd)));
                        }
                    }
                }
                d += 1;
            }
            proof {
                assert(holds_prefixes(paths(mods@), tv));
            }
        }
        i += 1;
    }
    proof {
        assert forall|m: Seq<Seq<char>>| qualifies(*facts, m) implies paths(mods@).contains(m) by {
            let c = counting_from(*facts, m, 0);
            lemma_counting_valid(*facts, m, 0);
            let e = c[0];
            assert(counts(*facts, m, facts.edges@[e]));
            let t = segs(*facts, facts.edges@[e].target@)->Some_0;
            assert(holds_prefixes(paths(mods@), t));
            assert(t.take(m.len() as int) == m);
        }
    }
    mods
}

/// True when some path of `done` is a prefix of `m`.
fn covered_by(done: &Vec<Vec<String>>, m: &Vec<String>) -> (r: bool)
    ensures
        r == exists|q: int| 0 <= q < done.len() && starts_with(views(m@), #[trigger] paths(done@)[q]),
{
    let mut q: usize = 0;
    while q < done.len()
        invariant
            q <= done.len(),
            forall|j: int| 0 <= j < q ==> !starts_with(views(m@), #[trigger] paths(done@)[j]),
        decreases done.len() - q,
    {
        if has_prefix(m, &done[q]) {
            assert(paths(done@)[q as int] == views(done@[q as int]@));
            return true;
        }
        q += 1;
    }
    false
}

/// Among the modules before `mv[k]`, a suggested one is a prefix of
/// `mv[k]` exactly when some proper prefix of `mv[k]` is suggested.
proof fn lemma_covered_iff_ancestor(facts: CrateReferences, mv: Seq<Seq<Seq<char>>>, k: int, before_done: Seq<Seq<Seq<char>>>)
    requires
        strictly_sorted(mv),
        0 <= k < mv.len(),
        forall|m: Seq<Seq<char>>| qualifies(facts, m) ==> mv.contains(m),
        forall|x: Seq<Seq<char>>|
            #[trigger] before_done.contains(x) <==> (exists|j: int| 0 <= j < k && #[trigger] mv[j] == x) && suggested(
                facts,
                x,
            ),
    ensures
        (exists|q: int| 0 <= q < before_done.len() && starts_with(mv[k], #[trigger] before_done[q])) <==> (exists|kk: int|
            1 <= kk < mv[k].len() && #[trigger] suggested(facts, mv[k].take(kk))),
{
    let mk = mv[k];
    let covered = exists|q: int| 0 <= q < before_done.len() && starts_with(mk, #[trigger] before_done[q]);
    let ancestor = exists|kk: int| 1 <= kk < mk.len() && #[trigger] suggested(facts, mk.take(kk));
    if covered {
        let q = choose|q: int| 0 <= q < before_done.len() && starts_with(mk, #[trigger] before_done[q]);
        let e = before_done[q];
        assert(before_done.contains(e));
        let j = choose|j: int| 0 <= j < k && #[trigger] mv[j] == e;
        assert(path_lt(mv[j], mv[k]));
        assert(qualifies(facts, e));
        if e.len() == mk.len() {
            assert(mk.take(e.len() as int) =~= mk);
            lemma_path_irreflexive(mk);
        }
        assert(mk.take(e.len() as int) == e);
        assert(suggested(facts, mk.take(e.len() as int)));
    }
    if ancestor {
        let kk = choose|kk: int| 1 <= kk < mk.len() && #[trigger] suggested(facts, mk.take(kk));
        let p = mk.take(kk);
        assert(qualifies(facts, p));
        assert(mv.contains(p));
        let j = choose|j: int| 0 <= j < mv.len() && mv[j] == p;
        lemma_prefix_sorts_first(p, mk);
        if j >= k {
            if j > k {
                assert(path_lt(mv[k], mv[j]));
            }
            lemma_path_total(p, mk);
            lemma_path_irreflexive(mk);
        }
        assert(exists|jj: int| 0 <= jj < k && #[trigger] mv[jj] == p);
        assert(before_done.contains(p));
        let q = choose|q: int| 0 <= q < before_done.len() && before_done[q] == p;
        assert(starts_with(mk, before_done[q]));
    }
}

/// Analyze one crate's reference facts for sole-caller module placement
/// hints. Modules are visited in increasing path order, and only the
/// outermost qualifying subtree gets a hint.
///
/// # Returns
///
/// The hints, grouped by anchor file (the caller's file); each file's
/// hints follow increasing module order.
pub fn analyze(facts: &CrateReferences) -> (r: SoleCallerFindings)
    ensures
        forall|a: Seq<char>| #[trigger] hinted(r.anchored(a), *facts, a),
{
    let mods = candidates(facts);
    let ghost mv = paths(mods@);
    let mut done: Vec<Vec<String>> = Vec::new();
    let mut pairs: Vec<(String, Vec<Diagnostic>)> = Vec::new();
    let mut k: usize = 0;
    while k < mods.len()
        invariant
            mv == paths(mods@),
            strictly_sorted(mv),
            forall|j: int| 0 <= j < mods.len() ==> (#[trigger] mv[j]).len() > 0,
            forall|m: Seq<Seq<char>>| qualifies(*facts, m) ==> mv.contains(m),
            k <= mods.len(),
            entries_match(entries_view(pairs@), paths(done@), anchors(*facts), hints(*facts)),
            strictly_sorted(paths(done@)),
            forall|x: Seq<Seq<char>>|
                paths(done@).contains(x) <==> (exists|j: int| 0 <= j < k && #[trigger] mv[j] == x) && suggested(*facts, x),
        decreases mods.len() - k,
    {
        let m = &mods[k];
        let ghost mk = mv[k as int];
        assert(views(m@) == mk);
        let ghost before_done = paths(done@);
        let ghost before_entries = entries_view(pairs@);
        assert(forall|x: Seq<Seq<char>>|
            #[trigger] before_done.contains(x) <==> (exists|j: int| 0 <= j < k && #[trigger] mv[j] == x) && suggested(
                *facts,
                x,
            ));
        let mut emit = false;
        let mut hint: Option<Diagnostic> = None;
        let mut anchor: Option<String> = None;
        match sole_caller(facts, m) {
            None => {},
            Some((caller, first, count)) => {
                let parent = unit_of(m, m.len() - 1);
                assert(unit(mk, mk.len() - 1) == mk.take(mk.len() - 1));
                let is_parent = same_path(&caller, &parent);
                let is_mutual = sole_external_referencer_is(facts, &caller, m);
                let is_covered = covered_by(&done, m);
                proof {
                    assert(qualifies(*facts, mk) == (!is_parent && !is_mutual));
                    lemma_covered_iff_ancestor(*facts, mv, k as int, before_done);
                    assert(before_done == paths(done@));
                    if is_covered {
                        let q = choose|q: int| 0 <= q < done.len() && starts_with(views(m@), #[trigger] paths(done@)[q]);
                        assert(starts_with(mk, before_done[q]));
                    }
                    if exists|q: int| 0 <= q < before_done.len() && starts_with(mk, #[trigger] before_done[q]) {
                        let q = choose|q: int| 0 <= q < before_done.len() && starts_with(mk, #[trigger] before_done[q]);
                        assert(starts_with(views(m@), paths(done@)[q]));
                    }
                    lemma_ancestor_suggested(*facts, mk, mk.len() - 1);
                    let ghost anc = exists|kk: int| 1 <= kk < mk.len() && #[trigger] suggested(*facts, mk.take(kk));
                    assert(is_covered == anc);
                    if suggested(*facts, mk) {
                        assert(qualifies(*facts, mk));
                        if anc {
                            let kk = choose|kk: int| 1 <= kk < mk.len() && #[trigger] suggested(*facts, mk.take(kk));
                            assert(!suggested(*facts, mk.take(kk)));
                        }
                    }
                    if qualifies(*facts, mk) && !anc {
                        assert forall|kk: int| 1 <= kk < mk.len() implies !#[trigger] suggested(*facts, mk.take(kk)) by {
                        }
                        assert(suggested(*facts, mk));
                    }
                    assert(suggested(*facts, mk) == (qualifies(*facts, mk) && !is_covered));
                }
                if !is_parent && !is_mutual && !is_covered {
                    proof {
                        lemma_counting_valid(*facts, mk, 0);
                    }
                    emit = true;
                    hint = Some(diagnostic(m, &caller, &facts.edges[first], count));
                    anchor = Some(copy_string(&facts.edges[first].from));
                }
            },
        }
        proof {
            if sole_caller_spec(*facts, mk) is None {
                assert(!qualifies(*facts, mk));
            }
            assert(emit == suggested(*facts, mk));
            assert(emit ==> hint is Some && anchor is Some);
        }
        if emit {
            let d = match hint {
                Some(d) => d,
                None => {
                    return SoleCallerFindings::empty();
                },
            };
            let a = match anchor {
                Some(a) => a,
                None => {
                    return SoleCallerFindings::empty();
                },
            };
            let mut one: Vec<Diagnostic> = Vec::new();
            one.push(d);
            pairs.push((a, one));
            done.push(unit_of(m, m.len()));
            proof {
                assert(unit(mk, mk.len() as int) =~= mk);
                let nd = paths(done@);
                assert(nd =~= before_done.push(mk));
                assert(entries_view(pairs@) =~= before_entries.push(entries_view(pairs@).last()));
                assert forall|i: int, j: int| 0 <= i < j < nd.len() implies path_lt(#[trigger] nd[i], #[trigger] nd[j]) by {
                    if j == nd.len() - 1 {
                        assert(before_done.contains(nd[i]));
                        let jj = choose|jj: int| 0 <= jj < k && #[trigger] mv[jj] == nd[i];
                        assert(path_lt(mv[jj], mv[k as int]));
                    } else {
                        assert(nd[i] == before_done[i] && nd[j] == before_done[j]);
                    }
                }
                assert forall|x: Seq<Seq<char>>|
                    nd.contains(x) <==> (exists|j: int| 0 <= j < k + 1 && #[trigger] mv[j] == x) && suggested(*facts, x) by {
                    if nd.contains(x) {
                        let q = choose|q: int| 0 <= q < nd.len() && nd[q] == x;
                        if q < before_done.len() {
                            assert(before_done[q] == x);
                            assert(before_done.contains(x));
                        } else {
                            assert(mv[k as int] == x);
                        }
                    }
                    if (exists|j: int| 0 <= j < k + 1 && #[trigger] mv[j] == x) && suggested(*facts, x) {
                        let j = choose|j: int| 0 <= j < k + 1 && #[trigger] mv[j] == x;
                        if j < k {
                            assert(before_done.contains(x));
                            let q = choose|q: int| 0 <= q < before_done.len() && before_done[q] == x;
                            assert(nd[q] == x);
                        } else {
                            assert(nd[nd.len() - 1] == x);
                        }
                    }
                }
                let ne = entries_view(pairs@);
                assert forall|q: int| 0 <= q < ne.len() implies {
                    &&& (#[trigger] ne[q]).0 == anchor_of(*facts, nd[q])
                    &&& ne[q].1.len() == 1
                    &&& hint_for(ne[q].1[0], *facts, nd[q])
                } by {
                    if q < before_entries.len() {
                        assert(ne[q] == before_entries[q] && nd[q] == before_done[q]);
                    } else {
                        assert(ne[q].1 =~= seq![d]);
                    }
                }
            }
        } else {
            proof {
                assert forall|x: Seq<Seq<char>>|
                    before_done.contains(x) <==> (exists|j: int| 0 <= j < k + 1 && #[trigger] mv[j] == x) && suggested(
                        *facts,
                        x,
                    ) by {
                    if (exists|j: int| 0 <= j < k + 1 && #[trigger] mv[j] == x) && suggested(*facts, x) {
                        let j = choose|j: int| 0 <= j < k + 1 && #[trigger] mv[j] == x;
                        if j == k {
                            assert(false);
                        }
                    }
                }
            }
        }
        k += 1;
    }
    let ghost ems = paths(done@);
    let ghost es = entries_view(pairs@);
    let r = SoleCallerFindings::new(pairs);
    proof {
        assert forall|x: Seq<Seq<char>>| ems.contains(x) <==> suggestions(*facts)(x) by {
            if suggested(*facts, x) {
                assert(qualifies(*facts, x));
                assert(mv.contains(x));
                let j = choose|j: int| 0 <= j < mv.len() && mv[j] == x;
                assert(exists|jj: int| 0 <= jj < mods.len() && #[trigger] mv[jj] == x);
            }
        }
        assert forall|a: Seq<char>| #[trigger] hinted(r.anchored(a), *facts, a) by {
            sole_caller::lemma_hinted(es, ems, suggestions(*facts), anchors(*facts), hints(*facts), a);
        }
    }
    r
}

/// Mutual sole callers stay silent: when each of two modules is the other's
/// sole caller, neither gets a suggestion.
pub proof fn lemma_mutual_pair_is_silent(facts: CrateReferences, a: Seq<Seq<char>>, b: Seq<Seq<char>>)
    requires
        sole_caller_spec(facts, a) matches Some((c, first, n)) && c == b,
        sole_caller_spec(facts, b) matches Some((c, first, n)) && c == a,
    ensures
        !suggested(facts, a),
        !suggested(facts, b),
{
    let ca = counting_from(facts, a, 0);
    let cb = counting_from(facts, b, 0);
    assert(caller_unit(facts, a, facts.edges@[ca[0]]).len() <= a.len());
    assert(caller_unit(facts, b, facts.edges@[cb[0]]).len() <= b.len());
    assert(a.take(a.len() as int) =~= a);
    assert(b.take(b.len() as int) =~= b);
    assert(mutual(facts, b, a));
    assert(mutual(facts, a, b));
}

} // verus!
