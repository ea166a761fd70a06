//! The scope data model of the qualified-path rule and its queries.
//!
//! A [`ScopeFrame`] holds the imports and names one lexical scope binds.
//! The queries decide whether a short name is mentioned or shadowed, which
//! import covers a path, and whether a path's root is explicit.
use crate::text::{str_eq, strings_eq, strings_start_with, views};
use vstd::prelude::*;

verus! {

/// One explicit `use` import: the full imported path and the name it binds
/// (the alias for `use a::b::C as D`).
pub struct Import {
    pub segments: Vec<String>,
    pub short: String,
}

/// One name a scope binds. `start == 0` marks an item, visible throughout
/// its scope; any other `start` is the byte offset a local counts from.
pub struct Binding {
    pub name: String,
    pub start: usize,
}

/// The imports and names one lexical scope introduces.
pub struct ScopeFrame {
    pub imports: Vec<Import>,
    pub bindings: Vec<Binding>,
    /// Explicit external crate names visible throughout this scope.
    pub external_crates: Vec<String>,
    /// A glob import may bring a relative module named like a known root.
    pub has_glob: bool,
    /// Module boundaries stop lexical lookup of external crate declarations.
    pub module_scope: bool,
}

impl ScopeFrame {
    /// An empty frame.
    pub fn new(module_scope: bool) -> (r: ScopeFrame)
        ensures
            r.imports.len() == 0,
            r.bindings.len() == 0,
            r.external_crates.len() == 0,
            !r.has_glob,
            r.module_scope == module_scope,
    {
        ScopeFrame {
            imports: Vec::new(),
            bindings: Vec::new(),
            external_crates: Vec::new(),
            has_glob: false,
            module_scope,
        }
    }
}

/// `b` binds `name` at byte offset `at`: an item anywhere, a local from its
/// position onward.
pub open spec fn binding_visible(b: Binding, name: Seq<char>, at: usize) -> bool {
    b.name@ == name && (b.start == 0 || b.start <= at)
}

/// `frame` binds `short` at `at`: an import of that name, or a visible binding.
pub open spec fn mentions(frame: ScopeFrame, short: Seq<char>, at: usize) -> bool {
    ||| exists|k: int| 0 <= k < frame.imports.len() && (#[trigger] frame.imports[k]).short@ == short
    ||| exists|k: int| 0 <= k < frame.bindings.len() && binding_visible(#[trigger] frame.bindings[k], short, at)
}

/// `frame` binds `short` to something other than `segments`: a visible
/// binding, or an import of a different path under the same name.
pub open spec fn shadows(frame: ScopeFrame, short: Seq<char>, segments: Seq<Seq<char>>, at: usize) -> bool {
    ||| exists|k: int| 0 <= k < frame.bindings.len() && binding_visible(#[trigger] frame.bindings[k], short, at)
    ||| exists|k: int|
        0 <= k < frame.imports.len() && (#[trigger] frame.imports[k]).short@ == short && views(
            frame.imports[k].segments@,
        ) != segments
}

/// True when some binding of `frame` names `short` visibly at `at`.
fn binds(frame: &ScopeFrame, short: &str, at: usize) -> (r: bool)
    ensures
        r == exists|k: int| 0 <= k < frame.bindings.len() && binding_visible(#[trigger] frame.bindings[k], short@, at),
{
    let n = frame.bindings.len();
    let mut k: usize = 0;
    while k < n
        invariant
            n == frame.bindings.len(),
            k <= n,
            forall|j: int| 0 <= j < k ==> !binding_visible(#[trigger] frame.bindings[j], short@, at),
        decreases n - k,
    {
        let b = &frame.bindings[k];
        if str_eq(b.name.as_str(), short) && (b.start == 0 || b.start <= at) {
            assert(binding_visible(frame.bindings[k as int], short@, at));
            return true;
        }
        k += 1;
    }
    false
}

/// True when `frame` mentions `short` at `at`.
pub fn frame_mentions(frame: &ScopeFrame, short: &str, at: usize) -> (r: bool)
    ensures
        r == mentions(*frame, short@, at),
{
    let n = frame.imports.len();
    let mut k: usize = 0;
    while k < n
        invariant
            n == frame.imports.len(),
            k <= n,
            forall|j: int| 0 <= j < k ==> (#[trigger] frame.imports[j]).short@ != short@,
        decreases n - k,
    {
        if str_eq(frame.imports[k].short.as_str(), short) {
            assert(frame.imports[k as int].short@ == short@);
            return true;
        }
        k += 1;
    }
    binds(frame, short, at)
}

/// True when `frame` shadows or makes ambiguous an import of `segments`
/// under `short`.
pub fn frame_shadows(frame: &ScopeFrame, short: &str, segments: &Vec<String>, at: usize) -> (r: bool)
    ensures
        r == shadows(*frame, short@, views(segments@), at),
{
    if binds(frame, short, at) {
        return true;
    }
    let n = frame.imports.len();
    let mut k: usize = 0;
    while k < n
        invariant
            n == frame.imports.len(),
            k <= n,
            forall|j: int|
                0 <= j < k ==> !((#[trigger] frame.imports[j]).short@ == short@ && views(
                    frame.imports[j].segments@,
                ) != views(segments@)),
        decreases n - k,
    {
        let import = &frame.imports[k];
        if str_eq(import.short.as_str(), short) && !strings_eq(&import.segments, segments) {
            return true;
        }
        k += 1;
    }
    false
}

/// Number of leading segments that only root an import: two for an
/// absolute `::root` path, one otherwise.
pub open spec fn root_len(segments: Seq<Seq<char>>) -> int {
    if segments.len() > 0 && segments[0] == Seq::<char>::empty() {
        2
    } else {
        1
    }
}

/// `import` covers `segments`: it is longer than its own root and prefixes
/// (or equals) the occurrence path.
pub open spec fn covers(import: Import, segments: Seq<Seq<char>>) -> bool {
    let own = views(import.segments@);
    &&& own.len() > root_len(own)
    &&& own.len() <= segments.len()
    &&& segments.take(own.len() as int) == own
}

/// Import `k` of frame `f` is the one chosen to cover `segments`: it
/// covers them, no covering import is longer, and among the longest it
/// sits in the innermost frame, first in that frame.
pub open spec fn chosen_cover(scopes: Seq<ScopeFrame>, segments: Seq<Seq<char>>, f: int, k: int) -> bool {
    &&& 0 <= f < scopes.len()
    &&& 0 <= k < scopes[f].imports.len()
    &&& covers(scopes[f].imports[k], segments)
    &&& forall|g: int, j: int|
        0 <= g < scopes.len() && 0 <= j < scopes[g].imports.len() && covers(#[trigger] scopes[g].imports[j], segments)
            ==> scopes[g].imports[j].segments.len() < scopes[f].imports[k].segments.len() || (
        scopes[g].imports[j].segments.len() == scopes[f].imports[k].segments.len() && (g < f || (g == f && j >= k)))
}

/// The covering import of `segments`, as a (frame, import) index pair.
pub open spec fn cover_spec(scopes: Seq<ScopeFrame>, segments: Seq<Seq<char>>) -> Option<(int, int)> {
    if exists|f: int, k: int| chosen_cover(scopes, segments, f, k) {
        Some(choose|f: int, k: int| chosen_cover(scopes, segments, f, k))
    } else {
        None
    }
}

/// At most one import is the chosen cover.
proof fn lemma_chosen_cover_unique(scopes: Seq<ScopeFrame>, segments: Seq<Seq<char>>, f1: int, k1: int, f2: int, k2: int)
    requires
        chosen_cover(scopes, segments, f1, k1),
        chosen_cover(scopes, segments, f2, k2),
    ensures
        f1 == f2 && k1 == k2,
{
    assert(covers(scopes[f1].imports[k1], segments));
    assert(covers(scopes[f2].imports[k2], segments));
}

/// The longest import in any frame that covers `segments`, as a
/// (frame, import) index pair; among equals the innermost frame's first wins.
pub fn covering_import(scopes: &Vec<ScopeFrame>, segments: &Vec<String>) -> (r: Option<(usize, usize)>)
    ensures
        match r {
            Some((f, k)) => cover_spec(scopes@, views(segments@)) == Some((f as int, k as int)),
            None => cover_spec(scopes@, views(segments@)) is None,
        },
        r matches Some((f, k)) ==> f < scopes.len() && k < scopes[f as int].imports.len() && covers(
            scopes[f as int].imports[k as int],
            views(segments@),
        ),
{
    let ghost segs = views(segments@);
    let mut best: Option<(usize, usize)> = None;
    let mut best_len: usize = 0;
    let nf = scopes.len();
    let mut g = nf;
    while g > 0
        invariant
            nf == scopes.len(),
            g <= nf,
            segs == views(segments@),
            best matches Some((f, k)) ==> {
                &&& g <= f < scopes.len()
                &&& k < scopes[f as int].imports.len()
                &&& covers(scopes[f as int].imports[k as int], segs)
                &&& best_len == scopes[f as int].imports[k as int].segments.len()
                &&& forall|h: int, j: int|
                    g <= h < scopes.len() && 0 <= j < scopes[h].imports.len() && covers(#[trigger] scopes[h].imports[j], segs)
                        ==> scopes[h].imports[j].segments.len() < best_len || (scopes[h].imports[j].segments.len()
                        == best_len && (h < f || (h == f && j >= k)))
            },
            best is None ==> best_len == 0,
            best is None ==> forall|h: int, j: int|
                g <= h < scopes.len() && 0 <= j < scopes[h].imports.len() ==> !covers(#[trigger] scopes[h].imports[j], segs),
        decreases g,
    {
        g -= 1;
        let frame = &scopes[g];
        let ni = frame.imports.len();
        let mut j: usize = 0;
        while j < ni
            invariant
                nf == scopes.len(),
                g < nf,
                segs == views(segments@),
                frame == &scopes[g as int],
                ni == frame.imports.len(),
                j <= ni,
                best matches Some((f, k)) ==> {
                    &&& g <= f < scopes.len()
                    &&& k < scopes[f as int].imports.len()
                    &&& covers(scopes[f as int].imports[k as int], segs)
                    &&& best_len == scopes[f as int].imports[k as int].segments.len()
                    &&& forall|h: int, i: int|
                        g < h < scopes.len() && 0 <= i < scopes[h].imports.len() && covers(#[trigger] scopes[h].imports[i], segs)
                            ==> scopes[h].imports[i].segments.len() < best_len || (scopes[h].imports[i].segments.len()
                            == best_len && (h < f || (h == f && i >= k)))
                    &&& forall|i: int|
                        0 <= i < j && covers(#[trigger] scopes[g as int].imports[i], segs)
                            ==> scopes[g as int].imports[i].segments.len() < best_len || (scopes[g as int].imports[i].segments.len()
                            == best_len && (g < f || (g == f && i >= k)))
                },
                best is None ==> best_len == 0,
                best is None ==> forall|h: int, i: int|
                    g < h < scopes.len() && 0 <= i < scopes[h].imports.len() ==> !covers(#[trigger] scopes[h].imports[i], segs),
                best is None ==> forall|i: int| 0 <= i < j ==> !covers(#[trigger] scopes[g as int].imports[i], segs),
                best matches Some((f, k)) ==> (f == g ==> k < j),
            decreases ni - j,
        {
            let import = &frame.imports[j];
            let own_len = import.segments.len();
            let root = if own_len > 0 && import.segments[0].as_str().is_empty() {
                2
            } else {
                1
            };
            proof {
                let own = views(import.segments@);
                if own_len > 0 {
                    assert(own[0] == import.segments@[0]@);
                    if import.segments@[0]@.len() == 0 {
                        assert(import.segments@[0]@ =~= Seq::<char>::empty());
                    }
                }
            }
            let covering = own_len > root && strings_start_with(segments, &import.segments);
            if covering && (best.is_none() || own_len > best_len) {
                best = Some((g, j));
                best_len = own_len;
            }
            j += 1;
        }
    }
    proof {
        match best {
            Some((f, k)) => {
                assert(chosen_cover(scopes@, segs, f as int, k as int));
                let (f2, k2) = choose|f2: int, k2: int| chosen_cover(scopes@, segs, f2, k2);
                lemma_chosen_cover_unique(scopes@, segs, f as int, k as int, f2, k2);
            },
            None => {
                if exists|f: int, k: int| chosen_cover(scopes@, segs, f, k) {
                    let (f2, k2) = choose|f2: int, k2: int| chosen_cover(scopes@, segs, f2, k2);
                    assert(covers(scopes@[f2].imports[k2], segs));
                }
            },
        }
    }
    best
}

} // verus!
