//! The scope data model of the C# qualified-name rule and its queries.
//!
//! A [`ScopeFrame`] holds the `using` imports and the names one lexical
//! scope binds. The queries decide whether a short name is mentioned or
//! shadowed, and which import covers a dotted path.
use crate::text::{str_eq, strings_eq, strings_start_with, views};
use vstd::prelude::*;

verus! {

/// One explicit `using` import: its full path, its bound name (the alias,
/// else the last segment), whether an alias binds it, and whether the
/// directive is rooted with `global::`.
///
/// A plain directive binds nothing itself: it opens its namespace so the
/// namespace's members read unqualified.
pub struct Import {
    pub segments: Vec<String>,
    pub short: String,
    pub aliased: bool,
    pub absolute: bool,
}

/// One name a scope binds. `start == 0` marks a declaration, visible
/// throughout its scope; any other `start` is the byte offset a local
/// counts from.
pub struct Binding {
    pub name: String,
    pub start: usize,
}

/// The imports and names one lexical scope introduces.
pub struct ScopeFrame {
    pub imports: Vec<Import>,
    pub bindings: Vec<Binding>,
}

impl ScopeFrame {
    /// An empty frame.
    pub fn new() -> (r: ScopeFrame)
        ensures
            r.imports.len() == 0,
            r.bindings.len() == 0,
    {
        ScopeFrame { imports: Vec::new(), bindings: Vec::new() }
    }
}

/// `b` binds `name` at byte offset `at`: a declaration anywhere, a local
/// from its position onward.
pub open spec fn binding_visible(b: Binding, name: Seq<char>, at: usize) -> bool {
    b.name@ == name && (b.start == 0 || b.start <= at)
}

/// `frame` mentions `short` at `at`: an import of that name, or a visible
/// binding.
pub open spec fn mentions(frame: ScopeFrame, short: Seq<char>, at: usize) -> bool {
    ||| exists|k: int| 0 <= k < frame.imports.len() && (#[trigger] frame.imports[k]).short@ == short
    ||| exists|k: int| 0 <= k < frame.bindings.len() && binding_visible(#[trigger] frame.bindings[k], short, at)
}

/// `frame` binds `short` to something other than `segments`: a visible
/// binding, or an import of a different path under the same name.
pub open spec fn shadows(frame: ScopeFrame, short: Seq<char>, segments: Seq<Seq<char>>, at: usize) -> bool {
    ||| exists|k: int| 0 <= k < frame.bindings.len() && binding_visible(#[trigger] frame.bindings[k], short, at)
    ||| exists|k: int|
        0 <= k < frame.imports.len() && (#[trigger] frame.imports[k]).short@ == short && views(
            frame.imports[k].segments@,
        ) != segments
}

/// True when some binding of `frame` names `short` visibly at `at`.
fn binds(frame: &ScopeFrame, short: &str, at: usize) -> (r: bool)
    ensures
        r == exists|k: int| 0 <= k < frame.bindings.len() && binding_visible(#[trigger] frame.bindings[k], short@, at),
{
    let n = frame.bindings.len();
    let mut k: usize = 0;
    while k < n
        invariant
            n == frame.bindings.len(),
            k <= n,
            forall|j: int| 0 <= j < k ==> !binding_visible(#[trigger] frame.bindings[j], short@, at),
        decreases n - k,
    {
        let b = &frame.bindings[k];
        if str_eq(b.name.as_str(), short) && (b.start == 0 || b.start <= at) {
            assert(binding_visible(frame.bindings[k as int], short@, at));
            return true;
        }
        k += 1;
    }
    false
}

/// True when `frame` mentions `short` at `at`.
pub fn frame_mentions(frame: &ScopeFrame, short: &str, at: usize) -> (r: bool)
    ensures
        r == mentions(*frame, short@, at),
{
    let n = frame.imports.len();
    let mut k: usize = 0;
    while k < n
        invariant
            n == frame.imports.len(),
            k <= n,
            forall|j: int| 0 <= j < k ==> (#[trigger] frame.imports[j]).short@ != short@,
        decreases n - k,
    {
        if str_eq(frame.imports[k].short.as_str(), short) {
            assert(frame.imports[k as int].short@ == short@);
            return true;
        }
        k += 1;
    }
    binds(frame, short, at)
}

/// True when `frame` shadows or makes ambiguous an import of `segments`
/// under `short`.
pub fn frame_shadows(frame: &ScopeFrame, short: &str, segments: &Vec<String>, at: usize) -> (r: bool)
    ensures
        r == shadows(*frame, short@, views(segments@), at),
{
    if binds(frame, short, at) {
        return true;
    }
    let n = frame.imports.len();
    let mut k: usize = 0;
    while k < n
        invariant
            n == frame.imports.len(),
            k <= n,
            forall|j: int|
                0 <= j < k ==> !((#[trigger] frame.imports[j]).short@ == short@ && views(
                    frame.imports[j].segments@,
                ) != views(segments@)),
        decreases n - k,
    {
        let import = &frame.imports[k];
        if str_eq(import.short.as_str(), short) && !strings_eq(&import.segments, segments) {
            return true;
        }
        k += 1;
    }
    false
}

/// `frame` holds an import named `short` whose rooting differs from
/// `absolute`: the name would be ambiguous between the two.
pub open spec fn rooting_conflict(frame: ScopeFrame, short: Seq<char>, absolute: bool) -> bool {
    exists|k: int|
        0 <= k < frame.imports.len() && (#[trigger] frame.imports[k]).short@ == short
            && frame.imports[k].absolute != absolute
}

/// True when `frame` imports `short` with the other rooting.
pub fn frame_rooting_conflict(frame: &ScopeFrame, short: &str, absolute: bool) -> (r: bool)
    ensures
        r == rooting_conflict(*frame, short@, absolute),
{
    let n = frame.imports.len();
    let mut k: usize = 0;
    while k < n
        invariant
            n == frame.imports.len(),
            k <= n,
            forall|j: int|
                0 <= j < k ==> !((#[trigger] frame.imports[j]).short@ == short@ && frame.imports[j].absolute
                    != absolute),
        decreases n - k,
    {
        let import = &frame.imports[k];
        if str_eq(import.short.as_str(), short) && import.absolute != absolute {
            return true;
        }
        k += 1;
    }
    false
}

/// `import` covers `segments`: its path has at least `min_len` segments and
/// prefixes (or equals) the occurrence path, and an absolute occurrence
/// only takes an absolute import.
pub open spec fn covers(import: Import, segments: Seq<Seq<char>>, min_len: usize, absolute: bool) -> bool {
    let own = views(import.segments@);
    &&& own.len() >= min_len
    &&& own.len() <= segments.len()
    &&& segments.take(own.len() as int) == own
    &&& (!absolute || import.absolute)
}

/// Import `k` of frame `f` is the one chosen to cover `segments`: it
/// covers them, no covering import is longer, and among the longest it
/// sits in the innermost frame, first in that frame.
pub open spec fn chosen_cover(scopes: Seq<ScopeFrame>, segments: Seq<Seq<char>>, min_len: usize, absolute: bool, f: int, k: int) -> bool {
    &&& 0 <= f < scopes.len()
    &&& 0 <= k < scopes[f].imports.len()
    &&& covers(scopes[f].imports[k], segments, min_len, absolute)
    &&& forall|g: int, j: int|
        0 <= g < scopes.len() && 0 <= j < scopes[g].imports.len() && covers(
            #[trigger] scopes[g].imports[j],
            segments,
            min_len,
            absolute,
        ) ==> scopes[g].imports[j].segments.len() < scopes[f].imports[k].segments.len() || (
        scopes[g].imports[j].segments.len() == scopes[f].imports[k].segments.len() && (g < f || (g == f && j >= k)))
}

/// The covering import of `segments`, as a (frame, import) index pair.
pub open spec fn cover_spec(scopes: Seq<ScopeFrame>, segments: Seq<Seq<char>>, min_len: usize, absolute: bool) -> Option<(int, int)> {
    if exists|f: int, k: int| chosen_cover(scopes, segments, min_len, absolute, f, k) {
        Some(choose|f: int, k: int| chosen_cover(scopes, segments, min_len, absolute, f, k))
    } else {
        None
    }
}

/// At most one import is the chosen cover.
proof fn lemma_chosen_cover_unique(
    scopes: Seq<ScopeFrame>,
    segments: Seq<Seq<char>>,
    min_len: usize,
    absolute: bool,
    f1: int,
    k1: int,
    f2: int,
    k2: int,
)
    requires
        chosen_cover(scopes, segments, min_len, absolute, f1, k1),
        chosen_cover(scopes, segments, min_len, absolute, f2, k2),
    ensures
        f1 == f2 && k1 == k2,
{
    let a = scopes[f1].imports[k1];
    let b = scopes[f2].imports[k2];
    assert(covers(a, segments, min_len, absolute));
    assert(covers(b, segments, min_len, absolute));
}

/// The longest import in any frame that covers `segments`, as a
/// (frame, import) index pair; among equals the innermost frame's first
/// wins.
pub fn covering_import(scopes: &Vec<ScopeFrame>, segments: &Vec<String>, min_len: usize, absolute: bool) -> (r:
    Option<(usize, usize)>)
    ensures
        match r {
            Some((f, k)) => cover_spec(scopes@, views(segments@), min_len, absolute) == Some((f as int, k as int)),
            None => cover_spec(scopes@, views(segments@), min_len, absolute) is None,
        },
        r matches Some((f, k)) ==> f < scopes.len() && k < scopes[f as int].imports.len() && covers(
            scopes[f as int].imports[k as int],
            views(segments@),
            min_len,
            absolute,
        ),
{
    let ghost segs = views(segments@);
    let mut best: Option<(usize, usize)> = None;
    let mut best_len: usize = 0;
    let nf = scopes.len();
    let mut g = nf;
    while g > 0
        invariant
            nf == scopes.len(),
            g <= nf,
            segs == views(segments@),
            best matches Some((f, k)) ==> {
                &&& g <= f < scopes.len()
                &&& k < scopes[f as int].imports.len()
                &&& covers(scopes[f as int].imports[k as int], segs, min_len, absolute)
                &&& best_len == scopes[f as int].imports[k as int].segments.len()
                &&& forall|h: int, j: int|
                    g <= h < scopes.len() && 0 <= j < scopes[h].imports.len() && covers(
                        #[trigger] scopes[h].imports[j],
                        segs,
                        min_len,
                        absolute,
                    ) ==> scopes[h].imports[j].segments.len() < best_len || (scopes[h].imports[j].segments.len()
                        == best_len && (h < f || (h == f && j >= k)))
            },
            best is None ==> best_len == 0,
            best is None ==> forall|h: int, j: int|
                g <= h < scopes.len() && 0 <= j < scopes[h].imports.len() ==> !covers(
                    #[trigger] scopes[h].imports[j],
                    segs,
                    min_len,
                    absolute,
                ),
        decreases g,
    {
        g -= 1;
        let frame = &scopes[g];
        let ni = frame.imports.len();
        let mut j: usize = 0;
        while j < ni
            invariant
                nf == scopes.len(),
                g < nf,
                segs == views(segments@),
                frame == &scopes[g as int],
                ni == frame.imports.len(),
                j <= ni,
                best matches Some((f, k)) ==> {
                    &&& g <= f < scopes.len()
                    &&& k < scopes[f as int].imports.len()
                    &&& covers(scopes[f as int].imports[k as int], segs, min_len, absolute)
                    &&& best_len == scopes[f as int].imports[k as int].segments.len()
                    &&& forall|h: int, i: int|
                        g < h < scopes.len() && 0 <= i < scopes[h].imports.len() && covers(
                            #[trigger] scopes[h].imports[i],
                            segs,
                            min_len,
                            absolute,
                        ) ==> scopes[h].imports[i].segments.len() < best_len || (scopes[h].imports[i].segments.len()
                            == best_len && (h < f || (h == f && i >= k)))
                    &&& forall|i: int|
                        0 <= i < j && covers(#[trigger] scopes[g as int].imports[i], segs, min_len, absolute)
                            ==> scopes[g as int].imports[i].segments.len() < best_len || (scopes[g as int].imports[i].segments.len()
                            == best_len && (g < f || (g == f && i >= k)))
                },
                best is None ==> best_len == 0,
                best is None ==> forall|h: int, i: int|
                    g < h < scopes.len() && 0 <= i < scopes[h].imports.len() ==> !covers(
                        #[trigger] scopes[h].imports[i],
                        segs,
                        min_len,
                        absolute,
                    ),
                best is None ==> forall|i: int| 0 <= i < j ==> !covers(#[trigger] scopes[g as int].imports[i], segs, min_len, absolute),
                best matches Some((f, k)) ==> (f == g ==> k < j),
            decreases ni - j,
        {
            let import = &frame.imports[j];
            let own_len = import.segments.len();
            let covering = own_len >= min_len && strings_start_with(segments, &import.segments) && (!absolute
                || import.absolute);
            if covering && (best.is_none() || own_len > best_len) {
                best = Some((g, j));
                best_len = own_len;
            }
            j += 1;
        }
    }
    proof {
        match best {
            Some((f, k)) => {
                assert(chosen_cover(scopes@, segs, min_len, absolute, f as int, k as int));
                let (f2, k2) = choose|f2: int, k2: int| chosen_cover(scopes@, segs, min_len, absolute, f2, k2);
                lemma_chosen_cover_unique(scopes@, segs, min_len, absolute, f as int, k as int, f2, k2);
            },
            None => {
                if exists|f: int, k: int| chosen_cover(scopes@, segs, min_len, absolute, f, k) {
                    let (f2, k2) = choose|f2: int, k2: int| chosen_cover(scopes@, segs, min_len, absolute, f2, k2);
                    assert(covers(scopes@[f2].imports[k2], segs, min_len, absolute));
                }
            },
        }
    }
    best
}


/// The innermost of the frames `scopes[..n]` that mentions `name` at `at`.
pub open spec fn innermost_mention(scopes: Seq<ScopeFrame>, n: int, name: Seq<char>, at: usize) -> Option<int>
    decreases n,
{
    if n <= 0 {
        None
    } else if mentions(scopes[n - 1], name, at) {
        Some(n - 1)
    } else {
        innermost_mention(scopes, n - 1, name, at)
    }
}

/// The index of the innermost frame that mentions `name` at `at`.
pub fn innermost_mentioning(scopes: &Vec<ScopeFrame>, name: &str, at: usize) -> (r: Option<usize>)
    ensures
        r matches Some(g) ==> g < scopes.len() && innermost_mention(scopes@, scopes.len() as int, name@, at)
            == Some(g as int),
        r is None ==> innermost_mention(scopes@, scopes.len() as int, name@, at) is None,
{
    let mut g = scopes.len();
    while g > 0
        invariant
            g <= scopes.len(),
            innermost_mention(scopes@, scopes.len() as int, name@, at) == innermost_mention(
                scopes@,
                g as int,
                name@,
                at,
            ),
        decreases g,
    {
        if frame_mentions(&scopes[g - 1], name, at) {
            return Some(g - 1);
        }
        g -= 1;
    }
    None
}

/// Some frame of `scopes` mentions `name` at `at`.
pub open spec fn any_mentions(scopes: Seq<ScopeFrame>, name: Seq<char>, at: usize) -> bool {
    exists|f: int| 0 <= f < scopes.len() && mentions(#[trigger] scopes[f], name, at)
}

/// True when some frame mentions `name` at `at`.
pub fn any_frame_mentions(scopes: &Vec<ScopeFrame>, name: &str, at: usize) -> (r: bool)
    ensures
        r == any_mentions(scopes@, name@, at),
{
    let n = scopes.len();
    let mut f: usize = 0;
    while f < n
        invariant
            n == scopes.len(),
            f <= n,
            forall|g: int| 0 <= g < f ==> !mentions(#[trigger] scopes@[g], name@, at),
        decreases n - f,
    {
        if frame_mentions(&scopes[f], name, at) {
            assert(mentions(scopes@[f as int], name@, at));
            return true;
        }
        f += 1;
    }
    false
}

} // verus!
