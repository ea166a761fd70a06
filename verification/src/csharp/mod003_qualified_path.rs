//! `MOD003`: hint at C# paths that spell out their full namespace.
//!
//! A qualified name spells out where a name lives, such as
//! `System.Console`. The rule reads the syntax tree and emits hints; it
//! neither rewrites code nor resolves names.
//!
//! The walker keeps a stack of [`ScopeFrame`]s. Entering a scope records
//! its declarations and `using` directives first, since both are visible
//! throughout the scope. Each outermost dotted chain (a qualified type name
//! or a member-access expression) is split into segments; the longest
//! visible `using` that prefixes the path supplies "already imported"
//! advice, and without one the rule suggests a new directive.
//!
//! Two root policies decide which paths count as fully qualified:
//!
//! - [`check`]: `global::` roots, and `System` or `Microsoft` when no alias,
//!   declaration, local, or enclosing namespace component could make them
//!   relative. Missing-import advice proposes a namespace `using`.
//! - [`check_with_open_roots`]: any first segment that the file's `using`
//!   paths, namespace declarations, or qualified type names also start
//!   with, plus `System` and `Microsoft`. Missing-import advice proposes an
//!   alias.
//!
//! `using` text, attributes, and preprocessor regions (with their whole
//! containing method) are exempt.
use crate::codes::CODE_QUALIFIED_PATH;
use crate::csharp::names::{
    at_start, bound_views, chain_kind, collect_usings, contains_conditional, declaration_names, declarator_names, field_name_spec,
    is_absolute, is_chain_head, is_conditional, is_scope, scope_kind, leaf_text, leaf_text_spec, leftmost_segment,
    leftmost_name_spec, leftmost_segment_spec, local_bindings, local_bindings_spec, name_segments, named_at, opt_seq,
    preproc_conditionals, segments_spec, using_target, usings_spec,
};
use crate::csharp::scope::{
    any_frame_mentions, any_mentions, binding_visible, cover_spec, covering_import, frame_rooting_conflict,
    frame_shadows, innermost_mention, innermost_mentioning, rooting_conflict, shadows, Binding, Import,
    ScopeFrame,
};
use crate::diagnostic::{Diagnostic, Severity};
use crate::syntax::{
    children_spec, field_child, kind_is, named_children_spec, opt_view, subtree_any, tree_ok, SyntaxTree,
};
use crate::text::{
    copy_string, join, join_spec, owned, push_str, str_eq, strings_contain, strip_leading,
    strip_leading_spec, views,
};
use vstd::prelude::*;

verus! {

/// Which first segments make a path fully qualified.
#[derive(Clone, Copy, PartialEq, Eq, Structural)]
pub enum RootPolicy {
    /// `global::`, and the standard roots unless something makes them relative.
    Declared,
    /// Roots the file itself shows in imports, namespaces, and type names.
    Open,
}

/// Every finding is a MOD003 hint on a real line.
pub open spec fn all_hints(ds: Seq<Diagnostic>) -> bool {
    forall|i: int|
        #![trigger ds[i]]
        0 <= i < ds.len() ==> ds[i].code@ == CODE_QUALIFIED_PATH@ && ds[i].severity
            == Severity::Hint && ds[i].line >= 1
}

/// The traversal state: policy, root evidence, scopes, and findings.
///
/// Under [`RootPolicy::Declared`], `roots` holds the namespace components
/// that could make a standard root relative; under [`RootPolicy::Open`],
/// the roots the file shows.
pub struct Walker {
    pub policy: RootPolicy,
    pub roots: Vec<String>,
    pub scopes: Vec<ScopeFrame>,
    pub diagnostics: Vec<Diagnostic>,
}

/// The texts and offsets of a list of bindings.
pub open spec fn binding_views(b: Seq<Binding>) -> Seq<(Seq<char>, usize)> {
    b.map_values(|x: Binding| (x.name@, x.start))
}

/// `after` is `before` with only its innermost frame grown: by the bound
/// names `names` and then the imports `imports`; nothing happens without a
/// frame.
pub open spec fn frame_extended(before: Walker, after: Walker, names: Seq<(Seq<char>, usize)>, imports: Seq<Import>) -> bool {
    &&& after.policy == before.policy
    &&& after.roots == before.roots
    &&& after.diagnostics == before.diagnostics
    &&& after.scopes.len() == before.scopes.len()
    &&& after.scopes@.drop_last() == before.scopes@.drop_last()
    &&& before.scopes.len() > 0 ==> {
        &&& binding_views(after.scopes@.last().bindings@) == binding_views(before.scopes@.last().bindings@) + names
        &&& after.scopes@.last().imports@ == before.scopes@.last().imports@ + imports
    }
}

proof fn lemma_frame_extended_trans(
    a: Walker,
    b: Walker,
    c: Walker,
    n1: Seq<(Seq<char>, usize)>,
    i1: Seq<Import>,
    n2: Seq<(Seq<char>, usize)>,
    i2: Seq<Import>,
)
    requires
        frame_extended(a, b, n1, i1),
        frame_extended(b, c, n2, i2),
        n1.len() == 0 || i1.len() == 0 || i2.len() == 0,
        i1.len() == 0 || n2.len() == 0,
    ensures
        frame_extended(a, c, n1 + n2, i1 + i2),
{
    assert(c.scopes@.drop_last() =~= a.scopes@.drop_last());
    if a.scopes.len() > 0 {
        assert(binding_views(c.scopes@.last().bindings@) =~= binding_views(a.scopes@.last().bindings@) + (n1 + n2));
        assert(c.scopes@.last().imports@ =~= a.scopes@.last().imports@ + (i1 + i2));
    }
}

proof fn lemma_frame_extended_refl(a: Walker)
    ensures
        frame_extended(a, a, Seq::empty(), Seq::empty()),
{
    if a.scopes.len() > 0 {
        assert(binding_views(a.scopes@.last().bindings@) =~= binding_views(a.scopes@.last().bindings@) + Seq::empty());
        assert(a.scopes@.last().imports@ =~= a.scopes@.last().imports@ + Seq::<Import>::empty());
    }
}

/// The name a `using` directive's alias binds on its own.
pub open spec fn using_alias(tree: SyntaxTree, src: Seq<u8>, i: usize) -> Option<Seq<char>> {
    match field_child(tree, i as int, "name"@) {
        Some(a) => leaf_text_spec(tree, src, a),
        None => None,
    }
}

/// The first segment of each non-empty path of `paths`, in order.
pub open spec fn first_segments(paths: Seq<Seq<Seq<char>>>) -> Seq<Seq<char>>
    decreases paths.len(),
{
    if paths.len() == 0 {
        Seq::empty()
    } else {
        (if paths[0].len() > 0 {
            seq![paths[0][0]]
        } else {
            Seq::empty()
        }) + first_segments(paths.drop_first())
    }
}

/// The path a `using` directive at node `i` names under the open policy,
/// static or not.
pub open spec fn using_path_open(tree: SyntaxTree, src: Seq<u8>, i: usize) -> Seq<Seq<Seq<char>>> {
    match using_target(tree, named_children_spec(tree, i), field_child(tree, i as int, "name"@)) {
        None => Seq::empty(),
        Some(c) => match segments_spec(tree, src, c, RootPolicy::Open) {
            Some(segs) => seq![segs],
            None => Seq::empty(),
        },
    }
}

/// Node `i` declares a namespace.
pub open spec fn namespace_kind(tree: SyntaxTree, i: int) -> bool {
    kind_is(tree, i, "namespace_declaration"@) || kind_is(tree, i, "file_scoped_namespace_declaration"@)
}

/// The roots the file shows at and under node `i`: the first segment of
/// each qualified name and namespace name, and of each `using` path.
pub open spec fn roots_spec(tree: SyntaxTree, src: Seq<u8>, i: int) -> Seq<Seq<char>>
    decreases tree.nodes.len() - i, named_children_spec(tree, i as usize).len() + 1,
{
    let own = if kind_is(tree, i, "qualified_name"@) || namespace_kind(tree, i) {
        let name = if namespace_kind(tree, i) {
            match field_child(tree, i, "name"@) {
                Some(n) => n,
                None => i,
            }
        } else {
            i
        };
        opt_seq(leftmost_segment_spec(tree, src, name as usize, RootPolicy::Open))
    } else {
        Seq::empty()
    };
    if kind_is(tree, i, "using_directive"@) {
        own + first_segments(using_path_open(tree, src, i as usize))
    } else {
        own + roots_kids(tree, src, named_children_spec(tree, i as usize), i)
    }
}

/// The roots under `kids`, children of node `i`.
pub open spec fn roots_kids(tree: SyntaxTree, src: Seq<u8>, kids: Seq<usize>, i: int) -> Seq<Seq<char>>
    decreases tree.nodes.len() - i, kids.len(),
{
    if kids.len() == 0 {
        Seq::empty()
    } else {
        (if 0 <= i < kids[0] < tree.nodes.len() {
            roots_spec(tree, src, kids[0] as int)
        } else {
            Seq::empty()
        }) + roots_kids(tree, src, kids.drop_first(), i)
    }
}

/// The namespace components at and under node `i` that could make a
/// standard root relative: each component of a nested namespace's name,
/// all but the first of a top-level one, `@` escapes removed.
pub open spec fn relative_roots_spec(tree: SyntaxTree, src: Seq<u8>, i: int) -> Seq<Seq<char>>
    decreases tree.nodes.len() - i, named_children_spec(tree, i as usize).len() + 1,
{
    let own = if namespace_kind(tree, i) {
        match field_child(tree, i, "name"@) {
            Some(n) => match segments_spec(tree, src, n as usize, RootPolicy::Declared) {
                Some(segs) => {
                    let top = match tree.nodes[i].parent {
                        Some(p) => kind_is(tree, p as int, "compilation_unit"@),
                        None => false,
                    };
                    let from: int = if top {
                        1
                    } else {
                        0
                    };
                    if from <= segs.len() {
                        segs.skip(from).map_values(|x: Seq<char>| strip_leading_spec(x, '@'))
                    } else {
                        Seq::empty()
                    }
                },
                None => Seq::empty(),
            },
            None => Seq::empty(),
        }
    } else {
        Seq::empty()
    };
    own + relative_kids(tree, src, named_children_spec(tree, i as usize), i)
}

/// The relative-root components under `kids`, children of node `i`.
pub open spec fn relative_kids(tree: SyntaxTree, src: Seq<u8>, kids: Seq<usize>, i: int) -> Seq<Seq<char>>
    decreases tree.nodes.len() - i, kids.len(),
{
    if kids.len() == 0 {
        Seq::empty()
    } else {
        (if 0 <= i < kids[0] < tree.nodes.len() {
            relative_roots_spec(tree, src, kids[0] as int)
        } else {
            Seq::empty()
        }) + relative_kids(tree, src, kids.drop_first(), i)
    }
}

/// The item label of node `p`, when it is a declaration that names a
/// scope of its own.
pub open spec fn item_label(tree: SyntaxTree, p: int) -> Option<Seq<char>> {
    if kind_is(tree, p, "namespace_declaration"@) {
        Some("namespace"@)
    } else if kind_is(tree, p, "class_declaration"@) {
        Some("class"@)
    } else if kind_is(tree, p, "struct_declaration"@) {
        Some("struct"@)
    } else if kind_is(tree, p, "interface_declaration"@) {
        Some("interface"@)
    } else if kind_is(tree, p, "record_declaration"@) || kind_is(tree, p, "record_struct_declaration"@) {
        Some("record"@)
    } else if kind_is(tree, p, "enum_declaration"@) {
        Some("enum"@)
    } else if kind_is(tree, p, "delegate_declaration"@) {
        Some("delegate"@)
    } else if kind_is(tree, p, "method_declaration"@) || kind_is(tree, p, "local_function_statement"@) {
        Some("fn"@)
    } else if kind_is(tree, p, "constructor_declaration"@) {
        Some("constructor"@)
    } else if kind_is(tree, p, "destructor_declaration"@) {
        Some("destructor"@)
    } else if kind_is(tree, p, "operator_declaration"@) || kind_is(tree, p, "conversion_operator_declaration"@) {
        Some("operator"@)
    } else if kind_is(tree, p, "property_declaration"@) || kind_is(tree, p, "indexer_declaration"@) {
        Some("property"@)
    } else if kind_is(tree, p, "event_declaration"@) {
        Some("event"@)
    } else if kind_is(tree, p, "field_declaration"@) || kind_is(tree, p, "event_field_declaration"@) {
        Some("const"@)
    } else {
        None
    }
}

/// The kind label and name of the innermost declaration above node `i`:
/// `other` and no name when none encloses it; a field names its first
/// declared variable.
pub open spec fn enclosing_spec(tree: SyntaxTree, src: Seq<u8>, i: usize) -> (Seq<char>, Option<Seq<char>>)
    decreases i,
{
    match tree.nodes[i as int].parent {
        None => ("other"@, None),
        Some(p) => if p < i {
            match item_label(tree, p as int) {
                None => enclosing_spec(tree, src, p),
                Some(label) => (label, if label == "const"@ {
                    let names = declaration_names(tree, src, children_spec(tree, p));
                    if names.len() > 0 {
                        Some(names[0])
                    } else {
                        None
                    }
                } else {
                    match field_child(tree, p as int, "name"@) {
                        Some(n) => leaf_text_spec(tree, src, n),
                        None => None,
                    }
                }),
            }
        } else {
            ("other"@, None)
        },
    }
}

/// The declaration kinds that bind their own name through a `name` field.
pub open spec fn named_declaration(tree: SyntaxTree, i: int, policy: RootPolicy) -> bool {
    (policy == RootPolicy::Declared && kind_is(tree, i, "extern_alias_directive"@)) || kind_is(
        tree,
        i,
        "class_declaration"@,
    ) || kind_is(tree, i, "struct_declaration"@) || kind_is(tree, i, "interface_declaration"@) || kind_is(
        tree,
        i,
        "record_declaration"@,
    ) || kind_is(tree, i, "record_struct_declaration"@) || kind_is(tree, i, "enum_declaration"@) || kind_is(
        tree,
        i,
        "enum_member_declaration"@,
    ) || kind_is(tree, i, "delegate_declaration"@) || kind_is(tree, i, "method_declaration"@) || kind_is(
        tree,
        i,
        "constructor_declaration"@,
    ) || kind_is(tree, i, "destructor_declaration"@) || kind_is(tree, i, "operator_declaration"@) || kind_is(
        tree,
        i,
        "conversion_operator_declaration"@,
    ) || kind_is(tree, i, "property_declaration"@) || kind_is(tree, i, "indexer_declaration"@) || kind_is(
        tree,
        i,
        "event_declaration"@,
    ) || kind_is(tree, i, "local_function_statement"@)
}

/// The names declaration node `i` binds throughout its scope.
pub open spec fn item_names_spec(tree: SyntaxTree, src: Seq<u8>, i: usize, policy: RootPolicy) -> Seq<
    (Seq<char>, usize),
> {
    let ii = i as int;
    if kind_is(tree, ii, "field_declaration"@) || kind_is(tree, ii, "event_field_declaration"@) {
        at_start(declaration_names(tree, src, children_spec(tree, i)), 0)
    } else if kind_is(tree, ii, "namespace_declaration"@) {
        named_at(
            match field_child(tree, ii, "name"@) {
                Some(n) => match policy {
                    RootPolicy::Declared => leftmost_segment_spec(tree, src, n as usize, RootPolicy::Declared),
                    RootPolicy::Open => leaf_text_spec(tree, src, n),
                },
                None => None,
            },
            0,
        )
    } else if named_declaration(tree, ii, policy) {
        named_at(
            match field_child(tree, ii, "name"@) {
                Some(n) => leaf_text_spec(tree, src, n),
                None => None,
            },
            0,
        )
    } else {
        Seq::empty()
    }
}

/// A method-like declaration.
pub open spec fn method_like(tree: SyntaxTree, i: int) -> bool {
    kind_is(tree, i, "method_declaration"@) || kind_is(tree, i, "constructor_declaration"@) || kind_is(
        tree,
        i,
        "destructor_declaration"@,
    ) || kind_is(tree, i, "operator_declaration"@) || kind_is(tree, i, "conversion_operator_declaration"@)
        || kind_is(tree, i, "local_function_statement"@)
}

/// The standard namespace roots.
pub open spec fn is_known_root(s: Seq<char>) -> bool {
    s == "System"@ || s == "Microsoft"@
}

/// `frame` makes `root` relative at `at`: an alias of that name, or a
/// visible declaration or local of that name, ignoring `@` escapes.
pub open spec fn frame_hides_root(frame: ScopeFrame, root: Seq<char>, at: usize) -> bool {
    ||| exists|k: int|
        0 <= k < frame.imports.len() && (#[trigger] frame.imports[k]).aliased && strip_leading_spec(
            frame.imports[k].short@,
            '@',
        ) == root
    ||| exists|k: int|
        0 <= k < frame.bindings.len() && strip_leading_spec((#[trigger] frame.bindings[k]).name@, '@') == root
            && (frame.bindings[k].start == 0 || frame.bindings[k].start <= at)
}

/// Some frame binds `root` as a visible declaration or local at `at`.
pub open spec fn root_bound(scopes: Seq<ScopeFrame>, root: Seq<char>, at: usize) -> bool {
    exists|f: int, k: int|
        0 <= f < scopes.len() && 0 <= k < scopes[f].bindings.len() && binding_visible(
            #[trigger] scopes[f].bindings[k],
            root,
            at,
        )
}

/// The path `segments` at `at` counts as fully qualified.
pub open spec fn eligible(
    policy: RootPolicy,
    absolute: bool,
    segments: Seq<Seq<char>>,
    roots: Seq<Seq<char>>,
    scopes: Seq<ScopeFrame>,
    at: usize,
) -> bool {
    &&& segments.len() >= 2
    &&& match policy {
        RootPolicy::Declared => absolute || (is_known_root(segments[0]) && !roots.contains(segments[0])
            && !(exists|f: int| 0 <= f < scopes.len() && frame_hides_root(#[trigger] scopes[f], segments[0], at))),
        RootPolicy::Open => roots.contains(segments[0]) && !root_bound(scopes, segments[0], at),
    }
}

fn frame_hides(frame: &ScopeFrame, root: &str, at: usize) -> (r: bool)
    ensures
        r == frame_hides_root(*frame, root@, at),
{
    let ni = frame.imports.len();
    let mut k: usize = 0;
    while k < ni
        invariant
            ni == frame.imports.len(),
            k <= ni,
            forall|j: int|
                0 <= j < k ==> !((#[trigger] frame.imports[j]).aliased && strip_leading_spec(
                    frame.imports[j].short@,
                    '@',
                ) == root@),
        decreases ni - k,
    {
        let import = &frame.imports[k];
        if import.aliased {
            let bare = strip_leading(import.short.as_str(), '@');
            if str_eq(bare.as_str(), root) {
                return true;
            }
        }
        k += 1;
    }
    let nb = frame.bindings.len();
    let mut k: usize = 0;
    while k < nb
        invariant
            nb == frame.bindings.len(),
            k <= nb,
            forall|j: int|
                0 <= j < k ==> !(strip_leading_spec((#[trigger] frame.bindings[j]).name@, '@') == root@ && (
                frame.bindings[j].start == 0 || frame.bindings[j].start <= at)),
        decreases nb - k,
    {
        let b = &frame.bindings[k];
        let bare = strip_leading(b.name.as_str(), '@');
        if str_eq(bare.as_str(), root) && (b.start == 0 || b.start <= at) {
            return true;
        }
        k += 1;
    }
    false
}

fn frame_binds(frame: &ScopeFrame, root: &str, at: usize) -> (r: bool)
    ensures
        r == exists|k: int| 0 <= k < frame.bindings.len() && binding_visible(#[trigger] frame.bindings[k], root@, at),
{
    let nb = frame.bindings.len();
    let mut k: usize = 0;
    while k < nb
        invariant
            nb == frame.bindings.len(),
            k <= nb,
            forall|j: int| 0 <= j < k ==> !binding_visible(#[trigger] frame.bindings[j], root@, at),
        decreases nb - k,
    {
        let b = &frame.bindings[k];
        if str_eq(b.name.as_str(), root) && (b.start == 0 || b.start <= at) {
            assert(binding_visible(frame.bindings[k as int], root@, at));
            return true;
        }
        k += 1;
    }
    false
}

/// True when the path `segments` at `at` counts as fully qualified.
#[verifier::loop_isolation(false)]
pub fn is_eligible(w: &Walker, absolute: bool, segments: &Vec<String>, at: usize) -> (r: bool)
    ensures
        r == eligible(w.policy, absolute, views(segments@), views(w.roots@), w.scopes@, at),
{
    let ghost segs = views(segments@);
    if segments.len() < 2 {
        return false;
    }
    let root = segments[0].as_str();
    assert(segs[0] == root@);
    match w.policy {
        RootPolicy::Declared => {
            if absolute {
                return true;
            }
            if !(str_eq(root, "System") || str_eq(root, "Microsoft")) {
                return false;
            }
            if strings_contain(&w.roots, root) {
                return false;
            }
            let n = w.scopes.len();
            let mut f: usize = 0;
            while f < n
                invariant
                    n == w.scopes.len(),
                    f <= n,
                    segs == views(segments@),
                    segs.len() >= 2,
                    segs[0] == root@,
                    forall|g: int| 0 <= g < f ==> !frame_hides_root(#[trigger] w.scopes@[g], root@, at),
                decreases n - f,
            {
                if frame_hides(&w.scopes[f], root, at) {
                    assert(frame_hides_root(w.scopes@[f as int], root@, at));
                    return false;
                }
                f += 1;
            }
            true
        },
        RootPolicy::Open => {
            if !strings_contain(&w.roots, root) {
                return false;
            }
            let n = w.scopes.len();
            let mut f: usize = 0;
            while f < n
                invariant
                    n == w.scopes.len(),
                    f <= n,
                    segs == views(segments@),
                    segs.len() >= 2,
                    segs[0] == root@,
                    forall|g: int, k: int|
                        0 <= g < f && 0 <= k < w.scopes@[g].bindings.len() ==> !binding_visible(
                            #[trigger] w.scopes@[g].bindings[k],
                            root@,
                            at,
                        ),
                decreases n - f,
            {
                if frame_binds(&w.scopes[f], root, at) {
                    proof {
                        let frame = w.scopes@[f as int];
                        let k = choose|k: int|
                            0 <= k < frame.bindings.len() && binding_visible(#[trigger] frame.bindings[k], root@, at);
                        assert(binding_visible(w.scopes@[f as int].bindings[k], root@, at));
                    }
                    return false;
                }
                f += 1;
            }
            true
        },
    }
}

/// The advice line for a path an import already covers.
pub open spec fn covered_advice(policy: RootPolicy, replacement: Seq<char>, short: Seq<char>) -> Seq<char> {
    match policy {
        RootPolicy::Declared => "- If clear at the use site, use `"@ + replacement + "`; `"@ + short
            + "` is already imported."@,
        RootPolicy::Open => "- Replace this path with `"@ + replacement + "`; `"@ + short
            + "` is already imported."@,
    }
}

/// The advice lines for a path no import covers. `head` is the proposed
/// namespace under [`RootPolicy::Declared`] and the aliased path under
/// [`RootPolicy::Open`]; `short` is the alias.
pub open spec fn missing_advice(policy: RootPolicy, head: Seq<char>, short: Seq<char>, replacement: Seq<char>) -> Seq<
    char,
> {
    match policy {
        RootPolicy::Declared => "- If `"@ + head + "` is a namespace and the result is clear, add `using "@ + head
            + ";` at namespace or file scope and use `"@ + replacement + "`."@,
        RootPolicy::Open => "- Add `using "@ + short + " = "@ + head
            + ";` at namespace or file scope.\n- Replace this path with `"@ + replacement + "`."@,
    }
}

/// The whole hint message for `path` with `advice`.
pub open spec fn hint_message(policy: RootPolicy, path: Seq<char>, advice: Seq<char>) -> Seq<char> {
    match policy {
        RootPolicy::Declared => "path `"@ + path + "` includes the full namespace.\nWhy: full namespace prefixes give readers longer lines to scan before reaching the item name, making code harder to understand.\nSuggestions:\n"@
            + advice
            + "\n- Retain namespace or type context when needed; use a type alias if the proposed import targets a containing type, not a namespace.\n- Keep the full path if shortening would reduce clarity or create a name conflict.\n- Verify the shorter path resolves to the same symbol; this hint uses syntax, not compiler name resolution."@,
        RootPolicy::Open => "fully-qualified path `"@ + path + "` makes code harder to read.\n"@ + advice,
    }
}

fn build_covered_advice(policy: RootPolicy, replacement: &str, short: &str) -> (r: String)
    ensures
        r@ == covered_advice(policy, replacement@, short@),
{
    let mut s = String::new();
    match policy {
        RootPolicy::Declared => push_str(&mut s, "- If clear at the use site, use `"),
        RootPolicy::Open => push_str(&mut s, "- Replace this path with `"),
    }
    push_str(&mut s, replacement);
    push_str(&mut s, "`; `");
    push_str(&mut s, short);
    push_str(&mut s, "` is already imported.");
    s
}

fn build_missing_advice(policy: RootPolicy, head: &str, short: &str, replacement: &str) -> (r: String)
    ensures
        r@ == missing_advice(policy, head@, short@, replacement@),
{
    let mut s = String::new();
    match policy {
        RootPolicy::Declared => {
            push_str(&mut s, "- If `");
            push_str(&mut s, head);
            push_str(&mut s, "` is a namespace and the result is clear, add `using ");
            push_str(&mut s, head);
            push_str(&mut s, ";` at namespace or file scope and use `");
        },
        RootPolicy::Open => {
            push_str(&mut s, "- Add `using ");
            push_str(&mut s, short);
            push_str(&mut s, " = ");
            push_str(&mut s, head);
            push_str(&mut s, ";` at namespace or file scope.\n- Replace this path with `");
        },
    }
    push_str(&mut s, replacement);
    push_str(&mut s, "`.");
    s
}

fn build_message(policy: RootPolicy, path: &str, advice: &str) -> (r: String)
    ensures
        r@ == hint_message(policy, path@, advice@),
{
    let mut s = String::new();
    match policy {
        RootPolicy::Declared => {
            push_str(&mut s, "path `");
            push_str(&mut s, path);
            push_str(
                &mut s,
                "` includes the full namespace.\nWhy: full namespace prefixes give readers longer lines to scan before reaching the item name, making code harder to understand.\nSuggestions:\n",
            );
            push_str(&mut s, advice);
            push_str(
                &mut s,
                "\n- Retain namespace or type context when needed; use a type alias if the proposed import targets a containing type, not a namespace.\n- Keep the full path if shortening would reduce clarity or create a name conflict.\n- Verify the shorter path resolves to the same symbol; this hint uses syntax, not compiler name resolution.",
            );
        },
        RootPolicy::Open => {
            push_str(&mut s, "fully-qualified path `");
            push_str(&mut s, path);
            push_str(&mut s, "` makes code harder to read.\n");
            push_str(&mut s, advice);
        },
    }
    s
}

/// The sub-list `list[from..to]`.
fn slice_strings(list: &Vec<String>, from: usize, to: usize) -> (r: Vec<String>)
    requires
        from <= to <= list.len(),
    ensures
        views(r@) == views(list@).subrange(from as int, to as int),
{
    let mut out: Vec<String> = Vec::new();
    let mut k = from;
    while k < to
        invariant
            from <= k <= to <= list.len(),
            out.len() == k - from,
            forall|j: int| 0 <= j < out.len() ==> out@[j]@ == list@[from + j]@,
        decreases to - k,
    {
        out.push(copy_string(&list[k]));
        k += 1;
    }
    assert(views(out@) =~= views(list@).subrange(from as int, to as int));
    out
}

/// What a covering import `matched` suggests for `segments` at `at`: its
/// name for the hint and the replacement text.
///
/// An alias binds its name, so the replacement is the alias plus the
/// remaining segments. A plain `using` opens its namespace, so the covered
/// prefix disappears; covering the whole path it suggests nothing, since it
/// never binds the namespace's own name. Nothing is suggested when the
/// innermost frame mentioning the referenced name (the alias, or the first
/// remaining segment) shadows it, or under [`RootPolicy::Declared`] imports
/// it with the other rooting.
pub open spec fn suggestion(
    policy: RootPolicy,
    scopes: Seq<ScopeFrame>,
    matched: Import,
    segments: Seq<Seq<char>>,
    at: usize,
) -> Option<(Seq<char>, Seq<char>)> {
    let tail = segments.skip(matched.segments.len() as int);
    if !matched.aliased && tail.len() == 0 {
        None
    } else {
        let referenced = if matched.aliased {
            matched.short@
        } else {
            tail[0]
        };
        let blocked = match innermost_mention(scopes, scopes.len() as int, referenced, at) {
            Some(g) => shadows(scopes[g], referenced, views(matched.segments@), at) || (policy
                == RootPolicy::Declared && rooting_conflict(scopes[g], referenced, matched.absolute)),
            None => false,
        };
        if blocked {
            None
        } else if !matched.aliased {
            Some((matched.short@, join_spec(tail, "."@)))
        } else if tail.len() == 0 {
            Some((matched.short@, matched.short@))
        } else {
            Some((matched.short@, matched.short@ + "."@ + join_spec(tail, "."@)))
        }
    }
}

/// The suggestion of the import `(f, k)` for `segments` at `at`.
fn suggestion_under(policy: RootPolicy, scopes: &Vec<ScopeFrame>, f: usize, k: usize, segments: &Vec<String>, at: usize) -> (r:
    Option<(String, String)>)
    requires
        f < scopes.len(),
        k < scopes[f as int].imports.len(),
        scopes[f as int].imports[k as int].segments.len() <= segments.len(),
    ensures
        r matches Some(p) ==> suggestion(policy, scopes@, scopes[f as int].imports[k as int], views(segments@), at)
            == Some((p.0@, p.1@)),
        r is None ==> suggestion(policy, scopes@, scopes[f as int].imports[k as int], views(segments@), at) is None,
{
    let matched = &scopes[f].imports[k];
    let tail = slice_strings(segments, matched.segments.len(), segments.len());
    let ghost segs = views(segments@);
    assert(views(tail@) =~= segs.skip(matched.segments.len() as int));
    if !matched.aliased && tail.len() == 0 {
        return None;
    }
    let referenced = if matched.aliased {
        copy_string(&matched.short)
    } else {
        copy_string(&tail[0])
    };
    assert(matched.aliased ==> referenced@ == matched.short@);
    assert(!matched.aliased ==> referenced@ == views(tail@)[0]);
    let blocked = match innermost_mentioning(scopes, referenced.as_str(), at) {
        Some(g) => frame_shadows(&scopes[g], referenced.as_str(), &matched.segments, at) || (policy
            == RootPolicy::Declared && frame_rooting_conflict(&scopes[g], referenced.as_str(), matched.absolute)),
        None => false,
    };
    if blocked {
        return None;
    }
    let replacement = if !matched.aliased {
        join(&tail, ".")
    } else if tail.len() == 0 {
        copy_string(&matched.short)
    } else {
        let mut s = copy_string(&matched.short);
        push_str(&mut s, ".");
        let joined = join(&tail, ".");
        push_str(&mut s, joined.as_str());
        s
    };
    Some((copy_string(&matched.short), replacement))
}

/// The missing-import advice for `segments` at `at`, or `None` when the
/// name it would introduce is already mentioned.
///
/// Expressions import only through the root's immediate member, since
/// later segments may be types or static properties; type positions import
/// through the parent of the last segment.
pub open spec fn missing(
    policy: RootPolicy,
    scopes: Seq<ScopeFrame>,
    segments: Seq<Seq<char>>,
    prefix: Seq<char>,
    member_access: bool,
    at: usize,
) -> Option<Seq<char>> {
    let n = if member_access {
        2
    } else {
        segments.len() as int
    };
    let short = segments[n - 1];
    if any_mentions(scopes, short, at) {
        None
    } else {
        let replacement = join_spec(segments.subrange(n - 1, segments.len() as int), "."@);
        let head = match policy {
            RootPolicy::Declared => prefix + join_spec(segments.subrange(0, n - 1), "."@),
            RootPolicy::Open => join_spec(segments.subrange(0, n), "."@),
        };
        Some(missing_advice(policy, head, short, replacement))
    }
}

fn missing_import_advice(
    policy: RootPolicy,
    scopes: &Vec<ScopeFrame>,
    segments: &Vec<String>,
    prefix: &str,
    member_access: bool,
    at: usize,
) -> (r: Option<String>)
    requires
        segments.len() >= 2,
    ensures
        r matches Some(a) ==> missing(policy, scopes@, views(segments@), prefix@, member_access, at) == Some(a@),
        r is None ==> missing(policy, scopes@, views(segments@), prefix@, member_access, at) is None,
{
    let n: usize = if member_access {
        2
    } else {
        segments.len()
    };
    let short = segments[n - 1].as_str();
    assert(views(segments@)[n - 1] == short@);
    if any_frame_mentions(scopes, short, at) {
        return None;
    }
    let tail = slice_strings(segments, n - 1, segments.len());
    let replacement = join(&tail, ".");
    let head = match policy {
        RootPolicy::Declared => {
            let front = slice_strings(segments, 0, n - 1);
            let joined = join(&front, ".");
            let mut s = owned(prefix);
            push_str(&mut s, joined.as_str());
            s
        },
        RootPolicy::Open => {
            let front = slice_strings(segments, 0, n);
            join(&front, ".")
        },
    };
    Some(build_missing_advice(policy, head.as_str(), short, replacement.as_str()))
}

/// The kind label and name of the innermost declaration enclosing node
/// `i`. A field names its first declared variable.
pub fn enclosing_item(tree: &SyntaxTree, src: &[u8], i: usize) -> (r: (String, Option<String>))
    requires
        tree_ok(tree, src),
        i < tree.nodes.len(),
    ensures
        (r.0@, opt_view(r.1)) == enclosing_spec(*tree, src@, i),
{
    let mut current = i;
    loop
        invariant
            tree_ok(tree, src),
            current < tree.nodes.len(),
            enclosing_spec(*tree, src@, i) == enclosing_spec(*tree, src@, current),
        decreases current,
    {
        let parent = match tree.nodes[current].parent {
            Some(p) => p,
            None => return (owned("other"), None),
        };
        let is_field = tree.is_kind(parent, "field_declaration") || tree.is_kind(parent, "event_field_declaration");
        let label: Option<&str> = if tree.is_kind(parent, "namespace_declaration") {
            Some("namespace")
        } else if tree.is_kind(parent, "class_declaration") {
            Some("class")
        } else if tree.is_kind(parent, "struct_declaration") {
            Some("struct")
        } else if tree.is_kind(parent, "interface_declaration") {
            Some("interface")
        } else if tree.is_kind(parent, "record_declaration") || tree.is_kind(parent, "record_struct_declaration") {
            Some("record")
        } else if tree.is_kind(parent, "enum_declaration") {
            Some("enum")
        } else if tree.is_kind(parent, "delegate_declaration") {
            Some("delegate")
        } else if tree.is_kind(parent, "method_declaration") || tree.is_kind(parent, "local_function_statement") {
            Some("fn")
        } else if tree.is_kind(parent, "constructor_declaration") {
            Some("constructor")
        } else if tree.is_kind(parent, "destructor_declaration") {
            Some("destructor")
        } else if tree.is_kind(parent, "operator_declaration") || tree.is_kind(
            parent,
            "conversion_operator_declaration",
        ) {
            Some("operator")
        } else if tree.is_kind(parent, "property_declaration") || tree.is_kind(parent, "indexer_declaration") {
            Some("property")
        } else if tree.is_kind(parent, "event_declaration") {
            Some("event")
        } else if is_field {
            Some("const")
        } else {
            None
        };
        match label {
            None => {
                current = parent;
            },
            Some(label) => {
                let name = if str_eq(label, "const") {
                    let mut names = declarator_names(tree, src, parent);
                    if names.len() > 0 {
                        let ghost first = names@[0]@;
                        let n = names.remove(0);
                        assert(n@ == first);
                        Some(n)
                    } else {
                        None
                    }
                } else {
                    match tree.child_by_field(parent, "name") {
                        Some(n) => leaf_text(tree, src, n),
                        None => None,
                    }
                };
                return (owned(label), name);
            },
        }
    }
}

/// Add a binding to the innermost frame.
fn add_binding(w: &mut Walker, name: String, start: usize)
    ensures
        final(w).diagnostics == old(w).diagnostics,
        final(w).policy == old(w).policy,
        final(w).roots == old(w).roots,
        frame_extended(*old(w), *final(w), seq![(name@, start)], Seq::empty()),
{
    let ghost before = w.scopes@;
    match w.scopes.pop() {
        Some(mut frame) => {
            let ghost b0 = frame.bindings@;
            let ghost i0 = frame.imports@;
            frame.bindings.push(Binding { name, start });
            assert(binding_views(frame.bindings@) =~= binding_views(b0) + seq![(name@, start)]);
            assert(frame.imports@ =~= i0 + Seq::<Import>::empty());
            w.scopes.push(frame);
            assert(w.scopes@.drop_last() =~= before.drop_last());
        },
        None => {},
    }
}

/// Add imports to the innermost frame.
fn add_imports(w: &mut Walker, imports: Vec<Import>)
    ensures
        final(w).diagnostics == old(w).diagnostics,
        final(w).policy == old(w).policy,
        final(w).roots == old(w).roots,
        frame_extended(*old(w), *final(w), Seq::empty(), imports@),
{
    let ghost before = w.scopes@;
    match w.scopes.pop() {
        Some(mut frame) => {
            let ghost first = frame.imports@;
            let ghost b0 = frame.bindings@;
            let mut rest = imports;
            while rest.len() > 0
                invariant
                    frame.imports@ + rest@ == first + imports@,
                    frame.bindings@ == b0,
                decreases rest.len(),
            {
                let ghost r = rest@;
                let ghost f = frame.imports@;
                let import = rest.remove(0);
                frame.imports.push(import);
                assert(r =~= seq![import] + rest@);
                assert(frame.imports@ + rest@ =~= f + r);
            }
            assert(frame.imports@ =~= first + imports@);
            assert(binding_views(frame.bindings@) =~= binding_views(b0) + Seq::empty());
            w.scopes.push(frame);
            assert(w.scopes@.drop_last() =~= before.drop_last());
        },
        None => {},
    }
}

/// Record a `using` directive into the innermost frame. Under
/// [`RootPolicy::Declared`] an alias whose target yields no import still
/// binds its name, so it never passes for a namespace root.
fn record_use(w: &mut Walker, tree: &SyntaxTree, src: &[u8], i: usize)
    requires
        tree_ok(tree, src),
        i < tree.nodes.len(),
    ensures
        final(w).diagnostics == old(w).diagnostics,
        final(w).policy == old(w).policy,
        final(w).roots == old(w).roots,
        exists|imports: Seq<Import>, statics: Seq<Vec<String>>|
            #[trigger] usings_spec(*tree, src@, i, old(w).policy, imports, statics) && frame_extended(
                *old(w),
                *final(w),
                if old(w).policy == RootPolicy::Declared && imports.len() == 0 {
                    named_at(using_alias(*tree, src@, i), 0)
                } else {
                    Seq::empty()
                },
                imports,
            ),
{
    let ghost w0 = *w;
    let (imports, _statics) = collect_usings(tree, src, i, w.policy);
    let ghost imps = imports@;
    let ghost names = if w.policy == RootPolicy::Declared && imports.len() == 0 {
        named_at(using_alias(*tree, src@, i), 0)
    } else {
        Seq::empty()
    };
    if w.policy == RootPolicy::Declared && imports.len() == 0 {
        let alias = match tree.child_by_field(i, "name") {
            Some(a) => leaf_text(tree, src, a),
            None => None,
        };
        if let Some(name) = alias {
            add_binding(w, name, 0);
        } else {
            proof {
                lemma_frame_extended_refl(*w);
            }
        }
    } else {
        proof {
            lemma_frame_extended_refl(*w);
        }
    }
    let ghost w1 = *w;
    assert(frame_extended(w0, w1, names, Seq::empty()));
    add_imports(w, imports);
    proof {
        lemma_frame_extended_trans(w0, w1, *w, names, Seq::empty(), Seq::empty(), imps);
        assert(names + Seq::empty() =~= names);
        assert(Seq::<Import>::empty() + imps =~= imps);
        assert(usings_spec(*tree, src@, i, w0.policy, imps, _statics@));
    }
}

/// Record a declaration's own name into the innermost frame, visible
/// throughout that scope.
fn record_item_name(w: &mut Walker, tree: &SyntaxTree, src: &[u8], i: usize)
    requires
        tree_ok(tree, src),
        i < tree.nodes.len(),
    ensures
        final(w).diagnostics == old(w).diagnostics,
        final(w).policy == old(w).policy,
        final(w).roots == old(w).roots,
        frame_extended(*old(w), *final(w), item_names_spec(*tree, src@, i, old(w).policy), Seq::empty()),
{
    let ghost w0 = *w;
    proof {
        lemma_frame_extended_refl(*w);
    }
    if tree.is_kind(i, "field_declaration") || tree.is_kind(i, "event_field_declaration") {
        let mut names = declarator_names(tree, src, i);
        let ghost total = at_start(views(names@), 0);
        let ghost mut done: Seq<(Seq<char>, usize)> = Seq::empty();
        assert(done + at_start(views(names@), 0) =~= total);
        while names.len() > 0
            invariant
                w.diagnostics == old(w).diagnostics,
                w.policy == old(w).policy,
                w.roots == old(w).roots,
                w0 == *old(w),
                frame_extended(w0, *w, done, Seq::empty()),
                done + at_start(views(names@), 0) == total,
            decreases names.len(),
        {
            let ghost rest = names@;
            let ghost w1 = *w;
            let name = names.remove(0);
            assert(rest =~= seq![name] + names@);
            assert(at_start(views(rest), 0) =~= seq![(name@, 0usize)] + at_start(views(names@), 0));
            add_binding(w, name, 0);
            proof {
                lemma_frame_extended_trans(w0, w1, *w, done, Seq::empty(), seq![(name@, 0usize)], Seq::empty());
                assert(Seq::<Import>::empty() + Seq::<Import>::empty() =~= Seq::<Import>::empty());
                assert(done + seq![(name@, 0usize)] + at_start(views(names@), 0) =~= total);
                done = done + seq![(name@, 0usize)];
            }
        }
        assert(at_start(views(names@), 0) =~= Seq::empty());
        assert(done =~= total);
        return;
    }
    let name = if tree.is_kind(i, "namespace_declaration") {
        match tree.child_by_field(i, "name") {
            Some(n) => match w.policy {
                RootPolicy::Declared => leftmost_segment(tree, src, n, RootPolicy::Declared),
                RootPolicy::Open => leaf_text(tree, src, n),
            },
            None => None,
        }
    } else if (w.policy == RootPolicy::Declared && tree.is_kind(i, "extern_alias_directive")) || tree.is_kind(
        i,
        "class_declaration",
    ) || tree.is_kind(i, "struct_declaration") || tree.is_kind(i, "interface_declaration") || tree.is_kind(
        i,
        "record_declaration",
    ) || tree.is_kind(i, "record_struct_declaration") || tree.is_kind(i, "enum_declaration") || tree.is_kind(
        i,
        "enum_member_declaration",
    ) || tree.is_kind(i, "delegate_declaration") || tree.is_kind(i, "method_declaration") || tree.is_kind(
        i,
        "constructor_declaration",
    ) || tree.is_kind(i, "destructor_declaration") || tree.is_kind(i, "operator_declaration") || tree.is_kind(
        i,
        "conversion_operator_declaration",
    ) || tree.is_kind(i, "property_declaration") || tree.is_kind(i, "indexer_declaration") || tree.is_kind(
        i,
        "event_declaration",
    ) || tree.is_kind(i, "local_function_statement") {
        match tree.child_by_field(i, "name") {
            Some(n) => leaf_text(tree, src, n),
            None => None,
        }
    } else {
        None
    };
    assert(named_at(opt_view(name), 0) == item_names_spec(*tree, src@, i, w0.policy));
    if let Some(name) = name {
        add_binding(w, name, 0);
    }
}

/// Record the local designations node `i` introduces.
fn record_bindings(w: &mut Walker, tree: &SyntaxTree, src: &[u8], i: usize)
    requires
        tree_ok(tree, src),
        i < tree.nodes.len(),
    ensures
        final(w).diagnostics == old(w).diagnostics,
        final(w).policy == old(w).policy,
        final(w).roots == old(w).roots,
        frame_extended(*old(w), *final(w), local_bindings_spec(*tree, src@, i, old(w).policy), Seq::empty()),
{
    let ghost w0 = *w;
    let mut names = local_bindings(tree, src, i, w.policy);
    let ghost total = bound_views(names@);
    let ghost mut done: Seq<(Seq<char>, usize)> = Seq::empty();
    proof {
        lemma_frame_extended_refl(*w);
    }
    assert(done + bound_views(names@) =~= total);
    while names.len() > 0
        invariant
            w.diagnostics == old(w).diagnostics,
            w.policy == old(w).policy,
            w.roots == old(w).roots,
            w0 == *old(w),
            frame_extended(w0, *w, done, Seq::empty()),
            done + bound_views(names@) == total,
        decreases names.len(),
    {
        let ghost rest = names@;
        let ghost w1 = *w;
        let (name, start) = names.remove(0);
        assert(rest =~= seq![(name, start)] + names@);
        assert(bound_views(rest) =~= seq![(name@, start)] + bound_views(names@));
        add_binding(w, name, start);
        proof {
            lemma_frame_extended_trans(w0, w1, *w, done, Seq::empty(), seq![(name@, start)], Seq::empty());
            assert(Seq::<Import>::empty() + Seq::<Import>::empty() =~= Seq::<Import>::empty());
            assert(done + seq![(name@, start)] + bound_views(names@) =~= total);
            done = done + seq![(name@, start)];
        }
    }
    assert(bound_views(names@) =~= Seq::empty());
    assert(done =~= total);
}

/// The advice for a qualified path: the suggestion of the covering import
/// (the longest visible `using` that prefixes the path), or, without one,
/// the missing-import advice.
pub open spec fn advice_spec(w: Walker, segs: Seq<Seq<char>>, absolute: bool, member_access: bool, at: usize) -> Option<Seq<char>> {
    let min_len: usize = match w.policy {
        RootPolicy::Declared => 0,
        RootPolicy::Open => 2,
    };
    match cover_spec(w.scopes@, segs, min_len, absolute) {
        Some((f, k)) => match suggestion(w.policy, w.scopes@, w.scopes@[f].imports[k], segs, at) {
            Some((short, replacement)) => Some(covered_advice(w.policy, replacement, short)),
            None => None,
        },
        None => missing(w.policy, w.scopes@, segs, if absolute { "global::"@ } else { ""@ }, member_access, at),
    }
}

/// The chain at node `i` spells out a `global::` root.
pub open spec fn absolute_at(w: Walker, tree: SyntaxTree, i: int) -> bool {
    w.policy == RootPolicy::Declared && (leftmost_name_spec(tree, i as usize) matches Some(n) && kind_is(
        tree,
        n as int,
        "alias_qualified_name"@,
    ))
}

/// Node `i` hangs directly under a namespace declaration (its name).
pub open spec fn names_namespace(tree: SyntaxTree, i: int) -> bool {
    tree.nodes[i].parent matches Some(p) && (kind_is(tree, p as int, "namespace_declaration"@) || kind_is(
        tree,
        p as int,
        "file_scoped_namespace_declaration"@,
    ))
}

/// What the walker reports for the chain head `i`: its segments and advice,
/// when the path is eligible at a representable line.
pub open spec fn occurrence_spec(w: Walker, tree: SyntaxTree, src: Seq<u8>, i: int) -> Option<(Seq<Seq<char>>, Seq<char>)> {
    let absolute = absolute_at(w, tree, i);
    let at = tree.nodes[i].start;
    if names_namespace(tree, i) {
        None
    } else {
        match segments_spec(tree, src, i as usize, w.policy) {
            None => None,
            Some(segs) => if !eligible(w.policy, absolute, segs, views(w.roots@), w.scopes@, at) || tree.nodes[i].row
                >= usize::MAX - 1 {
                None
            } else {
                match advice_spec(w, segs, absolute, kind_is(tree, i, "member_access_expression"@), at) {
                    Some(advice) => Some((segs, advice)),
                    None => None,
                }
            },
        }
    }
}

/// `d` is the hint the walker reports for the chain head `i`.
pub open spec fn occurrence_hint(w: Walker, tree: SyntaxTree, src: Seq<u8>, i: int, d: Diagnostic) -> bool {
    match occurrence_spec(w, tree, src, i) {
        None => false,
        Some((segs, advice)) => {
            let prefix = if absolute_at(w, tree, i) { "global::"@ } else { ""@ };
            &&& d.severity == Severity::Hint
            &&& d.code@ == CODE_QUALIFIED_PATH@
            &&& opt_view(d.title) == match w.policy {
                RootPolicy::Declared => Some("full namespace qualification in code"@),
                RootPolicy::Open => None,
            }
            &&& d.message@ == hint_message(w.policy, prefix + join_spec(segs, "."@), advice)
            &&& d.line == tree.nodes[i].row + 1
            &&& (d.item_kind@, opt_view(d.item_name)) == enclosing_spec(tree, src, i as usize)
        }
    }
}

/// Record one chain head as a hint when it is eligible and has advice.
fn record_occurrence(w: &mut Walker, tree: &SyntaxTree, src: &[u8], i: usize)
    requires
        tree_ok(tree, src),
        i < tree.nodes.len(),
        all_hints(old(w).diagnostics@),
    ensures
        all_hints(final(w).diagnostics@),
        final(w).policy == old(w).policy,
        final(w).roots == old(w).roots,
        final(w).scopes == old(w).scopes,
        occurrence_spec(*old(w), *tree, src@, i as int) is None ==> final(w).diagnostics@ == old(w).diagnostics@,
        occurrence_spec(*old(w), *tree, src@, i as int) is Some ==> {
            &&& final(w).diagnostics@.len() == old(w).diagnostics@.len() + 1
            &&& final(w).diagnostics@.drop_last() == old(w).diagnostics@
            &&& occurrence_hint(*old(w), *tree, src@, i as int, final(w).diagnostics@.last())
        },
{
    if let Some(p) = tree.nodes[i].parent {
        if tree.is_kind(p, "namespace_declaration") || tree.is_kind(p, "file_scoped_namespace_declaration") {
            return;
        }
    }
    let segments = match name_segments(tree, src, i, w.policy) {
        Some(s) => s,
        None => return,
    };
    let absolute = w.policy == RootPolicy::Declared && is_absolute(tree, i);
    let at = tree.nodes[i].start;
    if !is_eligible(w, absolute, &segments, at) {
        return;
    }
    if tree.nodes[i].row >= usize::MAX - 1 {
        return;
    }
    let line = tree.nodes[i].row + 1;
    let (kind, name) = enclosing_item(tree, src, i);
    let prefix = if absolute {
        "global::"
    } else {
        ""
    };
    let mut path = owned(prefix);
    let joined = join(&segments, ".");
    push_str(&mut path, joined.as_str());
    let min_len: usize = match w.policy {
        RootPolicy::Declared => 0,
        RootPolicy::Open => 2,
    };
    let advice = match covering_import(&w.scopes, &segments, min_len, absolute) {
        Some((f, k)) => match suggestion_under(w.policy, &w.scopes, f, k, &segments, at) {
            Some((short, replacement)) => Some(
                build_covered_advice(w.policy, replacement.as_str(), short.as_str()),
            ),
            None => None,
        },
        None => missing_import_advice(
            w.policy,
            &w.scopes,
            &segments,
            prefix,
            tree.is_kind(i, "member_access_expression"),
            at,
        ),
    };
    if let Some(advice) = advice {
        let message = build_message(w.policy, path.as_str(), advice.as_str());
        let title = match w.policy {
            RootPolicy::Declared => Some(owned("full namespace qualification in code")),
            RootPolicy::Open => None,
        };
        let d = Diagnostic {
            severity: Severity::Hint,
            code: CODE_QUALIFIED_PATH,
            title,
            message,
            line,
            item_kind: kind,
            item_name: name,
        };
        w.diagnostics.push(d);
        assert(all_hints(w.diagnostics@)) by {
            assert forall|j: int| 0 <= j < w.diagnostics@.len() implies #[trigger] w.diagnostics@[j].code@
                == CODE_QUALIFIED_PATH@ && w.diagnostics@[j].severity == Severity::Hint
                && w.diagnostics@[j].line >= 1 by {
                if j < w.diagnostics@.len() - 1 {
                    assert(w.diagnostics@[j] == old(w).diagnostics@[j]);
                }
            }
        }
    }
}

/// A method-like declaration whose body holds a preprocessor region.
fn is_conditional_method(tree: &SyntaxTree, i: usize) -> (r: bool)
    requires
        tree.wf(),
        i < tree.nodes.len(),
    ensures
        r == (method_like(*tree, i as int) && subtree_any(*tree, i as int, preproc_conditionals(*tree))),
{
    (tree.is_kind(i, "method_declaration") || tree.is_kind(i, "constructor_declaration") || tree.is_kind(
        i,
        "destructor_declaration",
    ) || tree.is_kind(i, "operator_declaration") || tree.is_kind(i, "conversion_operator_declaration")
        || tree.is_kind(i, "local_function_statement")) && contains_conditional(tree, i)
}

/// Node `i` heads a preprocessor conditional (`#if` and its branches).
pub open spec fn conditional_kind(tree: SyntaxTree, i: int) -> bool {
    "preproc_if"@.len() <= tree.nodes[i].kind@.len() && tree.nodes[i].kind@.take("preproc_if"@.len() as int) == "preproc_if"@
}

/// The walker passes over node `i` and its subtree: preprocessor regions,
/// methods holding one, `using` text and attributes.
pub open spec fn exempt(tree: SyntaxTree, i: int, policy: RootPolicy) -> bool {
    ||| conditional_kind(tree, i)
    ||| (method_like(tree, i) && subtree_any(tree, i, preproc_conditionals(tree)))
    ||| kind_is(tree, i, "using_directive"@)
    ||| kind_is(tree, i, "attribute_list"@)
    ||| (policy == RootPolicy::Declared && kind_is(tree, i, "global_attribute"@))
}

/// `b` is `a` with one empty innermost frame pushed.
pub open spec fn frame_pushed(a: Walker, b: Walker) -> bool {
    &&& b.policy == a.policy
    &&& b.roots == a.roots
    &&& b.diagnostics == a.diagnostics
    &&& b.scopes.len() == a.scopes.len() + 1
    &&& b.scopes@.drop_last() == a.scopes@
    &&& b.scopes@.last().imports.len() == 0
    &&& b.scopes@.last().bindings.len() == 0
}

/// `b` is `a` with the `using` directive `c` recorded in its innermost
/// frame: its imports, or, without any, the alias it declares.
pub open spec fn use_recorded(a: Walker, b: Walker, tree: SyntaxTree, src: Seq<u8>, c: usize) -> bool {
    &&& b.diagnostics == a.diagnostics
    &&& b.policy == a.policy
    &&& b.roots == a.roots
    &&& exists|imports: Seq<Import>, statics: Seq<Vec<String>>|
        #[trigger] usings_spec(tree, src, c, a.policy, imports, statics) && frame_extended(
            a,
            b,
            if a.policy == RootPolicy::Declared && imports.len() == 0 {
                named_at(using_alias(tree, src, c), 0)
            } else {
                Seq::empty()
            },
            imports,
        )
}

/// `b` is `a` with the child `c` of a scope node recorded: the names it
/// declares, and, for a `using` directive, its imports.
pub open spec fn kid_recorded(a: Walker, b: Walker, tree: SyntaxTree, src: Seq<u8>, c: usize) -> bool {
    exists|m: Walker|
        #[trigger] frame_extended(a, m, item_names_spec(tree, src, c, a.policy), Seq::empty()) && if kind_is(
            tree,
            c as int,
            "using_directive"@,
        ) {
            use_recorded(m, b, tree, src, c)
        } else {
            b == m
        }
}

/// `b` is `a` with the children `kids` of a scope node recorded in order.
pub open spec fn kids_recorded(a: Walker, b: Walker, tree: SyntaxTree, src: Seq<u8>, kids: Seq<usize>) -> bool
    decreases kids.len(),
{
    if kids.len() == 0 {
        b == a
    } else {
        exists|m: Walker| kids_recorded(a, m, tree, src, kids.drop_last()) && #[trigger] kid_recorded(m, b, tree, src, kids.last())
    }
}

/// `b` is `a` after the chain head `i`, if it is one, was reported.
pub open spec fn occurrence_recorded(a: Walker, b: Walker, tree: SyntaxTree, src: Seq<u8>, i: int) -> bool {
    &&& b.policy == a.policy
    &&& b.roots == a.roots
    &&& b.scopes == a.scopes
    &&& if chain_kind(tree, i) && (match tree.nodes[i].parent {
        Some(p) => !chain_kind(tree, p as int),
        None => true,
    }) && occurrence_spec(a, tree, src, i) is Some {
        &&& b.diagnostics@.len() == a.diagnostics@.len() + 1
        &&& b.diagnostics@.drop_last() == a.diagnostics@
        &&& occurrence_hint(a, tree, src, i, b.diagnostics@.last())
    } else {
        b.diagnostics@ == a.diagnostics@
    }
}

/// `b` is `a` on entering the non-exempt node `i`: a frame pushed for a
/// scope with its children's declarations and `using`s, then the node's
/// own bindings, then its hint if it heads a chain.
pub open spec fn entered(a: Walker, b: Walker, tree: SyntaxTree, src: Seq<u8>, i: int) -> bool {
    exists|m1: Walker, m2: Walker|
        #![trigger frame_extended(m1, m2, local_bindings_spec(tree, src, i as usize, a.policy), Seq::empty())]
        (if scope_kind(tree, i) {
            exists|p: Walker| #[trigger] frame_pushed(a, p) && kids_recorded(p, m1, tree, src, named_children_spec(tree, i as usize))
        } else {
            m1 == a
        }) && frame_extended(m1, m2, local_bindings_spec(tree, src, i as usize, a.policy), Seq::empty())
            && occurrence_recorded(m2, b, tree, src, i)
}

/// `b` is `a` after leaving node `i`: the frame it pushed popped, unless
/// it was the only one.
pub open spec fn left(a: Walker, b: Walker, tree: SyntaxTree, i: int) -> bool {
    if scope_kind(tree, i) && a.scopes.len() > 1 {
        &&& b.policy == a.policy
        &&& b.roots == a.roots
        &&& b.diagnostics == a.diagnostics
        &&& b.scopes@ == a.scopes@.drop_last()
    } else {
        b == a
    }
}

/// `b` is `a` after walking the subtree of node `i`.
pub open spec fn walked(a: Walker, b: Walker, tree: SyntaxTree, src: Seq<u8>, i: int) -> bool
    decreases tree.nodes.len() - i, 1int, 0int,
{
    if exempt(tree, i, a.policy) {
        b == a
    } else {
        exists|m: Walker, n: Walker|
            #![trigger entered(a, m, tree, src, i), left(n, b, tree, i)]
            entered(a, m, tree, src, i) && walked_kids(m, n, tree, src, i, named_children_spec(tree, i as usize))
                && left(n, b, tree, i)
    }
}

/// `a` and `b` run under the same policy and standard roots.
pub open spec fn same_setting(a: Walker, b: Walker) -> bool {
    a.policy == b.policy && a.roots == b.roots
}

/// `b` is `a` after walking the subtrees of the children `kids` of node
/// `i` in order.
pub open spec fn walked_kids(a: Walker, b: Walker, tree: SyntaxTree, src: Seq<u8>, i: int, kids: Seq<usize>) -> bool
    decreases tree.nodes.len() - i, 0int, kids.len(),
{
    if kids.len() == 0 {
        b == a
    } else if i < kids.last() < tree.nodes.len() {
        exists|m: Walker|
            #[trigger] same_setting(m, b) && walked_kids(a, m, tree, src, i, kids.drop_last()) && walked(
                m,
                b,
                tree,
                src,
                kids.last() as int,
            )
    } else {
        false
    }
}

/// A reported chain head is a recorded occurrence.
proof fn lemma_occurrence_reported(a: Walker, b: Walker, tree: SyntaxTree, src: Seq<u8>, i: int)
    requires
        chain_kind(tree, i),
        match tree.nodes[i].parent {
            Some(p) => !chain_kind(tree, p as int),
            None => true,
        },
        occurrence_spec(a, tree, src, i) is Some,
        b.diagnostics@.len() == a.diagnostics@.len() + 1,
        b.diagnostics@.drop_last() == a.diagnostics@,
        occurrence_hint(a, tree, src, i, b.diagnostics@.last()),
        b.policy == a.policy,
        b.roots == a.roots,
        b.scopes == a.scopes,
    ensures
        occurrence_recorded(a, b, tree, src, i),
{
}

/// Recording one more child extends the record of those before it.
proof fn lemma_kids_step(a: Walker, m: Walker, b: Walker, tree: SyntaxTree, src: Seq<u8>, kids: Seq<usize>)
    requires
        kids.len() > 0,
        kids_recorded(a, m, tree, src, kids.drop_last()),
        kid_recorded(m, b, tree, src, kids.last()),
    ensures
        kids_recorded(a, b, tree, src, kids),
{
}

/// Walking one more child extends the walk of those before it.
proof fn lemma_walked_kids_step(a: Walker, m: Walker, b: Walker, tree: SyntaxTree, src: Seq<u8>, i: int, kids: Seq<usize>)
    requires
        kids.len() > 0,
        i < kids.last() < tree.nodes.len(),
        same_setting(m, b),
        walked_kids(a, m, tree, src, i, kids.drop_last()),
        walked(m, b, tree, src, kids.last() as int),
    ensures
        walked_kids(a, b, tree, src, i, kids),
{
}

/// Walk the subtree of node `i`: maintain scopes, record occurrences, and
/// skip exempt spans.
fn walk(w: &mut Walker, tree: &SyntaxTree, src: &[u8], i: usize)
    requires
        tree_ok(tree, src),
        i < tree.nodes.len(),
        all_hints(old(w).diagnostics@),
    ensures
        all_hints(final(w).diagnostics@),
        final(w).policy == old(w).policy,
        final(w).roots == old(w).roots,
        walked(*old(w), *final(w), *tree, src@, i as int),
    decreases tree.nodes.len() - i,
{
    let ghost w0 = *w;
    if is_conditional(tree, i) || is_conditional_method(tree, i) {
        return;
    }
    if tree.is_kind(i, "using_directive") || tree.is_kind(i, "attribute_list") || (w.policy
        == RootPolicy::Declared && tree.is_kind(i, "global_attribute")) {
        return;
    }
    assert(!exempt(*tree, i as int, w0.policy));
    let pushed = is_scope(tree, i);
    let ghost mut wp = w0;
    if pushed {
        w.scopes.push(ScopeFrame::new());
        proof {
            wp = *w;
            assert(w.scopes@.drop_last() =~= w0.scopes@);
            assert(frame_pushed(w0, wp));
        }
        let kids = tree.named_children(i);
        let mut k: usize = 0;
        proof {
            assert(kids@.take(0) =~= Seq::<usize>::empty());
        }
        while k < kids.len()
            invariant
                tree_ok(tree, src),
                all_hints(w.diagnostics@),
                w.policy == old(w).policy,
                w.roots == old(w).roots,
                wp.policy == old(w).policy,
                k <= kids.len(),
                kids@ == named_children_spec(*tree, i),
                kids_recorded(wp, *w, *tree, src@, kids@.take(k as int)),
                forall|j: int| #![trigger kids@[j]] 0 <= j < kids.len() ==> i < kids@[j] < tree.nodes.len(),
            decreases kids.len() - k,
        {
            let c = kids[k];
            let ghost before = *w;
            record_item_name(w, tree, src, c);
            let ghost mid = *w;
            if tree.is_kind(c, "using_directive") {
                record_use(w, tree, src, c);
            }
            proof {
                assert(kid_recorded(before, *w, *tree, src@, c));
                assert(kids@.take(k + 1).drop_last() =~= kids@.take(k as int));
                assert(kids@.take(k + 1).last() == c);
                lemma_kids_step(wp, before, *w, *tree, src@, kids@.take(k + 1));
            }
            k += 1;
        }
        proof {
            assert(kids@.take(k as int) =~= kids@);
        }
    }
    let ghost w1 = *w;
    record_bindings(w, tree, src, i);
    let ghost w2 = *w;
    let head = is_chain_head(tree, i);
    if head {
        record_occurrence(w, tree, src, i);
    }
    proof {
        if head {
            if occurrence_spec(w2, *tree, src@, i as int) is Some {
                lemma_occurrence_reported(w2, *w, *tree, src@, i as int);
                assert(occurrence_recorded(w2, *w, *tree, src@, i as int));
            } else {
                assert(occurrence_recorded(w2, *w, *tree, src@, i as int));
            }
        } else {
            assert(*w == w2);
            assert(occurrence_recorded(w2, *w, *tree, src@, i as int));
        }
        if pushed {
            assert(exists|p: Walker| #[trigger] frame_pushed(w0, p) && kids_recorded(p, w1, *tree, src@, named_children_spec(*tree, i)));
        }
        assert(entered(w0, *w, *tree, src@, i as int));
    }
    let ghost w3 = *w;
    let kids = tree.named_children(i);
    let mut k: usize = 0;
    proof {
        assert(kids@.take(0) =~= Seq::<usize>::empty());
    }
    while k < kids.len()
        invariant
            tree_ok(tree, src),
            i < tree.nodes.len(),
            all_hints(w.diagnostics@),
            w.policy == old(w).policy,
            w.roots == old(w).roots,
            k <= kids.len(),
            kids@ == named_children_spec(*tree, i),
            walked_kids(w3, *w, *tree, src@, i as int, kids@.take(k as int)),
            forall|j: int| #![trigger kids@[j]] 0 <= j < kids.len() ==> i < kids@[j] < tree.nodes.len(),
        decreases kids.len() - k,
    {
        let ghost before = *w;
        walk(w, tree, src, kids[k]);
        proof {
            assert(kids@.take(k + 1).drop_last() =~= kids@.take(k as int));
            assert(kids@.take(k + 1).last() == kids@[k as int]);
            assert(walked_kids(w3, before, *tree, src@, i as int, kids@.take(k + 1).drop_last()));
            assert(i < kids@[k as int] < tree.nodes.len());
            lemma_walked_kids_step(w3, before, *w, *tree, src@, i as int, kids@.take(k + 1));
        }
        k += 1;
    }
    proof {
        assert(kids@.take(k as int) =~= kids@);
    }
    let ghost w4 = *w;
    if pushed && w.scopes.len() > 1 {
        w.scopes.pop();
        proof {
            assert(w.scopes@ =~= w4.scopes@.drop_last());
        }
    }
    proof {
        assert(left(w4, *w, *tree, i as int));
        assert(walked(w0, *w, *tree, src@, i as int));
    }
}

/// Gather the namespace components that could make a standard root
/// relative: every component of a nested namespace's name, and all but the
/// first of a top-level one, without `@` escapes.
fn collect_relative_roots(tree: &SyntaxTree, src: &[u8], i: usize, roots: &mut Vec<String>)
    requires
        tree_ok(tree, src),
        i < tree.nodes.len(),
    ensures
        views(final(roots)@) == views(old(roots)@) + relative_roots_spec(*tree, src@, i as int),
    decreases tree.nodes.len() - i,
{
    let ghost r0 = views(roots@);
    let ghost own = if namespace_kind(*tree, i as int) {
        match field_child(*tree, i as int, "name"@) {
            Some(n) => match segments_spec(*tree, src@, n as usize, RootPolicy::Declared) {
                Some(segs) => {
                    let top = match tree.nodes[i as int].parent {
                        Some(p) => kind_is(*tree, p as int, "compilation_unit"@),
                        None => false,
                    };
                    let from: int = if top {
                        1
                    } else {
                        0
                    };
                    if from <= segs.len() {
                        segs.skip(from).map_values(|x: Seq<char>| strip_leading_spec(x, '@'))
                    } else {
                        Seq::empty()
                    }
                },
                None => Seq::empty(),
            },
            None => Seq::empty(),
        }
    } else {
        Seq::empty()
    };
    if tree.is_kind(i, "namespace_declaration") || tree.is_kind(i, "file_scoped_namespace_declaration") {
        if let Some(name) = tree.child_by_field(i, "name") {
            if let Some(segments) = name_segments(tree, src, name, RootPolicy::Declared) {
                let top_level = match tree.nodes[i].parent {
                    Some(p) => tree.is_kind(p, "compilation_unit"),
                    None => false,
                };
                let mut k: usize = if top_level {
                    1
                } else {
                    0
                };
                let from = k;
                let ghost segs = views(segments@);
                assert(segments.len() >= 1);
                assert(own =~= segs.skip(from as int).map_values(|x: Seq<char>| strip_leading_spec(x, '@')));
                assert(segs.skip(from as int).subrange(0, 0) =~= Seq::<Seq<char>>::empty());
                while k < segments.len()
                    invariant
                        from <= k <= segments.len(),
                        segs == views(segments@),
                        views(roots@) == r0 + segs.skip(from as int).subrange(0, k - from).map_values(
                            |x: Seq<char>| strip_leading_spec(x, '@'),
                        ),
                    decreases segments.len() - k,
                {
                    let ghost before = views(roots@);
                    roots.push(strip_leading(segments[k].as_str(), '@'));
                    assert(segs.skip(from as int).subrange(0, k + 1 - from) =~= segs.skip(from as int).subrange(
                        0,
                        k - from,
                    ).push(segs[k as int]));
                    assert(views(roots@) =~= before.push(strip_leading_spec(segs[k as int], '@')));
                    assert(views(roots@) =~= r0 + segs.skip(from as int).subrange(0, k + 1 - from).map_values(
                        |x: Seq<char>| strip_leading_spec(x, '@'),
                    ));
                    k += 1;
                }
                assert(segs.skip(from as int).subrange(0, k - from) =~= segs.skip(from as int));
            } else {
                assert(own =~= Seq::empty());
            }
        } else {
            assert(own =~= Seq::empty());
        }
    } else {
        assert(own =~= Seq::empty());
    }
    assert(views(roots@) =~= r0 + own);
    let ghost mid = views(roots@);
    let kids = tree.named_children(i);
    let mut k: usize = 0;
    assert(kids@.skip(0) =~= kids@);
    assert(views(roots@) + relative_kids(*tree, src@, kids@, i as int) =~= r0 + relative_roots_spec(*tree, src@, i as int));
    while k < kids.len()
        invariant
            tree_ok(tree, src),
            i < tree.nodes.len(),
            k <= kids.len(),
            forall|j: int| #![trigger kids@[j]] 0 <= j < kids.len() ==> i < kids@[j] < tree.nodes.len(),
            views(roots@) + relative_kids(*tree, src@, kids@.skip(k as int), i as int) == r0 + relative_roots_spec(
                *tree,
                src@,
                i as int,
            ),
        decreases kids.len() - k,
    {
        let c = kids[k];
        assert(kids@.skip(k as int)[0] == c);
        assert(kids@.skip(k as int).drop_first() =~= kids@.skip(k + 1));
        let ghost before = views(roots@);
        let ghost rest = relative_kids(*tree, src@, kids@.skip(k + 1), i as int);
        collect_relative_roots(tree, src, c, roots);
        assert(views(roots@) + rest =~= before + (relative_roots_spec(*tree, src@, c as int) + rest));
        k += 1;
    }
    assert(views(roots@) + relative_kids(*tree, src@, kids@.skip(k as int), i as int) =~= views(roots@));
}

/// Gather the roots the file shows: the first segment of every `using`
/// path (static ones included), of every namespace declaration's name, and
/// of every qualified type name.
fn collect_roots(tree: &SyntaxTree, src: &[u8], i: usize, roots: &mut Vec<String>)
    requires
        tree_ok(tree, src),
        i < tree.nodes.len(),
    ensures
        views(final(roots)@) == views(old(roots)@) + roots_spec(*tree, src@, i as int),
    decreases tree.nodes.len() - i,
{
    let ghost r0 = views(roots@);
    let is_namespace = tree.is_kind(i, "namespace_declaration") || tree.is_kind(
        i,
        "file_scoped_namespace_declaration",
    );
    if tree.is_kind(i, "qualified_name") || is_namespace {
        let name = if is_namespace {
            match tree.child_by_field(i, "name") {
                Some(n) => n,
                None => i,
            }
        } else {
            i
        };
        if let Some(first) = leftmost_segment(tree, src, name, RootPolicy::Open) {
            roots.push(first);
        }
    }
    let ghost own = if kind_is(*tree, i as int, "qualified_name"@) || namespace_kind(*tree, i as int) {
        let name = if namespace_kind(*tree, i as int) {
            match field_child(*tree, i as int, "name"@) {
                Some(n) => n,
                None => i as int,
            }
        } else {
            i as int
        };
        opt_seq(leftmost_segment_spec(*tree, src@, name as usize, RootPolicy::Open))
    } else {
        Seq::empty()
    };
    assert(views(roots@) =~= r0 + own);
    let ghost mid = views(roots@);
    if tree.is_kind(i, "using_directive") {
        let (imports, statics) = collect_usings(tree, src, i, RootPolicy::Open);
        let ghost paths = using_path_open(*tree, src@, i);
        let mut k: usize = 0;
        while k < imports.len()
            invariant
                k <= imports.len(),
                imports.len() <= 1,
                imports.len() == 1 ==> paths.len() == 1 && views(imports@[0].segments@) == paths[0],
                k == 0 ==> views(roots@) == mid,
                k == 1 ==> views(roots@) == mid + first_segments(paths),
            decreases imports.len() - k,
        {
            assert(paths.drop_first() =~= Seq::<Seq<Seq<char>>>::empty());
            assert(first_segments(paths.drop_first()) =~= Seq::empty());
            assert(k == 0);
            assert(views(imports@[0].segments@).len() == imports@[0].segments.len());
            if imports[k].segments.len() > 0 {
                assert(views(imports@[0].segments@)[0] == imports@[0].segments@[0]@);
                roots.push(copy_string(&imports[k].segments[0]));
                assert(views(roots@) =~= mid + first_segments(paths));
            } else {
                assert(views(roots@) =~= mid + first_segments(paths));
            }
            k += 1;
        }
        let ghost mid2 = views(roots@);
        let mut k: usize = 0;
        while k < statics.len()
            invariant
                k <= statics.len(),
                statics.len() <= 1,
                statics.len() == 1 ==> paths.len() == 1 && views(statics@[0]@) == paths[0],
                k == 0 ==> views(roots@) == mid2,
                k == 1 ==> views(roots@) == mid2 + first_segments(paths),
            decreases statics.len() - k,
        {
            assert(paths.drop_first() =~= Seq::<Seq<Seq<char>>>::empty());
            assert(first_segments(paths.drop_first()) =~= Seq::empty());
            assert(k == 0);
            assert(views(statics@[0]@).len() == statics@[0].len());
            if statics[k].len() > 0 {
                assert(views(statics@[0]@)[0] == statics@[0]@[0]@);
                roots.push(copy_string(&statics[k][0]));
                assert(views(roots@) =~= mid2 + first_segments(paths));
            } else {
                assert(views(roots@) =~= mid2 + first_segments(paths));
            }
            k += 1;
        }
        assert(imports.len() + statics.len() <= 1);
        assert(imports.len() + statics.len() == 0 ==> first_segments(paths) =~= Seq::<Seq<char>>::empty());
        assert(views(roots@) =~= r0 + roots_spec(*tree, src@, i as int));
        return;
    }
    let kids = tree.named_children(i);
    let mut k: usize = 0;
    assert(kids@.skip(0) =~= kids@);
    assert(views(roots@) + roots_kids(*tree, src@, kids@, i as int) =~= r0 + roots_spec(*tree, src@, i as int));
    while k < kids.len()
        invariant
            tree_ok(tree, src),
            i < tree.nodes.len(),
            k <= kids.len(),
            forall|j: int| #![trigger kids@[j]] 0 <= j < kids.len() ==> i < kids@[j] < tree.nodes.len(),
            views(roots@) + roots_kids(*tree, src@, kids@.skip(k as int), i as int) == r0 + roots_spec(
                *tree,
                src@,
                i as int,
            ),
        decreases kids.len() - k,
    {
        let c = kids[k];
        assert(kids@.skip(k as int)[0] == c);
        assert(kids@.skip(k as int).drop_first() =~= kids@.skip(k + 1));
        let ghost before = views(roots@);
        let ghost rest = roots_kids(*tree, src@, kids@.skip(k + 1), i as int);
        collect_roots(tree, src, c, roots);
        assert(views(roots@) + rest =~= before + (roots_spec(*tree, src@, c as int) + rest));
        k += 1;
    }
    assert(views(roots@) + roots_kids(*tree, src@, kids@.skip(k as int), i as int) =~= views(roots@));
}

/// Run the walker under `policy`.
/// The standard roots a walk of the file starts from: under declared
/// roots, the namespace components that could make one relative; under
/// open roots, `System`, `Microsoft` and the roots the file shows.
pub open spec fn start_roots(tree: SyntaxTree, src: Seq<u8>, policy: RootPolicy) -> Seq<Seq<char>> {
    match policy {
        RootPolicy::Declared => relative_roots_spec(tree, src, 0),
        RootPolicy::Open => seq!["System"@, "Microsoft"@] + roots_spec(tree, src, 0),
    }
}

/// `r` is what a walk of the whole file reports under `policy`: a walker
/// with the file's standard roots, no frames and no hints, walked from the
/// root node.
pub open spec fn file_hints(tree: SyntaxTree, src: Seq<u8>, policy: RootPolicy, r: Seq<Diagnostic>) -> bool {
    exists|a: Walker, b: Walker|
        #[trigger] walked(a, b, tree, src, 0) && a.policy == policy && views(a.roots@) == start_roots(tree, src, policy)
            && a.scopes.len() == 0 && a.diagnostics.len() == 0 && r == b.diagnostics@
}

fn run(tree: &SyntaxTree, src: &[u8], policy: RootPolicy) -> (r: Vec<Diagnostic>)
    requires
        tree_ok(tree, src),
    ensures
        all_hints(r@),
        file_hints(*tree, src@, policy, r@),
{
    let mut roots: Vec<String> = Vec::new();
    match policy {
        RootPolicy::Declared => collect_relative_roots(tree, src, 0, &mut roots),
        RootPolicy::Open => {
            roots.push(owned("System"));
            roots.push(owned("Microsoft"));
            proof {
                assert(views(roots@) =~= seq!["System"@, "Microsoft"@]);
            }
            collect_roots(tree, src, 0, &mut roots);
        },
    }
    proof {
        assert(views(Seq::<String>::empty()) =~= Seq::<Seq<char>>::empty());
    }
    let mut w = Walker { policy, roots, scopes: Vec::new(), diagnostics: Vec::new() };
    let ghost a = w;
    walk(&mut w, tree, src, 0);
    proof {
        assert(walked(a, w, *tree, src@, 0));
    }
    w.diagnostics
}

/// Hint at each eligible C# path rooted at `global::` or an unshadowed
/// standard namespace, respecting aliases and preprocessor regions.
///
/// # Arguments
///
/// - `tree` - the parsed file.
/// - `src` - the file's bytes.
///
/// # Returns
///
/// One MOD003 hint per reported occurrence, in source order.
pub fn check(tree: &SyntaxTree, src: &[u8]) -> (r: Vec<Diagnostic>)
    requires
        tree.wf(),
        tree.source_len == src@.len(),
    ensures
        all_hints(r@),
        file_hints(*tree, src@, RootPolicy::Declared, r@),
{
    run(tree, src, RootPolicy::Declared)
}

/// Hint at each eligible C# path whose root the file itself shows as a
/// namespace root, suggesting an alias where no import covers it.
///
/// # Arguments
///
/// - `tree` - the parsed file.
/// - `src` - the file's bytes.
///
/// # Returns
///
/// One MOD003 hint per reported occurrence, in source order.
pub fn check_with_open_roots(tree: &SyntaxTree, src: &[u8]) -> (r: Vec<Diagnostic>)
    requires
        tree.wf(),
        tree.source_len == src@.len(),
    ensures
        all_hints(r@),
        file_hints(*tree, src@, RootPolicy::Open, r@),
{
    run(tree, src, RootPolicy::Open)
}

} // verus!
