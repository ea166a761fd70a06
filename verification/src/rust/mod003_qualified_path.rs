//! `MOD003`: hint at fully-qualified Rust paths that an import could shorten.
//!
//! A qualified path spells out where a name lives, such as `std::sync::Arc`.
//! The rule reads the syntax tree and emits hints; it neither rewrites code
//! nor resolves names.
//!
//! The walker keeps a stack of [`ScopeFrame`]s. Entering a scope records the
//! scope's items and `use` imports first, since both are visible before their
//! declaration. Each outermost path chain is then split into segments; the
//! longest visible import that prefixes the path supplies "already imported"
//! advice, and without one the rule suggests an import through the first
//! uppercase-initial segment (a type, whose associated items `use` cannot
//! import).
//!
//! Two root policies decide which paths count as fully qualified:
//!
//! - [`check`]: explicit roots only: `crate`, the standard crates, a leading
//!   `::`, and `extern crate` names in scope. Local names, aliases, globs and
//!   `self`/`super` make a root uncertain.
//! - [`check_with_open_roots`]: any root that starts a `use` path anywhere in
//!   the file, the module keywords, the standard crates, and any lowercase
//!   first segment.
//!
//! Import text, macro and attribute spans, and conditionally compiled items
//! (with their whole containing function) are exempt.
use crate::codes::CODE_QUALIFIED_PATH;
use crate::diagnostic::{Diagnostic, Severity};
use crate::rust::scope::{
    cover_spec, covering_import, frame_mentions, frame_shadows, mentions, Binding, Import, ScopeFrame,
};
use crate::syntax::{
    field_child, first_named, kind_is, kids_any, named_children_spec, node_text, opt_view, prev_named, subtree_any,
    text_of, tree_ok, SyntaxTree,
};
use crate::text::{
    backwards, copy_string, copy_strings, join, join_spec, owned, push_str, reversed, starts_lower, starts_upper,
    str_eq, strings_contain, strings_eq, views, is_lower, is_upper,
};
use vstd::prelude::*;

verus! {

/// Which first segments make a path fully qualified.
#[derive(Clone, Copy, PartialEq, Eq, Structural)]
pub enum RootPolicy {
    /// Explicit roots: `crate`, `std`, `core`, `alloc`, `::`, and `extern crate` names.
    Declared,
    /// Import roots, module keywords, standard crates, and lowercase names.
    Open,
}

/// Every finding is a MOD003 hint on a real line.
pub open spec fn all_hints(ds: Seq<Diagnostic>) -> bool {
    forall|i: int|
        #![trigger ds[i]]
        0 <= i < ds.len() ==> ds[i].code@ == CODE_QUALIFIED_PATH@ && ds[i].severity
            == Severity::Hint && ds[i].line >= 1
}

/// The traversal state: policy, root evidence, scopes, and findings.
pub struct Walker {
    pub policy: RootPolicy,
    pub roots: Vec<String>,
    pub scopes: Vec<ScopeFrame>,
    pub diagnostics: Vec<Diagnostic>,
}

/// Node `i` is a path leaf: an identifier, a type identifier, or one of
/// `crate`, `self`, `super`.
pub open spec fn leaf_kind(tree: SyntaxTree, i: int) -> bool {
    kind_is(tree, i, "identifier"@) || kind_is(tree, i, "type_identifier"@) || kind_is(tree, i, "crate"@)
        || kind_is(tree, i, "self"@) || kind_is(tree, i, "super"@)
}

/// The text of a path leaf node; `None` for any other kind.
pub open spec fn leaf_text_spec(tree: SyntaxTree, src: Seq<u8>, i: int) -> Option<Seq<char>> {
    if leaf_kind(tree, i) {
        text_of(tree, src, i)
    } else {
        None
    }
}

/// The text of node `i` is `cfg` or `cfg_attr`.
pub open spec fn cfg_word(tree: SyntaxTree, src: Seq<u8>, i: int) -> bool {
    text_of(tree, src, i) == Some("cfg"@) || text_of(tree, src, i) == Some("cfg_attr"@)
}

/// Node `i` is an attribute item whose attribute path is the bare word
/// `cfg` or `cfg_attr`.
pub open spec fn conditional_attribute(tree: SyntaxTree, src: Seq<u8>, i: int) -> bool {
    &&& (kind_is(tree, i, "attribute_item"@) || kind_is(tree, i, "inner_attribute_item"@))
    &&& first_named(tree, i as usize) matches Some(attr)
    &&& first_named(tree, attr) matches Some(path)
    &&& kind_is(tree, path as int, "identifier"@)
    &&& cfg_word(tree, src, path as int)
}

/// `a` in front of the list `r` holds, when there is one.
pub open spec fn prepend(a: Seq<Seq<char>>, r: Option<Seq<Seq<char>>>) -> Option<Seq<Seq<char>>> {
    match r {
        Some(x) => Some(a + x),
        None => None,
    }
}

proof fn lemma_prepend(a: Seq<Seq<char>>, b: Seq<Seq<char>>, r: Option<Seq<Seq<char>>>)
    ensures
        prepend(a, prepend(b, r)) == prepend(a + b, r),
{
    if let Some(x) = r {
        assert(a + (b + x) =~= (a + b) + x);
    }
}

/// The segments of the scoped path at node `i`, last segment first; under
/// the declared policy a path without a `path` field ends in an empty
/// segment for its leading `::`.
pub open spec fn scoped_chain(tree: SyntaxTree, src: Seq<u8>, i: usize, policy: RootPolicy) -> Option<
    Seq<Seq<char>>,
>
    decreases tree.nodes.len() - i,
{
    if i >= tree.nodes.len() {
        None
    } else {
        match field_child(tree, i as int, "name"@) {
            None => None,
            Some(n) => match leaf_text_spec(tree, src, n) {
                None => None,
                Some(t) => match field_child(tree, i as int, "path"@) {
                    None => if policy == RootPolicy::Declared {
                        Some(seq![t, Seq::<char>::empty()])
                    } else {
                        Some(seq![t])
                    },
                    Some(p) => if leaf_kind(tree, p) {
                        match leaf_text_spec(tree, src, p) {
                            Some(u) => Some(seq![t, u]),
                            None => None,
                        }
                    } else if (kind_is(tree, p, "scoped_identifier"@) || kind_is(tree, p, "scoped_type_identifier"@))
                        && i < p < tree.nodes.len() {
                        prepend(seq![t], scoped_chain(tree, src, p as usize, policy))
                    } else {
                        None
                    },
                },
            },
        }
    }
}

/// The segments of the scoped path at node `i`, root first.
pub open spec fn scoped_segments_spec(tree: SyntaxTree, src: Seq<u8>, i: usize, policy: RootPolicy) -> Option<
    Seq<Seq<char>>,
> {
    match scoped_chain(tree, src, i, policy) {
        Some(c) => Some(backwards(c)),
        None => None,
    }
}

/// The views of an optional list of strings.
pub open spec fn opt_views(r: Option<Vec<String>>) -> Option<Seq<Seq<char>>> {
    match r {
        Some(v) => Some(views(v@)),
        None => None,
    }
}

/// The segments of a `use` argument path: a scoped chain or a bare leaf.
pub open spec fn path_argument_spec(tree: SyntaxTree, src: Seq<u8>, i: usize, policy: RootPolicy) -> Option<
    Seq<Seq<char>>,
> {
    if kind_is(tree, i as int, "scoped_identifier"@) {
        scoped_segments_spec(tree, src, i, policy)
    } else if kind_is(tree, i as int, "identifier"@) || kind_is(tree, i as int, "crate"@) || kind_is(
        tree,
        i as int,
        "self"@,
    ) || kind_is(tree, i as int, "super"@) {
        match leaf_text_spec(tree, src, i as int) {
            Some(t) => Some(seq![t]),
            None => None,
        }
    } else {
        None
    }
}

/// The names of the primitive types a path may start with.
pub open spec fn primitive_name(s: Seq<char>) -> bool {
    s == "str"@ || s == "bool"@ || s == "char"@ || s == "u8"@ || s == "u16"@ || s == "u32"@ || s == "u64"@
        || s == "u128"@ || s == "usize"@ || s == "i8"@ || s == "i16"@ || s == "i32"@ || s == "i64"@ || s
        == "i128"@ || s == "isize"@ || s == "f32"@ || s == "f64"@
}

/// The item label of node `p`, when it is an item that names a scope of
/// its own.
pub open spec fn item_label(tree: SyntaxTree, p: int) -> Option<Seq<char>> {
    if kind_is(tree, p, "function_item"@) {
        Some("fn"@)
    } else if kind_is(tree, p, "struct_item"@) {
        Some("struct"@)
    } else if kind_is(tree, p, "enum_item"@) {
        Some("enum"@)
    } else if kind_is(tree, p, "union_item"@) {
        Some("union"@)
    } else if kind_is(tree, p, "type_item"@) {
        Some("type"@)
    } else if kind_is(tree, p, "trait_item"@) {
        Some("trait"@)
    } else if kind_is(tree, p, "const_item"@) {
        Some("const"@)
    } else if kind_is(tree, p, "static_item"@) {
        Some("static"@)
    } else if kind_is(tree, p, "mod_item"@) {
        Some("mod"@)
    } else if kind_is(tree, p, "impl_item"@) {
        Some("impl"@)
    } else if kind_is(tree, p, "macro_definition"@) {
        Some("macro"@)
    } else {
        None
    }
}

/// The kind label and name of the innermost item above node `i`: `other`
/// and no name when none encloses it; an `impl` has no name.
pub open spec fn enclosing_spec(tree: SyntaxTree, src: Seq<u8>, i: usize) -> (Seq<char>, Option<Seq<char>>)
    decreases i,
{
    match tree.nodes[i as int].parent {
        None => ("other"@, None),
        Some(p) => if p < i {
            match item_label(tree, p as int) {
                None => enclosing_spec(tree, src, p),
                Some(label) => (label, if kind_is(tree, p as int, "impl_item"@) {
                    None
                } else {
                    match field_child(tree, p as int, "name"@) {
                        Some(n) => leaf_text_spec(tree, src, n),
                        None => None,
                    }
                }),
            }
        } else {
            ("other"@, None)
        },
    }
}

/// The path and bound name of an import.
pub open spec fn import_view(import: Import) -> (Seq<Seq<char>>, Seq<char>) {
    (views(import.segments@), import.short@)
}

/// The paths and bound names of a list of imports.
pub open spec fn import_views(imports: Seq<Import>) -> Seq<(Seq<Seq<char>>, Seq<char>)> {
    imports.map_values(|import: Import| import_view(import))
}

/// `after` is `before` with only its innermost frame changed, and that
/// frame's other fields kept; the rest of the walker stays.
pub open spec fn innermost_changed(before: Walker, after: Walker) -> bool {
    &&& after.policy == before.policy
    &&& after.roots == before.roots
    &&& after.diagnostics == before.diagnostics
    &&& after.scopes.len() == before.scopes.len()
    &&& after.scopes@.drop_last() == before.scopes@.drop_last()
}

/// The paths of a list of glob prefixes.
pub open spec fn glob_views(globs: Seq<Vec<String>>) -> Seq<Seq<Seq<char>>> {
    globs.map_values(|g: Vec<String>| views(g@))
}

/// What a `use` collection yields: imports as (path, bound name), and
/// glob prefixes.
pub type UseYield = (Seq<(Seq<Seq<char>>, Seq<char>)>, Seq<Seq<Seq<char>>>);

/// Nothing collected.
pub open spec fn no_yield() -> UseYield {
    (Seq::empty(), Seq::empty())
}

/// The imports and glob prefixes of the `use` argument at node `i` under
/// `prefix`.
pub open spec fn use_arg(tree: SyntaxTree, src: Seq<u8>, i: usize, prefix: Seq<Seq<char>>, policy: RootPolicy) -> UseYield
    decreases tree.nodes.len() - i, named_children_spec(tree, i).len() + 1,
{
    let ii = i as int;
    if i >= tree.nodes.len() {
        no_yield()
    } else if kind_is(tree, ii, "identifier"@) || kind_is(tree, ii, "crate"@) || kind_is(tree, ii, "self"@)
        || kind_is(tree, ii, "super"@) {
        match leaf_text_spec(tree, src, ii) {
            None => no_yield(),
            Some(text) => if text == "self"@ && prefix.len() > 0 {
                (seq![(prefix, prefix.last())], Seq::empty())
            } else {
                (seq![(prefix + seq![text], text)], Seq::empty())
            },
        }
    } else if kind_is(tree, ii, "scoped_identifier"@) {
        match scoped_segments_spec(tree, src, i, policy) {
            Some(segs) => (seq![(prefix + segs, segs.last())], Seq::empty()),
            None => no_yield(),
        }
    } else if kind_is(tree, ii, "use_as_clause"@) {
        let alias = match field_child(tree, ii, "alias"@) {
            Some(a) => leaf_text_spec(tree, src, a),
            None => None,
        };
        let segs = match field_child(tree, ii, "path"@) {
            Some(p) => path_argument_spec(tree, src, p as usize, policy),
            None => None,
        };
        if alias is Some && segs is Some {
            (seq![(prefix + segs.unwrap(), alias.unwrap())], Seq::empty())
        } else {
            no_yield()
        }
    } else if kind_is(tree, ii, "use_list"@) {
        use_list_args(tree, src, named_children_spec(tree, i), i, prefix, policy)
    } else if kind_is(tree, ii, "scoped_use_list"@) {
        let pp = match field_child(tree, ii, "path"@) {
            Some(p) => path_argument_spec(tree, src, p as usize, policy),
            None => None,
        };
        match (pp, field_child(tree, ii, "list"@)) {
            (Some(pp), Some(l)) => if ii < l < tree.nodes.len() {
                use_arg(tree, src, l as usize, prefix + pp, policy)
            } else {
                no_yield()
            },
            _ => no_yield(),
        }
    } else if kind_is(tree, ii, "use_wildcard"@) {
        let glob = match first_named(tree, i) {
            Some(c) => match path_argument_spec(tree, src, c, policy) {
                Some(segs) => prefix + segs,
                None => prefix,
            },
            None => prefix,
        };
        (Seq::empty(), seq![glob])
    } else {
        no_yield()
    }
}

/// The imports and glob prefixes of the `use` arguments `kids`, children
/// of node `i`, in order.
pub open spec fn use_list_args(
    tree: SyntaxTree,
    src: Seq<u8>,
    kids: Seq<usize>,
    i: usize,
    prefix: Seq<Seq<char>>,
    policy: RootPolicy,
) -> UseYield
    decreases tree.nodes.len() - i, kids.len(),
{
    if kids.len() == 0 {
        no_yield()
    } else {
        let here = if i < kids[0] < tree.nodes.len() {
            use_arg(tree, src, kids[0], prefix, policy)
        } else {
            no_yield()
        };
        let rest = use_list_args(tree, src, kids.drop_first(), i, prefix, policy);
        (here.0 + rest.0, here.1 + rest.1)
    }
}

/// The imports and glob prefixes of the `use` declaration at node `i`.
pub open spec fn use_spec(tree: SyntaxTree, src: Seq<u8>, i: usize, policy: RootPolicy) -> UseYield {
    match field_child(tree, i as int, "argument"@) {
        Some(a) => use_arg(tree, src, a as usize, Seq::empty(), policy),
        None => no_yield(),
    }
}

/// The identifiers the pattern at node `i` binds: a leaf's own text, else
/// those of its named children in order.
pub open spec fn pattern_spec(tree: SyntaxTree, src: Seq<u8>, i: int) -> Seq<Seq<char>>
    decreases tree.nodes.len() - i, named_children_spec(tree, i as usize).len() + 1,
{
    match leaf_text_spec(tree, src, i) {
        Some(t) => seq![t],
        None => pattern_kids(tree, src, named_children_spec(tree, i as usize), i),
    }
}

/// The identifiers the patterns `kids`, children of node `i`, bind.
pub open spec fn pattern_kids(tree: SyntaxTree, src: Seq<u8>, kids: Seq<usize>, i: int) -> Seq<Seq<char>>
    decreases tree.nodes.len() - i, kids.len(),
{
    if kids.len() == 0 {
        Seq::empty()
    } else {
        let here = if 0 <= i < kids[0] < tree.nodes.len() {
            pattern_spec(tree, src, kids[0] as int)
        } else {
            Seq::empty()
        };
        here + pattern_kids(tree, src, kids.drop_first(), i)
    }
}

/// Some named child of node `i` is an inner conditional attribute.
pub open spec fn inner_conditional_among(tree: SyntaxTree, src: Seq<u8>, kids: Seq<usize>) -> bool {
    exists|j: int|
        0 <= j < kids.len() && #[trigger] kind_is(tree, kids[j] as int, "inner_attribute_item"@)
            && conditional_attribute(tree, src, kids[j] as int)
}

/// The texts and offsets of a list of bindings.
pub open spec fn binding_views(b: Seq<Binding>) -> Seq<(Seq<char>, usize)> {
    b.map_values(|x: Binding| (x.name@, x.start))
}

/// `after` is `before` with only its innermost frame grown: by the bound
/// names `names`, the imports `imports` and the external crates `crates`,
/// and marked glob-imported when `glob`; nothing happens without a frame.
pub open spec fn frame_grown(
    before: Walker,
    after: Walker,
    names: Seq<(Seq<char>, usize)>,
    imports: Seq<Import>,
    crates: Seq<String>,
    glob: bool,
) -> bool {
    &&& innermost_changed(before, after)
    &&& before.scopes.len() > 0 ==> {
        let (a, b) = (after.scopes@.last(), before.scopes@.last());
        &&& binding_views(a.bindings@) == binding_views(b.bindings@) + names
        &&& a.imports@ == b.imports@ + imports
        &&& a.external_crates@ == b.external_crates@ + crates
        &&& a.has_glob == (b.has_glob || glob)
        &&& a.module_scope == b.module_scope
    }
}

proof fn lemma_frame_grown_refl(a: Walker)
    ensures
        frame_grown(a, a, Seq::empty(), Seq::empty(), Seq::empty(), false),
{
    assert(a.scopes@.drop_last() =~= a.scopes@.drop_last());
    if a.scopes.len() > 0 {
        let f = a.scopes@.last();
        assert(binding_views(f.bindings@) =~= binding_views(f.bindings@) + Seq::empty());
        assert(f.imports@ =~= f.imports@ + Seq::<Import>::empty());
        assert(f.external_crates@ =~= f.external_crates@ + Seq::<String>::empty());
    }
}

proof fn lemma_frame_grown_trans(
    a: Walker,
    b: Walker,
    c: Walker,
    n1: Seq<(Seq<char>, usize)>,
    i1: Seq<Import>,
    c1: Seq<String>,
    g1: bool,
    n2: Seq<(Seq<char>, usize)>,
    i2: Seq<Import>,
    c2: Seq<String>,
    g2: bool,
)
    requires
        frame_grown(a, b, n1, i1, c1, g1),
        frame_grown(b, c, n2, i2, c2, g2),
    ensures
        frame_grown(a, c, n1 + n2, i1 + i2, c1 + c2, g1 || g2),
{
    assert(c.scopes@.drop_last() =~= a.scopes@.drop_last());
    if a.scopes.len() > 0 {
        let (fa, fc) = (a.scopes@.last(), c.scopes@.last());
        assert(binding_views(fc.bindings@) =~= binding_views(fa.bindings@) + (n1 + n2));
        assert(fc.imports@ =~= fa.imports@ + (i1 + i2));
        assert(fc.external_crates@ =~= fa.external_crates@ + (c1 + c2));
    }
}

/// The names a guarded `use` reserves: each import's bound name, visible
/// throughout the scope.
pub open spec fn reserved_names(imports: Seq<(Seq<Seq<char>>, Seq<char>)>) -> Seq<(Seq<char>, usize)> {
    imports.map_values(|p: (Seq<Seq<char>>, Seq<char>)| (p.1, 0usize))
}

/// The name an `extern crate` declaration binds: its alias, else its name.
pub open spec fn extern_crate_name(tree: SyntaxTree, src: Seq<u8>, i: int) -> Option<Seq<char>> {
    let field = match field_child(tree, i, "alias"@) {
        Some(a) => Some(a),
        None => field_child(tree, i, "name"@),
    };
    match field {
        Some(n) => leaf_text_spec(tree, src, n),
        None => None,
    }
}

/// The item kinds that bind their own name in their scope.
pub open spec fn named_item(tree: SyntaxTree, i: int) -> bool {
    kind_is(tree, i, "function_item"@) || kind_is(tree, i, "struct_item"@) || kind_is(tree, i, "enum_item"@)
        || kind_is(tree, i, "union_item"@) || kind_is(tree, i, "type_item"@) || kind_is(tree, i, "trait_item"@)
        || kind_is(tree, i, "const_item"@) || kind_is(tree, i, "static_item"@) || kind_is(tree, i, "mod_item"@)
        || kind_is(tree, i, "macro_definition"@)
}

/// Node kinds whose patterns bind locals.
pub open spec fn pattern_holder(tree: SyntaxTree, i: int) -> bool {
    kind_is(tree, i, "let_declaration"@) || kind_is(tree, i, "let_condition"@) || kind_is(tree, i, "parameter"@)
        || kind_is(tree, i, "for_expression"@) || kind_is(tree, i, "match_arm"@) || kind_is(
        tree,
        i,
        "closure_parameters"@,
    )
}

/// The locals node `i` binds, each counting from its position; a type
/// parameter's name under the declared policy, visible throughout.
pub open spec fn local_names_spec(tree: SyntaxTree, src: Seq<u8>, i: usize, policy: RootPolicy) -> Seq<
    (Seq<char>, usize),
> {
    let ii = i as int;
    if kind_is(tree, ii, "type_parameter"@) {
        if policy == RootPolicy::Declared {
            match field_child(tree, ii, "name"@) {
                Some(n) => match leaf_text_spec(tree, src, n) {
                    Some(t) => seq![(t, 0usize)],
                    None => Seq::empty(),
                },
                None => Seq::empty(),
            }
        } else {
            Seq::empty()
        }
    } else if pattern_holder(tree, ii) {
        let names = match field_child(tree, ii, "pattern"@) {
            Some(p) => pattern_spec(tree, src, p),
            None => pattern_kids(tree, src, named_children_spec(tree, i), ii),
        };
        names.map_values(|n: Seq<char>| (n, tree.nodes[ii].start))
    } else {
        Seq::empty()
    }
}

/// The path `short` stands for once a covering import binds it, followed
/// by the rest of the path.
pub open spec fn replacement_spec(short: Seq<char>, tail: Seq<Seq<char>>) -> Seq<char> {
    if tail.len() > 0 {
        short + "::"@ + join_spec(tail, "::"@)
    } else {
        short
    }
}

/// Looking outward from frame `g - 1`, the first frame that mentions
/// `short` decides: `None` when it shadows the import's path `path`, else
/// the short name and the replacement for `segments`.
pub open spec fn suggestion_spec(
    scopes: Seq<ScopeFrame>,
    g: int,
    short: Seq<char>,
    path: Seq<Seq<char>>,
    segments: Seq<Seq<char>>,
    at: usize,
) -> Option<(Seq<char>, Seq<char>)>
    decreases g,
{
    if g <= 0 {
        None
    } else if crate::rust::scope::mentions(scopes[g - 1], short, at) {
        if crate::rust::scope::shadows(scopes[g - 1], short, path, at) {
            None
        } else {
            Some((short, replacement_spec(short, segments.subrange(path.len() as int, segments.len() as int))))
        }
    } else {
        suggestion_spec(scopes, g - 1, short, path, segments, at)
    }
}

/// The first segment of each non-empty path of `paths`, in order.
pub open spec fn first_segments(paths: Seq<Seq<Seq<char>>>) -> Seq<Seq<char>>
    decreases paths.len(),
{
    if paths.len() == 0 {
        Seq::empty()
    } else {
        (if paths[0].len() > 0 {
            seq![paths[0][0]]
        } else {
            Seq::empty()
        }) + first_segments(paths.drop_first())
    }
}

/// The root evidence the `use` declarations at and under node `i` give:
/// the first segment of each import path and glob prefix, in document
/// order.
pub open spec fn roots_spec(tree: SyntaxTree, src: Seq<u8>, i: int, policy: RootPolicy) -> Seq<Seq<char>>
    decreases tree.nodes.len() - i, named_children_spec(tree, i as usize).len() + 1,
{
    if kind_is(tree, i, "use_declaration"@) {
        let u = use_spec(tree, src, i as usize, policy);
        first_segments(u.0.map_values(|p: (Seq<Seq<char>>, Seq<char>)| p.0)) + first_segments(u.1)
    } else {
        roots_kids(tree, src, named_children_spec(tree, i as usize), i, policy)
    }
}

/// The root evidence under `kids`, children of node `i`.
pub open spec fn roots_kids(tree: SyntaxTree, src: Seq<u8>, kids: Seq<usize>, i: int, policy: RootPolicy) -> Seq<
    Seq<char>,
>
    decreases tree.nodes.len() - i, kids.len(),
{
    if kids.len() == 0 {
        Seq::empty()
    } else {
        (if 0 <= i < kids[0] < tree.nodes.len() {
            roots_spec(tree, src, kids[0] as int, policy)
        } else {
            Seq::empty()
        }) + roots_kids(tree, src, kids.drop_first(), i, policy)
    }
}

/// The nodes that are conditional attributes.
pub open spec fn conditional_attributes(tree: SyntaxTree, src: Seq<u8>) -> spec_fn(int) -> bool {
    |j: int| conditional_attribute(tree, src, j)
}

/// Walking back over the named siblings before node `i` (from `prev`),
/// past attributes and comments, a conditional attribute turns up.
pub open spec fn conditional_before(tree: SyntaxTree, src: Seq<u8>, prev: Option<usize>) -> bool
    decreases match prev {
        Some(a) => a + 1,
        None => 0,
    },
{
    match prev {
        None => false,
        Some(a) => {
            if conditional_attribute(tree, src, a as int) {
                true
            } else if !(kind_is(tree, a as int, "attribute_item"@) || kind_is(tree, a as int, "line_comment"@)
                || kind_is(tree, a as int, "block_comment"@)) {
                false
            } else {
                match prev_named(tree, a) {
                    Some(b) => if b < a {
                        conditional_before(tree, src, Some(b))
                    } else {
                        false
                    },
                    None => false,
                }
            }
        },
    }
}

/// True when node `i` is a path leaf: an identifier, a type identifier, or
/// one of `crate`, `self`, `super`.
fn is_leaf_kind(tree: &SyntaxTree, i: usize) -> (r: bool)
    requires
        i < tree.nodes.len(),
    ensures
        r == leaf_kind(*tree, i as int),
{
    tree.is_kind(i, "identifier") || tree.is_kind(i, "type_identifier") || tree.is_kind(i, "crate")
        || tree.is_kind(i, "self") || tree.is_kind(i, "super")
}

/// Text of a path leaf node, or `None` for any other kind.
fn leaf_text(tree: &SyntaxTree, src: &[u8], i: usize) -> (r: Option<String>)
    requires
        tree_ok(tree, src),
        i < tree.nodes.len(),
    ensures
        opt_view(r) == leaf_text_spec(*tree, src@, i as int),
{
    if is_leaf_kind(tree, i) {
        node_text(tree, src, i)
    } else {
        None
    }
}

/// True when the text of node `i` is one of `cfg`, `cfg_attr`.
fn is_cfg_word(tree: &SyntaxTree, src: &[u8], i: usize) -> (r: bool)
    requires
        tree_ok(tree, src),
        i < tree.nodes.len(),
    ensures
        r == cfg_word(*tree, src@, i as int),
{
    match node_text(tree, src, i) {
        Some(t) => str_eq(t.as_str(), "cfg") || str_eq(t.as_str(), "cfg_attr"),
        None => false,
    }
}

/// A real `#[cfg(..)]`/`#[cfg_attr(..)]` attribute, never its text in a
/// comment or string.
pub fn is_conditional_attribute(tree: &SyntaxTree, src: &[u8], i: usize) -> (r: bool)
    requires
        tree_ok(tree, src),
        i < tree.nodes.len(),
    ensures
        r ==> (tree.nodes[i as int].kind@ == "attribute_item"@ || tree.nodes[i as int].kind@
            == "inner_attribute_item"@),
        r == conditional_attribute(*tree, src@, i as int),
{
    if !(tree.is_kind(i, "attribute_item") || tree.is_kind(i, "inner_attribute_item")) {
        return false;
    }
    match tree.named_child(i, 0) {
        Some(attr) => match tree.named_child(attr, 0) {
            Some(path) => tree.is_kind(path, "identifier") && is_cfg_word(tree, src, path),
            None => false,
        },
        None => false,
    }
}

/// An outer conditional attribute precedes node `i`, possibly with other
/// attributes and comments between.
pub fn has_conditional_attribute(tree: &SyntaxTree, src: &[u8], i: usize) -> (r: bool)
    requires
        tree_ok(tree, src),
        i < tree.nodes.len(),
    ensures
        r == conditional_before(*tree, src@, prev_named(*tree, i)),
{
    let mut previous = tree.prev_named_sibling(i);
    loop
        invariant
            tree_ok(tree, src),
            previous matches Some(a) ==> a < tree.nodes.len(),
            conditional_before(*tree, src@, prev_named(*tree, i)) == conditional_before(*tree, src@, previous),
        decreases match previous {
            Some(a) => a + 1,
            None => 0,
        },
    {
        match previous {
            None => return false,
            Some(a) => {
                if is_conditional_attribute(tree, src, a) {
                    return true;
                }
                if !(tree.is_kind(a, "attribute_item") || tree.is_kind(a, "line_comment")
                    || tree.is_kind(a, "block_comment")) {
                    return false;
                }
                previous = tree.prev_named_sibling(a);
            },
        }
    }
}

/// A conditional attribute anywhere in the subtree of node `i`.
pub fn contains_conditional(tree: &SyntaxTree, src: &[u8], i: usize) -> (r: bool)
    requires
        tree_ok(tree, src),
        i < tree.nodes.len(),
    ensures
        r == subtree_any(*tree, i as int, conditional_attributes(*tree, src@)),
    decreases tree.nodes.len() - i,
{
    let ghost p = conditional_attributes(*tree, src@);
    if is_conditional_attribute(tree, src, i) {
        return true;
    }
    let kids = tree.named_children(i);
    let n = kids.len();
    let mut k: usize = 0;
    assert(kids@.skip(0) =~= kids@);
    while k < n
        invariant
            tree_ok(tree, src),
            i < tree.nodes.len(),
            n == kids.len(),
            k <= n,
            kids@ == named_children_spec(*tree, i),
            p == conditional_attributes(*tree, src@),
            forall|j: int| #![trigger kids@[j]] 0 <= j < kids.len() ==> i < kids@[j] < tree.nodes.len(),
            kids_any(*tree, kids@, i as int, p) == kids_any(*tree, kids@.skip(k as int), i as int, p),
        decreases n - k,
    {
        let c = kids[k];
        assert(kids@.skip(k as int)[0] == c);
        assert(kids@.skip(k as int).drop_first() =~= kids@.skip(k + 1));
        if contains_conditional(tree, src, c) {
            assert(kids_any(*tree, kids@.skip(k as int), i as int, p));
            return true;
        }
        assert(kids_any(*tree, kids@.skip(k as int), i as int, p) == kids_any(
            *tree,
            kids@.skip(k + 1),
            i as int,
            p,
        ));
        k += 1;
    }
    assert(kids_any(*tree, kids@.skip(k as int), i as int, p) == false);
    false
}

/// The outermost node of a scoped path chain, which carries the whole path.
pub fn is_chain_head(tree: &SyntaxTree, i: usize) -> (r: bool)
    requires
        tree.wf(),
        i < tree.nodes.len(),
    ensures
        r == ((kind_is(*tree, i as int, "scoped_identifier"@) || kind_is(*tree, i as int, "scoped_type_identifier"@))
            && match tree.nodes[i as int].parent {
            Some(p) => !(kind_is(*tree, p as int, "scoped_identifier"@) || kind_is(
                *tree,
                p as int,
                "scoped_type_identifier"@,
            )),
            None => true,
        }),
{
    if !(tree.is_kind(i, "scoped_identifier") || tree.is_kind(i, "scoped_type_identifier")) {
        return false;
    }
    match tree.nodes[i].parent {
        Some(p) => !(tree.is_kind(p, "scoped_identifier") || tree.is_kind(p, "scoped_type_identifier")),
        None => true,
    }
}

/// Node kinds that open a lexical scope.
pub fn is_scope(tree: &SyntaxTree, i: usize) -> (r: bool)
    requires
        i < tree.nodes.len(),
    ensures
        r == (kind_is(*tree, i as int, "source_file"@) || kind_is(*tree, i as int, "block"@) || kind_is(
            *tree,
            i as int,
            "declaration_list"@,
        ) || kind_is(*tree, i as int, "function_item"@) || kind_is(*tree, i as int, "closure_expression"@)
            || kind_is(*tree, i as int, "for_expression"@) || kind_is(*tree, i as int, "match_arm"@)),
{
    tree.is_kind(i, "source_file") || tree.is_kind(i, "block") || tree.is_kind(i, "declaration_list")
        || tree.is_kind(i, "function_item") || tree.is_kind(i, "closure_expression")
        || tree.is_kind(i, "for_expression") || tree.is_kind(i, "match_arm")
}

/// The `::`-separated segments of a scoped path node, root first.
///
/// Under [`RootPolicy::Declared`] a leading `::` becomes an empty first
/// segment. `None` when the chain does not end in plain segments (such as
/// `<T as Trait>::Assoc`).
pub fn scoped_segments(tree: &SyntaxTree, src: &[u8], i: usize, policy: RootPolicy) -> (r: Option<
    Vec<String>,
>)
    requires
        tree_ok(tree, src),
        i < tree.nodes.len(),
    ensures
        r matches Some(s) ==> s.len() >= 1,
        opt_views(r) == scoped_segments_spec(*tree, src@, i, policy),
{
    let mut segments: Vec<String> = Vec::new();
    let mut current = i;
    loop
        invariant_except_break
            scoped_chain(*tree, src@, i, policy) == prepend(views(segments@), scoped_chain(*tree, src@, current, policy)),
        invariant
            tree_ok(tree, src),
            current < tree.nodes.len(),
        ensures
            scoped_chain(*tree, src@, i, policy) == Some(views(segments@)),
            segments.len() >= 1,
        decreases tree.nodes.len() - current,
    {
        let ghost before = views(segments@);
        let name = match tree.child_by_field(current, "name") {
            Some(n) => n,
            None => return None,
        };
        match leaf_text(tree, src, name) {
            Some(t) => segments.push(t),
            None => return None,
        }
        let ghost t = segments@.last()@;
        assert(views(segments@) =~= before + seq![t]);
        match tree.child_by_field(current, "path") {
            None => {
                if policy == RootPolicy::Declared {
                    segments.push(String::new());
                    assert(views(segments@) =~= before + seq![t, Seq::<char>::empty()]);
                }
                break;
            },
            Some(p) => {
                if is_leaf_kind(tree, p) {
                    match leaf_text(tree, src, p) {
                        Some(u) => segments.push(u),
                        None => return None,
                    }
                    assert(views(segments@) =~= before + seq![t, segments@.last()@]);
                    break;
                } else if tree.is_kind(p, "scoped_identifier") || tree.is_kind(p, "scoped_type_identifier") {
                    proof {
                        lemma_prepend(before, seq![t], scoped_chain(*tree, src@, p, policy));
                    }
                    current = p;
                } else {
                    return None;
                }
            },
        }
    }
    let out = reversed(segments);
    assert(views(out@) =~= backwards(views(segments@)));
    if out.len() == 0 {
        return None;
    }
    Some(out)
}

/// Append the import `prefix ++ inner` binding `short`.
fn push_import(imports: &mut Vec<Import>, prefix: &Vec<String>, inner: &Vec<String>, short: String)
    ensures
        import_views(final(imports)@) == import_views(old(imports)@).push(
            (views(prefix@) + views(inner@), short@),
        ),
{
    let mut segments = copy_strings(prefix);
    let mut k: usize = 0;
    while k < inner.len()
        invariant
            k <= inner.len(),
            views(segments@) == views(prefix@) + views(inner@).take(k as int),
        decreases inner.len() - k,
    {
        let ghost before = views(segments@);
        segments.push(copy_string(&inner[k]));
        assert(views(segments@) =~= before.push(inner@[k as int]@));
        assert(views(inner@).take(k + 1) =~= views(inner@).take(k as int).push(inner@[k as int]@));
        k += 1;
    }
    assert(views(inner@).take(k as int) =~= views(inner@));
    let ghost old_views = import_views(imports@);
    imports.push(Import { segments, short });
    assert(import_views(imports@) =~= old_views.push((views(prefix@) + views(inner@), short@)));
}

/// The segments of a `use` argument path: a scoped chain or a bare leaf.
fn path_argument_segments(tree: &SyntaxTree, src: &[u8], i: usize, policy: RootPolicy) -> (r: Option<
    Vec<String>,
>)
    requires
        tree_ok(tree, src),
        i < tree.nodes.len(),
    ensures
        opt_views(r) == path_argument_spec(*tree, src@, i, policy),
{
    if tree.is_kind(i, "scoped_identifier") {
        scoped_segments(tree, src, i, policy)
    } else if tree.is_kind(i, "identifier") || tree.is_kind(i, "crate") || tree.is_kind(i, "self")
        || tree.is_kind(i, "super") {
        match leaf_text(tree, src, i) {
            Some(t) => {
                let mut v = Vec::new();
                v.push(t);
                assert(views(v@) =~= seq![v@[0]@]);
                Some(v)
            },
            None => None,
        }
    } else {
        None
    }
}

/// Collect the imports and glob prefixes of one `use` argument node under
/// `prefix`.
fn collect_use_argument(
    tree: &SyntaxTree,
    src: &[u8],
    i: usize,
    prefix: &Vec<String>,
    policy: RootPolicy,
    imports: &mut Vec<Import>,
    globs: &mut Vec<Vec<String>>,
)
    requires
        tree_ok(tree, src),
        i < tree.nodes.len(),
    ensures
        import_views(final(imports)@) == import_views(old(imports)@) + use_arg(
            *tree,
            src@,
            i,
            views(prefix@),
            policy,
        ).0,
        glob_views(final(globs)@) == glob_views(old(globs)@) + use_arg(*tree, src@, i, views(prefix@), policy).1,
    decreases tree.nodes.len() - i,
{
    let ghost pre = views(prefix@);
    let ghost want = use_arg(*tree, src@, i, pre, policy);
    let ghost imports0 = import_views(imports@);
    let ghost globs0 = glob_views(globs@);
    if tree.is_kind(i, "identifier") || tree.is_kind(i, "crate") || tree.is_kind(i, "self")
        || tree.is_kind(i, "super") {
        if let Some(text) = leaf_text(tree, src, i) {
            if str_eq(text.as_str(), "self") && prefix.len() > 0 {
                let short = copy_string(&prefix[prefix.len() - 1]);
                assert(pre.last() == prefix@[prefix.len() - 1]@);
                imports.push(Import { segments: copy_strings(prefix), short });
                assert(import_views(imports@) =~= imports0 + want.0);
            } else {
                let mut inner = Vec::new();
                inner.push(copy_string(&text));
                assert(views(inner@) =~= seq![text@]);
                push_import(imports, prefix, &inner, text);
                assert(import_views(imports@) =~= imports0 + want.0);
            }
        } else {
            assert(import_views(imports@) =~= imports0 + want.0);
        }
        assert(glob_views(globs@) =~= globs0 + want.1);
    } else if tree.is_kind(i, "scoped_identifier") {
        if let Some(segments) = scoped_segments(tree, src, i, policy) {
            let short = copy_string(&segments[segments.len() - 1]);
            assert(views(segments@).last() == segments@[segments.len() - 1]@);
            push_import(imports, prefix, &segments, short);
        }
        assert(import_views(imports@) =~= imports0 + want.0);
        assert(glob_views(globs@) =~= globs0 + want.1);
    } else if tree.is_kind(i, "use_as_clause") {
        let alias = match tree.child_by_field(i, "alias") {
            Some(a) => leaf_text(tree, src, a),
            None => None,
        };
        let segments = match tree.child_by_field(i, "path") {
            Some(p) => path_argument_segments(tree, src, p, policy),
            None => None,
        };
        if let (Some(alias), Some(segments)) = (alias, segments) {
            push_import(imports, prefix, &segments, alias);
        }
        assert(import_views(imports@) =~= imports0 + want.0);
        assert(glob_views(globs@) =~= globs0 + want.1);
    } else if tree.is_kind(i, "use_list") {
        let kids = tree.named_children(i);
        let mut k: usize = 0;
        assert(kids@.skip(0) =~= kids@);
        while k < kids.len()
            invariant
                tree_ok(tree, src),
                i < tree.nodes.len(),
                k <= kids.len(),
                pre == views(prefix@),
                want == use_list_args(*tree, src@, kids@, i, pre, policy),
                forall|j: int| #![trigger kids@[j]] 0 <= j < kids.len() ==> i < kids@[j] < tree.nodes.len(),
                import_views(imports@) + use_list_args(*tree, src@, kids@.skip(k as int), i, pre, policy).0 == imports0
                    + want.0,
                glob_views(globs@) + use_list_args(*tree, src@, kids@.skip(k as int), i, pre, policy).1 == globs0
                    + want.1,
            decreases kids.len() - k,
        {
            let c = kids[k];
            assert(kids@.skip(k as int)[0] == c);
            assert(kids@.skip(k as int).drop_first() =~= kids@.skip(k + 1));
            let ghost here = use_arg(*tree, src@, c, pre, policy);
            let ghost rest = use_list_args(*tree, src@, kids@.skip(k + 1), i, pre, policy);
            let ghost bi = import_views(imports@);
            let ghost bg = glob_views(globs@);
            collect_use_argument(tree, src, c, prefix, policy, imports, globs);
            assert(import_views(imports@) + rest.0 =~= bi + (here.0 + rest.0));
            assert(glob_views(globs@) + rest.1 =~= bg + (here.1 + rest.1));
            k += 1;
        }
        assert(import_views(imports@) + use_list_args(*tree, src@, kids@.skip(k as int), i, pre, policy).0
            =~= import_views(imports@));
        assert(glob_views(globs@) + use_list_args(*tree, src@, kids@.skip(k as int), i, pre, policy).1
            =~= glob_views(globs@));
    } else if tree.is_kind(i, "scoped_use_list") {
        let prefix_path = match tree.child_by_field(i, "path") {
            Some(p) => path_argument_segments(tree, src, p, policy),
            None => None,
        };
        let list = tree.child_by_field(i, "list");
        if let (Some(prefix_path), Some(list)) = (prefix_path, list) {
            let mut nested = copy_strings(prefix);
            let mut k: usize = 0;
            while k < prefix_path.len()
                invariant
                    k <= prefix_path.len(),
                    views(nested@) == pre + views(prefix_path@).take(k as int),
                decreases prefix_path.len() - k,
            {
                let ghost b = views(nested@);
                nested.push(copy_string(&prefix_path[k]));
                assert(views(nested@) =~= b.push(prefix_path@[k as int]@));
                assert(views(prefix_path@).take(k + 1) =~= views(prefix_path@).take(k as int).push(
                    prefix_path@[k as int]@,
                ));
                k += 1;
            }
            assert(views(prefix_path@).take(k as int) =~= views(prefix_path@));
            collect_use_argument(tree, src, list, &nested, policy, imports, globs);
        } else {
            assert(import_views(imports@) =~= imports0 + want.0);
            assert(glob_views(globs@) =~= globs0 + want.1);
        }
    } else if tree.is_kind(i, "use_wildcard") {
        let mut glob = copy_strings(prefix);
        if let Some(child) = tree.named_child(i, 0) {
            if let Some(segments) = path_argument_segments(tree, src, child, policy) {
                let mut k: usize = 0;
                while k < segments.len()
                    invariant
                        k <= segments.len(),
                        views(glob@) == pre + views(segments@).take(k as int),
                    decreases segments.len() - k,
                {
                    let ghost b = views(glob@);
                    glob.push(copy_string(&segments[k]));
                    assert(views(glob@) =~= b.push(segments@[k as int]@));
                    assert(views(segments@).take(k + 1) =~= views(segments@).take(k as int).push(segments@[k as int]@));
                    k += 1;
                }
                assert(views(segments@).take(k as int) =~= views(segments@));
            }
        }
        let ghost g = views(glob@);
        globs.push(glob);
        assert(glob_views(globs@) =~= globs0.push(g));
        assert(glob_views(globs@) =~= globs0 + want.1);
        assert(import_views(imports@) =~= imports0 + want.0);
    } else {
        assert(import_views(imports@) =~= imports0 + want.0);
        assert(glob_views(globs@) =~= globs0 + want.1);
    }
}

/// The explicit imports and glob prefixes of one `use` declaration.
pub fn collect_use(tree: &SyntaxTree, src: &[u8], i: usize, policy: RootPolicy) -> (r: (
    Vec<Import>,
    Vec<Vec<String>>,
))
    requires
        tree_ok(tree, src),
        i < tree.nodes.len(),
    ensures
        (import_views(r.0@), glob_views(r.1@)) == use_spec(*tree, src@, i, policy),
{
    let mut imports = Vec::new();
    let mut globs = Vec::new();
    assert(import_views(imports@) =~= Seq::empty());
    assert(glob_views(globs@) =~= Seq::empty());
    if let Some(argument) = tree.child_by_field(i, "argument") {
        let empty: Vec<String> = Vec::new();
        assert(views(empty@) =~= Seq::empty());
        collect_use_argument(tree, src, argument, &empty, policy, &mut imports, &mut globs);
        assert(import_views(imports@) =~= use_spec(*tree, src@, i, policy).0);
        assert(glob_views(globs@) =~= use_spec(*tree, src@, i, policy).1);
    }
    (imports, globs)
}

/// Number of leading segments the suggested `use` imports: through the first
/// uppercase-initial segment, or the whole path when there is none.
pub open spec fn import_len(segments: Seq<Seq<char>>) -> nat
    decreases segments.len(),
{
    if segments.len() == 0 {
        0
    } else if segments[0].len() > 0 && is_upper(segments[0][0]) {
        1
    } else {
        1 + import_len(segments.drop_first())
    }
}

proof fn lemma_import_len_bounds(segments: Seq<Seq<char>>)
    ensures
        import_len(segments) <= segments.len(),
        segments.len() > 0 ==> import_len(segments) >= 1,
    decreases segments.len(),
{
    if segments.len() > 0 {
        lemma_import_len_bounds(segments.drop_first());
    }
}

/// How many leading segments a missing-import hint imports.
pub fn use_path_len(segments: &Vec<String>) -> (r: usize)
    requires
        segments.len() > 0,
    ensures
        r == import_len(views(segments@)),
        1 <= r <= segments.len(),
{
    let n = segments.len();
    let ghost all = views(segments@);
    let mut i: usize = 0;
    proof {
        lemma_import_len_bounds(all);
        assert(all.skip(0) =~= all);
    }
    while i < n
        invariant
            n == segments.len(),
            all == views(segments@),
            i <= n,
            import_len(all) == i + import_len(all.skip(i as int)),
        decreases n - i,
    {
        let ghost rest = all.skip(i as int);
        assert(rest[0] == segments@[i as int]@);
        if starts_upper(segments[i].as_str()) {
            proof {
                lemma_import_len_bounds(all);
            }
            return i + 1;
        }
        assert(rest.drop_first() =~= all.skip(i + 1));
        i += 1;
    }
    assert(all.skip(n as int) =~= Seq::<Seq<char>>::empty());
    proof {
        lemma_import_len_bounds(all);
    }
    n
}

/// The sub-list `list[from..to]`.
fn slice_strings(list: &Vec<String>, from: usize, to: usize) -> (r: Vec<String>)
    requires
        from <= to <= list.len(),
    ensures
        views(r@) == views(list@).subrange(from as int, to as int),
{
    let mut out: Vec<String> = Vec::new();
    let mut k = from;
    while k < to
        invariant
            from <= k <= to <= list.len(),
            out.len() == k - from,
            forall|j: int| 0 <= j < out.len() ==> out@[j]@ == list@[from + j]@,
        decreases to - k,
    {
        out.push(copy_string(&list[k]));
        k += 1;
    }
    assert(views(out@) =~= views(list@).subrange(from as int, to as int));
    out
}

/// True for first segments that name primitive types.
fn is_primitive(s: &str) -> (r: bool)
    ensures
        r == primitive_name(s@),
{
    str_eq(s, "str") || str_eq(s, "bool") || str_eq(s, "char") || str_eq(s, "u8") || str_eq(s, "u16")
        || str_eq(s, "u32") || str_eq(s, "u64") || str_eq(s, "u128") || str_eq(s, "usize")
        || str_eq(s, "i8") || str_eq(s, "i16") || str_eq(s, "i32") || str_eq(s, "i64")
        || str_eq(s, "i128") || str_eq(s, "isize") || str_eq(s, "f32") || str_eq(s, "f64")
}

/// The standard roots of the declared policy.
pub open spec fn is_declared_root(s: Seq<char>) -> bool {
    s == "crate"@ || s == "std"@ || s == "core"@ || s == "alloc"@
}

fn declared_root(s: &str) -> (r: bool)
    ensures
        r == is_declared_root(s@),
{
    str_eq(s, "crate") || str_eq(s, "std") || str_eq(s, "core") || str_eq(s, "alloc")
}

/// The characters of `s` after every leading `r#` prefix.
pub open spec fn strip_raw(s: Seq<char>) -> Seq<char>
    decreases s.len(),
{
    if s.len() >= 2 && s[0] == 'r' && s[1] == '#' {
        strip_raw(s.skip(2))
    } else {
        s
    }
}

/// `s` with its leading `r#` prefixes removed, compared against `root`.
fn raw_name_is(s: &str, root: &str) -> (r: bool)
    ensures
        r == (strip_raw(s@) == root@),
{
    let chars = crate::text::chars_of(s);
    let mut i: usize = 0;
    proof {
        assert(chars@.skip(0) =~= chars@);
    }
    while i < chars.len() && chars.len() - i >= 2 && chars[i] == 'r' && chars[i + 1] == '#'
        invariant
            chars@ == s@,
            i <= chars.len(),
            strip_raw(s@) == strip_raw(chars@.skip(i as int)),
        decreases chars.len() - i,
    {
        let ghost rest = chars@.skip(i as int);
        assert(rest.skip(2) =~= chars@.skip(i + 2));
        i += 2;
    }
    let ghost rest = chars@.skip(i as int);
    assert(!(rest.len() >= 2 && rest[0] == 'r' && rest[1] == '#'));
    assert(strip_raw(rest) == rest);
    let root_chars = crate::text::chars_of(root);
    if chars.len() - i != root_chars.len() {
        assert(rest.len() != root@.len());
        return false;
    }
    let mut k: usize = 0;
    while k < root_chars.len()
        invariant
            chars@ == s@,
            root_chars@ == root@,
            i <= chars.len(),
            chars.len() - i == root_chars.len(),
            k <= root_chars.len(),
            rest == chars@.skip(i as int),
            strip_raw(s@) == rest,
            forall|j: int| 0 <= j < k ==> rest[j] == root@[j],
        decreases root_chars.len() - k,
    {
        if chars[i + k] != root_chars[k] {
            assert(rest[k as int] != root@[k as int]);
            return false;
        }
        k += 1;
    }
    assert(rest =~= root@);
    true
}

/// A frame hides the root `root` at `at`: a glob, a visible local or item
/// of that name, or an import binding it to another path.
pub open spec fn frame_blocks_root(frame: ScopeFrame, root: Seq<char>, at: usize) -> bool {
    ||| frame.has_glob
    ||| exists|k: int|
        0 <= k < frame.bindings.len() && strip_raw((#[trigger] frame.bindings[k]).name@) == root && (
        frame.bindings[k].start == 0 || frame.bindings[k].start <= at)
    ||| exists|k: int|
        0 <= k < frame.imports.len() && strip_raw((#[trigger] frame.imports[k]).short@) == root
            && views(frame.imports[k].segments@) != seq![root]
}

/// What the frames `scopes[..n]`, innermost first, say about `root`:
/// hidden (`Some(false)`), declared by `extern crate` (`Some(true)`), or
/// nothing up to the nearest module boundary (`None`).
pub open spec fn root_lookup(scopes: Seq<ScopeFrame>, n: int, root: Seq<char>, at: usize) -> Option<bool>
    decreases n,
{
    if n <= 0 {
        None
    } else {
        let frame = scopes[n - 1];
        if frame_blocks_root(frame, root, at) {
            Some(false)
        } else if views(frame.external_crates@).contains(root) {
            Some(true)
        } else if frame.module_scope {
            None
        } else {
            root_lookup(scopes, n - 1, root, at)
        }
    }
}

/// The declared policy's full-path test.
pub open spec fn full_path_spec(scopes: Seq<ScopeFrame>, segments: Seq<Seq<char>>, at: usize) -> bool {
    if segments.len() == 0 {
        false
    } else if segments[0] == Seq::<char>::empty() {
        segments.len() >= 3
    } else if segments.len() < 2 || segments[0] == "self"@ || segments[0] == "super"@ {
        false
    } else if segments[0] == "crate"@ {
        true
    } else {
        match root_lookup(scopes, scopes.len() as int, segments[0], at) {
            Some(b) => b,
            None => is_declared_root(segments[0]),
        }
    }
}

fn frame_blocks(frame: &ScopeFrame, root: &str, at: usize) -> (r: bool)
    ensures
        r == frame_blocks_root(*frame, root@, at),
{
    if frame.has_glob {
        return true;
    }
    let nb = frame.bindings.len();
    let mut k: usize = 0;
    while k < nb
        invariant
            nb == frame.bindings.len(),
            k <= nb,
            forall|j: int|
                0 <= j < k ==> !(strip_raw((#[trigger] frame.bindings[j]).name@) == root@ && (
                frame.bindings[j].start == 0 || frame.bindings[j].start <= at)),
        decreases nb - k,
    {
        let b = &frame.bindings[k];
        if raw_name_is(b.name.as_str(), root) && (b.start == 0 || b.start <= at) {
            return true;
        }
        k += 1;
    }
    let ni = frame.imports.len();
    let mut k: usize = 0;
    let mut single: Vec<String> = Vec::new();
    single.push(owned(root));
    assert(views(single@) =~= seq![root@]);
    while k < ni
        invariant
            ni == frame.imports.len(),
            k <= ni,
            views(single@) == seq![root@],
            forall|j: int|
                0 <= j < k ==> !(strip_raw((#[trigger] frame.imports[j]).short@) == root@ && views(
                    frame.imports[j].segments@,
                ) != seq![root@]),
        decreases ni - k,
    {
        let import = &frame.imports[k];
        if raw_name_is(import.short.as_str(), root) && !strings_eq(&import.segments, &single) {
            return true;
        }
        k += 1;
    }
    false
}

/// The declared policy's test: the path starts at an explicit root.
pub fn is_full_path(scopes: &Vec<ScopeFrame>, segments: &Vec<String>, at: usize) -> (r: bool)
    ensures
        r == full_path_spec(scopes@, views(segments@), at),
{
    let ghost segs = views(segments@);
    if segments.len() == 0 {
        return false;
    }
    let root = segments[0].as_str();
    assert(segs[0] == root@);
    if root.is_empty() {
        assert(root@ =~= Seq::<char>::empty());
        return segments.len() >= 3;
    }
    assert(segs[0] != Seq::<char>::empty());
    if segments.len() < 2 || str_eq(root, "self") || str_eq(root, "super") {
        return false;
    }
    if str_eq(root, "crate") {
        return true;
    }
    let mut n = scopes.len();
    while n > 0
        invariant
            n <= scopes.len(),
            full_path_spec(scopes@, views(segments@), at) == match root_lookup(scopes@, n as int, root@, at) {
                Some(b) => b,
                None => is_declared_root(root@),
            },
        decreases n,
    {
        let frame = &scopes[n - 1];
        assert(scopes@[n - 1] == *frame);
        if frame_blocks(frame, root, at) {
            return false;
        }
        if strings_contain(&frame.external_crates, root) {
            return true;
        }
        if frame.module_scope {
            return declared_root(root);
        }
        n -= 1;
    }
    declared_root(root)
}

/// The advice line for a path an import already covers.
pub open spec fn covered_advice(policy: RootPolicy, replacement: Seq<char>, short: Seq<char>) -> Seq<char> {
    match policy {
        RootPolicy::Declared => "- If clear at the call site, use `"@ + replacement + "`; `"@ + short
            + "` is already imported."@,
        RootPolicy::Open => "- Replace this path with `"@ + replacement + "`; `"@ + short
            + "` is already imported."@,
    }
}

/// The advice lines for a path no import covers.
pub open spec fn missing_advice(policy: RootPolicy, imported: Seq<char>, replacement: Seq<char>) -> Seq<char> {
    match policy {
        RootPolicy::Declared => "- If clear at the call site, add `use "@ + imported
            + ";` at module scope and use `"@ + replacement + "`."@,
        RootPolicy::Open => "- Add `use "@ + imported + ";` at module scope.\n- Replace this path with `"@
            + replacement + "`."@,
    }
}

/// The whole hint message for `path` with `advice`.
pub open spec fn hint_message(policy: RootPolicy, path: Seq<char>, advice: Seq<char>) -> Seq<char> {
    match policy {
        RootPolicy::Declared => "path `"@ + path
            + "` includes the full namespace.\n- Shorten with imports only if the meaning remains clear at the call site.\n"@
            + advice
            + "\n- Import a parent module if the bare name loses context: for example, import `std::process` and use `process::id()`, not `id()`.\n- Keep the full path if shortening would reduce clarity or create a name conflict."@,
        RootPolicy::Open => "fully-qualified path `"@ + path + "` makes code harder to read.\n"@ + advice,
    }
}

fn build_covered_advice(policy: RootPolicy, replacement: &str, short: &str) -> (r: String)
    ensures
        r@ == covered_advice(policy, replacement@, short@),
{
    let mut s = String::new();
    match policy {
        RootPolicy::Declared => push_str(&mut s, "- If clear at the call site, use `"),
        RootPolicy::Open => push_str(&mut s, "- Replace this path with `"),
    }
    push_str(&mut s, replacement);
    push_str(&mut s, "`; `");
    push_str(&mut s, short);
    push_str(&mut s, "` is already imported.");
    s
}

fn build_missing_advice(policy: RootPolicy, imported: &str, replacement: &str) -> (r: String)
    ensures
        r@ == missing_advice(policy, imported@, replacement@),
{
    let mut s = String::new();
    match policy {
        RootPolicy::Declared => {
            push_str(&mut s, "- If clear at the call site, add `use ");
            push_str(&mut s, imported);
            push_str(&mut s, ";` at module scope and use `");
        },
        RootPolicy::Open => {
            push_str(&mut s, "- Add `use ");
            push_str(&mut s, imported);
            push_str(&mut s, ";` at module scope.\n- Replace this path with `");
        },
    }
    push_str(&mut s, replacement);
    push_str(&mut s, "`.");
    s
}

fn build_message(policy: RootPolicy, path: &str, advice: &str) -> (r: String)
    ensures
        r@ == hint_message(policy, path@, advice@),
{
    let mut s = String::new();
    match policy {
        RootPolicy::Declared => {
            push_str(&mut s, "path `");
            push_str(&mut s, path);
            push_str(
                &mut s,
                "` includes the full namespace.\n- Shorten with imports only if the meaning remains clear at the call site.\n",
            );
            push_str(&mut s, advice);
            push_str(
                &mut s,
                "\n- Import a parent module if the bare name loses context: for example, import `std::process` and use `process::id()`, not `id()`.\n- Keep the full path if shortening would reduce clarity or create a name conflict.",
            );
        },
        RootPolicy::Open => {
            push_str(&mut s, "fully-qualified path `");
            push_str(&mut s, path);
            push_str(&mut s, "` makes code harder to read.\n");
            push_str(&mut s, advice);
        },
    }
    s
}

/// The kind label and name of the innermost item enclosing node `i`.
pub fn enclosing_item(tree: &SyntaxTree, src: &[u8], i: usize) -> (r: (String, Option<String>))
    requires
        tree_ok(tree, src),
        i < tree.nodes.len(),
    ensures
        (r.0@, opt_view(r.1)) == enclosing_spec(*tree, src@, i),
{
    let mut current = i;
    loop
        invariant
            tree_ok(tree, src),
            current < tree.nodes.len(),
            enclosing_spec(*tree, src@, i) == enclosing_spec(*tree, src@, current),
        decreases current,
    {
        let parent = match tree.nodes[current].parent {
            Some(p) => p,
            None => return (owned("other"), None),
        };
        let label: Option<&str> = if tree.is_kind(parent, "function_item") {
            Some("fn")
        } else if tree.is_kind(parent, "struct_item") {
            Some("struct")
        } else if tree.is_kind(parent, "enum_item") {
            Some("enum")
        } else if tree.is_kind(parent, "union_item") {
            Some("union")
        } else if tree.is_kind(parent, "type_item") {
            Some("type")
        } else if tree.is_kind(parent, "trait_item") {
            Some("trait")
        } else if tree.is_kind(parent, "const_item") {
            Some("const")
        } else if tree.is_kind(parent, "static_item") {
            Some("static")
        } else if tree.is_kind(parent, "mod_item") {
            Some("mod")
        } else if tree.is_kind(parent, "impl_item") {
            Some("impl")
        } else if tree.is_kind(parent, "macro_definition") {
            Some("macro")
        } else {
            None
        };
        match label {
            None => {
                current = parent;
            },
            Some(label) => {
                let name = if tree.is_kind(parent, "impl_item") {
                    None
                } else {
                    match tree.child_by_field(parent, "name") {
                        Some(n) => leaf_text(tree, src, n),
                        None => None,
                    }
                };
                return (owned(label), name);
            },
        }
    }
}

/// Add a binding to the innermost frame.
fn add_binding(w: &mut Walker, name: String, start: usize)
    ensures
        final(w).diagnostics == old(w).diagnostics,
        final(w).policy == old(w).policy,
        innermost_changed(*old(w), *final(w)),
        frame_grown(*old(w), *final(w), seq![(name@, start)], Seq::empty(), Seq::empty(), false),
        old(w).scopes.len() > 0 ==> {
            let (a, b) = (final(w).scopes@.last(), old(w).scopes@.last());
            &&& a.bindings@ == b.bindings@.push(Binding { name, start })
            &&& a.imports == b.imports && a.external_crates == b.external_crates
            &&& a.has_glob == b.has_glob && a.module_scope == b.module_scope
        },
{
    let ghost before = w.scopes@;
    match w.scopes.pop() {
        Some(mut frame) => {
            let ghost f0 = frame;
            frame.bindings.push(Binding { name, start });
            assert(binding_views(frame.bindings@) =~= binding_views(f0.bindings@) + seq![(name@, start)]);
            assert(frame.imports@ =~= f0.imports@ + Seq::<Import>::empty());
            assert(frame.external_crates@ =~= f0.external_crates@ + Seq::<String>::empty());
            w.scopes.push(frame);
            assert(w.scopes@.drop_last() =~= before.drop_last());
        },
        None => {},
    }
}

/// Add imports to the innermost frame, and mark a glob there when `glob`.
fn add_imports(w: &mut Walker, imports: Vec<Import>, glob: bool)
    ensures
        final(w).diagnostics == old(w).diagnostics,
        final(w).policy == old(w).policy,
        innermost_changed(*old(w), *final(w)),
        frame_grown(*old(w), *final(w), Seq::empty(), imports@, Seq::empty(), glob),
        old(w).scopes.len() > 0 ==> {
            let (a, b) = (final(w).scopes@.last(), old(w).scopes@.last());
            &&& a.imports@ == b.imports@ + imports@
            &&& a.bindings == b.bindings && a.external_crates == b.external_crates
            &&& a.has_glob == (b.has_glob || glob) && a.module_scope == b.module_scope
        },
{
    let ghost before = w.scopes@;
    match w.scopes.pop() {
        Some(mut frame) => {
            let ghost first = frame.imports@;
            let ghost orig = frame;
            let mut rest = imports;
            while rest.len() > 0
                invariant
                    frame.imports@ + rest@ == first + imports@,
                    frame.bindings == orig.bindings,
                    frame.external_crates == orig.external_crates,
                    frame.has_glob == orig.has_glob,
                    frame.module_scope == orig.module_scope,
                decreases rest.len(),
            {
                let ghost r = rest@;
                let ghost f = frame.imports@;
                let import = rest.remove(0);
                frame.imports.push(import);
                assert(r =~= seq![import] + rest@);
                assert(frame.imports@ + rest@ =~= f + r);
            }
            assert(frame.imports@ =~= first + imports@);
            assert(binding_views(frame.bindings@) =~= binding_views(orig.bindings@) + Seq::empty());
            assert(frame.external_crates@ =~= orig.external_crates@ + Seq::<String>::empty());
            if glob {
                frame.has_glob = true;
            }
            w.scopes.push(frame);
            assert(w.scopes@.drop_last() =~= before.drop_last());
        },
        None => {},
    }
}

/// Add an `extern crate` name to the innermost frame.
fn add_external_crate(w: &mut Walker, name: String)
    ensures
        final(w).diagnostics == old(w).diagnostics,
        final(w).policy == old(w).policy,
        innermost_changed(*old(w), *final(w)),
        frame_grown(*old(w), *final(w), Seq::empty(), Seq::empty(), seq![name], false),
        old(w).scopes.len() > 0 ==> {
            let (a, b) = (final(w).scopes@.last(), old(w).scopes@.last());
            &&& a.external_crates@ == b.external_crates@.push(name)
            &&& a.bindings == b.bindings && a.imports == b.imports
            &&& a.has_glob == b.has_glob && a.module_scope == b.module_scope
        },
{
    let ghost before = w.scopes@;
    match w.scopes.pop() {
        Some(mut frame) => {
            let ghost f0 = frame;
            frame.external_crates.push(name);
            assert(binding_views(frame.bindings@) =~= binding_views(f0.bindings@) + Seq::empty());
            assert(frame.imports@ =~= f0.imports@ + Seq::<Import>::empty());
            assert(frame.external_crates@ =~= f0.external_crates@ + seq![name]);
            w.scopes.push(frame);
            assert(w.scopes@.drop_last() =~= before.drop_last());
        },
        None => {},
    }
}

/// Record a `use` declaration into the innermost frame: its imports, or,
/// when cfg-guarded, only its bound names as reserved bindings.
fn record_use(w: &mut Walker, tree: &SyntaxTree, src: &[u8], i: usize, guarded: bool)
    requires
        tree_ok(tree, src),
        i < tree.nodes.len(),
    ensures
        final(w).diagnostics == old(w).diagnostics,
        final(w).policy == old(w).policy,
        ({
            let u = use_spec(*tree, src@, i, old(w).policy);
            let glob = u.1.len() > 0 && old(w).policy == RootPolicy::Declared;
            if guarded {
                frame_grown(*old(w), *final(w), reserved_names(u.0), Seq::empty(), Seq::empty(), glob)
            } else {
                exists|imports: Seq<Import>|
                    #[trigger] import_views(imports) == u.0 && frame_grown(
                        *old(w),
                        *final(w),
                        Seq::empty(),
                        imports,
                        Seq::empty(),
                        glob,
                    )
            }
        }),
{
    let ghost w0 = *w;
    let (imports, globs) = collect_use(tree, src, i, w.policy);
    let glob = globs.len() > 0 && w.policy == RootPolicy::Declared;
    let ghost u = use_spec(*tree, src@, i, w0.policy);
    assert(glob_views(globs@).len() == globs.len());
    if guarded {
        let mut rest = imports;
        let ghost total = reserved_names(u.0);
        let ghost mut done: Seq<(Seq<char>, usize)> = Seq::empty();
        proof {
            lemma_frame_grown_refl(*w);
        }
        assert(done + reserved_names(import_views(rest@)) =~= total);
        while rest.len() > 0
            invariant
                w.diagnostics == old(w).diagnostics,
                w.policy == old(w).policy,
                w0 == *old(w),
                frame_grown(w0, *w, done, Seq::empty(), Seq::empty(), false),
                done + reserved_names(import_views(rest@)) == total,
            decreases rest.len(),
        {
            let ghost r = rest@;
            let ghost w1 = *w;
            let import = rest.remove(0);
            assert(r =~= seq![import] + rest@);
            assert(reserved_names(import_views(r)) =~= seq![(import.short@, 0usize)] + reserved_names(
                import_views(rest@),
            ));
            let ghost short = import.short@;
            add_binding(w, import.short, 0);
            proof {
                lemma_frame_grown_trans(
                    w0,
                    w1,
                    *w,
                    done,
                    Seq::empty(),
                    Seq::empty(),
                    false,
                    seq![(short, 0usize)],
                    Seq::empty(),
                    Seq::empty(),
                    false,
                );
                assert(Seq::<Import>::empty() + Seq::<Import>::empty() =~= Seq::<Import>::empty());
                assert(Seq::<String>::empty() + Seq::<String>::empty() =~= Seq::<String>::empty());
                assert(done + seq![(short, 0usize)] + reserved_names(import_views(rest@)) =~= total);
                done = done + seq![(short, 0usize)];
            }
        }
        assert(reserved_names(import_views(rest@)) =~= Seq::empty());
        assert(done =~= total);
        if glob {
            let ghost w1 = *w;
            let empty: Vec<Import> = Vec::new();
            add_imports(w, empty, true);
            proof {
                lemma_frame_grown_trans(w0, w1, *w, done, Seq::empty(), Seq::empty(), false, Seq::empty(), Seq::empty(), Seq::empty(), true);
                assert(done + Seq::empty() =~= done);
                assert(Seq::<Import>::empty() + Seq::<Import>::empty() =~= Seq::<Import>::empty());
                assert(Seq::<String>::empty() + Seq::<String>::empty() =~= Seq::<String>::empty());
            }
        }
    } else {
        let ghost imps = imports@;
        add_imports(w, imports, glob);
        assert(import_views(imps) == u.0);
    }
}

/// The names a declaration node binds in its scope, and the external
/// crates an `extern crate` declaration adds.
pub open spec fn item_name_effect(tree: SyntaxTree, src: Seq<u8>, i: usize, policy: RootPolicy) -> (
    Seq<(Seq<char>, usize)>,
    Seq<Seq<char>>,
) {
    let ii = i as int;
    if kind_is(tree, ii, "extern_crate_declaration"@) {
        if policy == RootPolicy::Open {
            (Seq::empty(), Seq::empty())
        } else {
            match extern_crate_name(tree, src, ii) {
                None => (Seq::empty(), Seq::empty()),
                Some(n) => if conditional_before(tree, src, prev_named(tree, i)) {
                    (seq![(n, 0usize)], Seq::empty())
                } else {
                    (Seq::empty(), seq![n])
                },
            }
        }
    } else if named_item(tree, ii) {
        match field_child(tree, ii, "name"@) {
            Some(n) => match leaf_text_spec(tree, src, n) {
                Some(t) => (seq![(t, 0usize)], Seq::empty()),
                None => (Seq::empty(), Seq::empty()),
            },
            None => (Seq::empty(), Seq::empty()),
        }
    } else {
        (Seq::empty(), Seq::empty())
    }
}

/// Record an item's own name (or an `extern crate` name) into the innermost frame.
fn record_item_name(w: &mut Walker, tree: &SyntaxTree, src: &[u8], i: usize)
    requires
        tree_ok(tree, src),
        i < tree.nodes.len(),
    ensures
        final(w).diagnostics == old(w).diagnostics,
        final(w).policy == old(w).policy,
        exists|crates: Seq<String>|
            views(crates) == item_name_effect(*tree, src@, i, old(w).policy).1 && #[trigger] frame_grown(
                *old(w),
                *final(w),
                item_name_effect(*tree, src@, i, old(w).policy).0,
                Seq::empty(),
                crates,
                false,
            ),
{
    let ghost w0 = *w;
    proof {
        lemma_frame_grown_refl(*w);
        assert(views(Seq::<String>::empty()) =~= Seq::empty());
    }
    if tree.is_kind(i, "extern_crate_declaration") {
        if w.policy == RootPolicy::Open {
            assert(item_name_effect(*tree, src@, i, w0.policy).0 =~= Seq::empty());
            assert(views(Seq::<String>::empty()) == item_name_effect(*tree, src@, i, w0.policy).1 && frame_grown(
                w0,
                *w,
                item_name_effect(*tree, src@, i, w0.policy).0,
                Seq::empty(),
                Seq::<String>::empty(),
                false,
            ));
            return;
        }
        let field = match tree.child_by_field(i, "alias") {
            Some(a) => Some(a),
            None => tree.child_by_field(i, "name"),
        };
        let name = match field {
            Some(n) => leaf_text(tree, src, n),
            None => None,
        };
        if let Some(name) = name {
            if has_conditional_attribute(tree, src, i) {
                add_binding(w, name, 0);
                assert(views(Seq::<String>::empty()) == item_name_effect(*tree, src@, i, w0.policy).1 && frame_grown(
                    w0,
                    *w,
                    item_name_effect(*tree, src@, i, w0.policy).0,
                    Seq::empty(),
                    Seq::<String>::empty(),
                    false,
                ));
            } else {
                let ghost n = name;
                add_external_crate(w, name);
                assert(views(seq![n]) =~= seq![n@]);
                assert(item_name_effect(*tree, src@, i, w0.policy).0 =~= Seq::empty());
                assert(views(seq![n]) == item_name_effect(*tree, src@, i, w0.policy).1 && frame_grown(
                    w0,
                    *w,
                    item_name_effect(*tree, src@, i, w0.policy).0,
                    Seq::empty(),
                    seq![n],
                    false,
                ));
            }
        } else {
            assert(item_name_effect(*tree, src@, i, w0.policy).0 =~= Seq::empty());
            assert(views(Seq::<String>::empty()) == item_name_effect(*tree, src@, i, w0.policy).1 && frame_grown(
                w0,
                *w,
                item_name_effect(*tree, src@, i, w0.policy).0,
                Seq::empty(),
                Seq::<String>::empty(),
                false,
            ));
        }
        return;
    }
    if tree.is_kind(i, "function_item") || tree.is_kind(i, "struct_item") || tree.is_kind(i, "enum_item")
        || tree.is_kind(i, "union_item") || tree.is_kind(i, "type_item") || tree.is_kind(i, "trait_item")
        || tree.is_kind(i, "const_item") || tree.is_kind(i, "static_item") || tree.is_kind(i, "mod_item")
        || tree.is_kind(i, "macro_definition") {
        let name = match tree.child_by_field(i, "name") {
            Some(n) => leaf_text(tree, src, n),
            None => None,
        };
        if let Some(name) = name {
            add_binding(w, name, 0);
        } else {
            assert(item_name_effect(*tree, src@, i, w0.policy).0 =~= Seq::empty());
        }
    } else {
        assert(item_name_effect(*tree, src@, i, w0.policy).0 =~= Seq::empty());
    }
    assert(views(Seq::<String>::empty()) == item_name_effect(*tree, src@, i, w0.policy).1 && frame_grown(
        w0,
        *w,
        item_name_effect(*tree, src@, i, w0.policy).0,
        Seq::empty(),
        Seq::<String>::empty(),
        false,
    ));
}

/// Every identifier a pattern binds.
fn pattern_names(tree: &SyntaxTree, src: &[u8], i: usize, out: &mut Vec<String>)
    requires
        tree_ok(tree, src),
        i < tree.nodes.len(),
    ensures
        views(final(out)@) == views(old(out)@) + pattern_spec(*tree, src@, i as int),
    decreases tree.nodes.len() - i,
{
    let ghost start = views(out@);
    if let Some(name) = leaf_text(tree, src, i) {
        out.push(name);
        assert(views(out@) =~= start + seq![name@]);
        return;
    }
    let kids = tree.named_children(i);
    let mut k: usize = 0;
    assert(kids@.skip(0) =~= kids@);
    while k < kids.len()
        invariant
            tree_ok(tree, src),
            i < tree.nodes.len(),
            k <= kids.len(),
            forall|j: int| #![trigger kids@[j]] 0 <= j < kids.len() ==> i < kids@[j] < tree.nodes.len(),
            views(out@) + pattern_kids(*tree, src@, kids@.skip(k as int), i as int) == start + pattern_spec(
                *tree,
                src@,
                i as int,
            ),
        decreases kids.len() - k,
    {
        let c = kids[k];
        assert(kids@.skip(k as int)[0] == c);
        assert(kids@.skip(k as int).drop_first() =~= kids@.skip(k + 1));
        let ghost before = views(out@);
        let ghost after = pattern_kids(*tree, src@, kids@.skip(k + 1), i as int);
        pattern_names(tree, src, c, out);
        assert(views(out@) + after =~= before + (pattern_spec(*tree, src@, c as int) + after));
        k += 1;
    }
    assert(views(out@) + pattern_kids(*tree, src@, kids@.skip(k as int), i as int) =~= views(out@));
}

/// Record the names a local pattern node binds, counting from its position.
fn record_bindings(w: &mut Walker, tree: &SyntaxTree, src: &[u8], i: usize)
    requires
        tree_ok(tree, src),
        i < tree.nodes.len(),
    ensures
        final(w).diagnostics == old(w).diagnostics,
        final(w).policy == old(w).policy,
        frame_grown(*old(w), *final(w), local_names_spec(*tree, src@, i, old(w).policy), Seq::empty(), Seq::empty(), false),
{
    let ghost w0 = *w;
    proof {
        lemma_frame_grown_refl(*w);
    }
    let mut names: Vec<String> = Vec::new();
    let start = tree.nodes[i].start;
    if tree.is_kind(i, "type_parameter") {
        if w.policy == RootPolicy::Declared {
            if let Some(n) = tree.child_by_field(i, "name") {
                if let Some(name) = leaf_text(tree, src, n) {
                    add_binding(w, name, 0);
                    return;
                }
            }
        }
        assert(local_names_spec(*tree, src@, i, w0.policy) =~= Seq::empty());
        return;
    }
    if tree.is_kind(i, "let_declaration") || tree.is_kind(i, "let_condition") || tree.is_kind(i, "parameter")
        || tree.is_kind(i, "for_expression") || tree.is_kind(i, "match_arm") || tree.is_kind(
        i,
        "closure_parameters",
    ) {
        match tree.child_by_field(i, "pattern") {
            Some(p) => {
                pattern_names(tree, src, p, &mut names);
                assert(views(names@) =~= pattern_spec(*tree, src@, p as int));
            },
            None => {
                let kids = tree.named_children(i);
                let mut k: usize = 0;
                assert(kids@.skip(0) =~= kids@);
                assert(views(names@) + pattern_kids(*tree, src@, kids@, i as int) =~= pattern_kids(
                    *tree,
                    src@,
                    kids@,
                    i as int,
                ));
                while k < kids.len()
                    invariant
                        tree_ok(tree, src),
                        i < tree.nodes.len(),
                        k <= kids.len(),
                        forall|j: int|
                            #![trigger kids@[j]]
                            0 <= j < kids.len() ==> i < kids@[j] < tree.nodes.len(),
                        views(names@) + pattern_kids(*tree, src@, kids@.skip(k as int), i as int) == pattern_kids(
                            *tree,
                            src@,
                            kids@,
                            i as int,
                        ),
                    decreases kids.len() - k,
                {
                    let c = kids[k];
                    assert(kids@.skip(k as int)[0] == c);
                    assert(kids@.skip(k as int).drop_first() =~= kids@.skip(k + 1));
                    let ghost before = views(names@);
                    let ghost after = pattern_kids(*tree, src@, kids@.skip(k + 1), i as int);
                    pattern_names(tree, src, c, &mut names);
                    assert(views(names@) + after =~= before + (pattern_spec(*tree, src@, c as int) + after));
                    k += 1;
                }
                assert(views(names@) + pattern_kids(*tree, src@, kids@.skip(k as int), i as int) =~= views(names@));
            },
        }
    } else {
        assert(local_names_spec(*tree, src@, i, w0.policy) =~= Seq::empty());
        return;
    }
    let ghost total = local_names_spec(*tree, src@, i, w0.policy);
    assert(total =~= views(names@).map_values(|n: Seq<char>| (n, start)));
    let ghost mut done: Seq<(Seq<char>, usize)> = Seq::empty();
    assert(done + views(names@).map_values(|n: Seq<char>| (n, start)) =~= total);
    while names.len() > 0
        invariant
            w.diagnostics == old(w).diagnostics,
            w.policy == old(w).policy,
            w0 == *old(w),
            frame_grown(w0, *w, done, Seq::empty(), Seq::empty(), false),
            done + views(names@).map_values(|n: Seq<char>| (n, start)) == total,
        decreases names.len(),
    {
        let ghost r = names@;
        let ghost w1 = *w;
        let name = names.remove(0);
        let ghost nv = name@;
        assert(r =~= seq![name] + names@);
        assert(views(r).map_values(|n: Seq<char>| (n, start)) =~= seq![(nv, start)] + views(names@).map_values(
            |n: Seq<char>| (n, start),
        ));
        add_binding(w, name, start);
        proof {
            lemma_frame_grown_trans(
                w0,
                w1,
                *w,
                done,
                Seq::empty(),
                Seq::empty(),
                false,
                seq![(nv, start)],
                Seq::empty(),
                Seq::empty(),
                false,
            );
            assert(Seq::<Import>::empty() + Seq::<Import>::empty() =~= Seq::<Import>::empty());
            assert(Seq::<String>::empty() + Seq::<String>::empty() =~= Seq::<String>::empty());
            assert(done + seq![(nv, start)] + views(names@).map_values(|n: Seq<char>| (n, start)) =~= total);
            done = done + seq![(nv, start)];
        }
    }
    assert(views(names@).map_values(|n: Seq<char>| (n, start)) =~= Seq::empty());
    assert(done =~= total);
}

/// True when some frame mentions `short` at `at`.
fn any_frame_mentions(scopes: &Vec<ScopeFrame>, short: &str, at: usize) -> (r: bool)
    ensures
        r == exists|f: int| 0 <= f < scopes.len() && crate::rust::scope::mentions(#[trigger] scopes[f], short@, at),
{
    let n = scopes.len();
    let mut f: usize = 0;
    while f < n
        invariant
            n == scopes.len(),
            f <= n,
            forall|g: int| 0 <= g < f ==> !crate::rust::scope::mentions(#[trigger] scopes[g], short@, at),
        decreases n - f,
    {
        if frame_mentions(&scopes[f], short, at) {
            return true;
        }
        f += 1;
    }
    false
}

/// The replacement for a path under the covering import `(f, k)`, with the
/// import's short name; `None` when the innermost frame mentioning that name
/// shadows it.
fn suggestion_under(scopes: &Vec<ScopeFrame>, f: usize, k: usize, segments: &Vec<String>, at: usize) -> (r:
    Option<(String, String)>)
    requires
        f < scopes.len(),
        k < scopes[f as int].imports.len(),
        scopes[f as int].imports[k as int].segments.len() <= segments.len(),
    ensures
        match r {
            Some((a, b)) => Some((a@, b@)),
            None => None,
        } == suggestion_spec(
            scopes@,
            scopes.len() as int,
            scopes[f as int].imports[k as int].short@,
            views(scopes[f as int].imports[k as int].segments@),
            views(segments@),
            at,
        ),
{
    let matched = &scopes[f].imports[k];
    let short = matched.short.as_str();
    let ghost path = views(matched.segments@);
    let mut g = scopes.len();
    while g > 0
        invariant
            g <= scopes.len(),
            f < scopes.len(),
            k < scopes[f as int].imports.len(),
            matched == &scopes[f as int].imports[k as int],
            matched.segments.len() <= segments.len(),
            short@ == matched.short@,
            path == views(matched.segments@),
            suggestion_spec(scopes@, scopes.len() as int, short@, path, views(segments@), at) == suggestion_spec(
                scopes@,
                g as int,
                short@,
                path,
                views(segments@),
                at,
            ),
        decreases g,
    {
        g -= 1;
        if frame_mentions(&scopes[g], short, at) {
            if frame_shadows(&scopes[g], short, &matched.segments, at) {
                return None;
            }
            let tail = slice_strings(segments, matched.segments.len(), segments.len());
            let mut replacement = copy_string(&matched.short);
            if tail.len() > 0 {
                push_str(&mut replacement, "::");
                let joined = join(&tail, "::");
                push_str(&mut replacement, joined.as_str());
            }
            assert(replacement@ == replacement_spec(
                short@,
                views(segments@).subrange(path.len() as int, segments.len() as int),
            ));
            return Some((copy_string(&matched.short), replacement));
        }
    }
    None
}

/// The path `segs` at `at` counts as fully qualified under the walker's
/// policy.
pub open spec fn eligible_spec(w: Walker, segs: Seq<Seq<char>>, at: usize) -> bool {
    match w.policy {
        RootPolicy::Declared => full_path_spec(w.scopes@, segs, at),
        RootPolicy::Open => segs.len() >= 2 && !primitive_name(segs[0]) && (views(w.roots@).contains(segs[0]) || (
        segs[0].len() > 0 && is_lower(segs[0][0]))),
    }
}

/// Under declared roots, a path of two or more segments that starts at
/// `crate`, `std`, `core` or `alloc` is reported as fully qualified when no
/// frame hides, declares or otherwise speaks of that root; a path starting
/// at any other plain name with no such frame evidence is not.
pub proof fn lemma_declared_roots(w: Walker, segs: Seq<Seq<char>>, at: usize)
    requires
        w.policy == RootPolicy::Declared,
        segs.len() >= 2,
        segs[0].len() > 0,
        segs[0] != "self"@,
        segs[0] != "super"@,
        root_lookup(w.scopes@, w.scopes.len() as int, segs[0], at) is None,
    ensures
        eligible_spec(w, segs, at) <==> (segs[0] == "crate"@ || segs[0] == "std"@ || segs[0] == "core"@ || segs[0]
            == "alloc"@),
{
    assert(segs[0] != Seq::<char>::empty());
}

/// The advice for a qualified path: the suggestion of the covering import
/// (the longest visible `use` that prefixes the path), or, without one and
/// unless its short name is already taken, a new `use` of its import path.
pub open spec fn advice_spec(w: Walker, segs: Seq<Seq<char>>, at: usize) -> Option<Seq<char>> {
    match cover_spec(w.scopes@, segs) {
        Some((f, k)) => match suggestion_spec(
            w.scopes@,
            w.scopes.len() as int,
            w.scopes@[f].imports[k].short@,
            views(w.scopes@[f].imports[k].segments@),
            segs,
            at,
        ) {
            Some((short, replacement)) => Some(covered_advice(w.policy, replacement, short)),
            None => None,
        },
        None => {
            let n = import_len(segs) as int;
            if exists|f: int| 0 <= f < w.scopes.len() && mentions(#[trigger] w.scopes@[f], segs[n - 1], at) {
                None
            } else {
                Some(
                    missing_advice(
                        w.policy,
                        join_spec(segs.subrange(0, n), "::"@),
                        join_spec(segs.subrange(n - 1, segs.len() as int), "::"@),
                    ),
                )
            }
        },
    }
}

/// What the walker reports for the chain head `i`: its segments and advice,
/// when the path is eligible at a representable line.
pub open spec fn occurrence_spec(w: Walker, tree: SyntaxTree, src: Seq<u8>, i: int) -> Option<(Seq<Seq<char>>, Seq<char>)> {
    let at = tree.nodes[i].start;
    match scoped_segments_spec(tree, src, i as usize, w.policy) {
        None => None,
        Some(segs) => if !eligible_spec(w, segs, at) || tree.nodes[i].row >= usize::MAX - 1 {
            None
        } else {
            match advice_spec(w, segs, at) {
                Some(advice) => Some((segs, advice)),
                None => None,
            }
        },
    }
}

/// `d` is the hint the walker reports for the chain head `i`.
pub open spec fn occurrence_hint(w: Walker, tree: SyntaxTree, src: Seq<u8>, i: int, d: Diagnostic) -> bool {
    match occurrence_spec(w, tree, src, i) {
        None => false,
        Some((segs, advice)) => {
            &&& d.severity == Severity::Hint
            &&& d.code@ == CODE_QUALIFIED_PATH@
            &&& opt_view(d.title) == match w.policy {
                RootPolicy::Declared => Some("full namespace qualification in code"@),
                RootPolicy::Open => None,
            }
            &&& d.message@ == hint_message(w.policy, join_spec(segs, "::"@), advice)
            &&& d.line == tree.nodes[i].row + 1
            &&& (d.item_kind@, opt_view(d.item_name)) == enclosing_spec(tree, src, i as usize)
        }
    }
}

/// Record one chain head as a hint when it is eligible and has advice.
fn record_occurrence(w: &mut Walker, tree: &SyntaxTree, src: &[u8], i: usize)
    requires
        tree_ok(tree, src),
        i < tree.nodes.len(),
        all_hints(old(w).diagnostics@),
    ensures
        all_hints(final(w).diagnostics@),
        final(w).policy == old(w).policy,
        final(w).roots == old(w).roots,
        final(w).scopes == old(w).scopes,
        occurrence_spec(*old(w), *tree, src@, i as int) is None ==> final(w).diagnostics@ == old(w).diagnostics@,
        occurrence_spec(*old(w), *tree, src@, i as int) is Some ==> {
            &&& final(w).diagnostics@.len() == old(w).diagnostics@.len() + 1
            &&& final(w).diagnostics@.drop_last() == old(w).diagnostics@
            &&& occurrence_hint(*old(w), *tree, src@, i as int, final(w).diagnostics@.last())
        },
{
    let segments = match scoped_segments(tree, src, i, w.policy) {
        Some(s) => s,
        None => return,
    };
    let at = tree.nodes[i].start;
    let eligible = match w.policy {
        RootPolicy::Declared => is_full_path(&w.scopes, &segments, at),
        RootPolicy::Open => {
            let first = segments[0].as_str();
            segments.len() >= 2 && !is_primitive(first) && (strings_contain(&w.roots, first)
                || starts_lower(first))
        },
    };
    if !eligible {
        return;
    }
    if tree.nodes[i].row >= usize::MAX - 1 {
        return;
    }
    let line = tree.nodes[i].row + 1;
    let (kind, name) = enclosing_item(tree, src, i);
    let path = join(&segments, "::");
    let advice = match covering_import(&w.scopes, &segments) {
        Some((f, k)) => match suggestion_under(&w.scopes, f, k, &segments, at) {
            Some((short, replacement)) => Some(
                build_covered_advice(w.policy, replacement.as_str(), short.as_str()),
            ),
            None => None,
        },
        None => {
            let n = use_path_len(&segments);
            let short = segments[n - 1].as_str();
            if any_frame_mentions(&w.scopes, short, at) {
                None
            } else {
                let head = slice_strings(&segments, 0, n);
                let imported = join(&head, "::");
                let tail = slice_strings(&segments, n - 1, segments.len());
                let replacement = join(&tail, "::");
                Some(build_missing_advice(w.policy, imported.as_str(), replacement.as_str()))
            }
        },
    };
    if let Some(advice) = advice {
        let message = build_message(w.policy, path.as_str(), advice.as_str());
        let title = match w.policy {
            RootPolicy::Declared => Some(owned("full namespace qualification in code")),
            RootPolicy::Open => None,
        };
        let d = Diagnostic {
            severity: Severity::Hint,
            code: CODE_QUALIFIED_PATH,
            title,
            message,
            line,
            item_kind: kind,
            item_name: name,
        };
        w.diagnostics.push(d);
        assert(all_hints(w.diagnostics@)) by {
            assert forall|j: int| 0 <= j < w.diagnostics@.len() implies #[trigger] w.diagnostics@[j].code@
                == CODE_QUALIFIED_PATH@ && w.diagnostics@[j].severity == Severity::Hint
                && w.diagnostics@[j].line >= 1 by {
                if j < w.diagnostics@.len() - 1 {
                    assert(w.diagnostics@[j] == old(w).diagnostics@[j]);
                }
            }
        }
    }
}

/// A `source_file`, `declaration_list` or `block` carries an inner
/// conditional attribute among its children.
fn has_inner_conditional(tree: &SyntaxTree, src: &[u8], i: usize) -> (r: bool)
    requires
        tree_ok(tree, src),
        i < tree.nodes.len(),
    ensures
        r == ((kind_is(*tree, i as int, "source_file"@) || kind_is(*tree, i as int, "declaration_list"@) || kind_is(
            *tree,
            i as int,
            "block"@,
        )) && inner_conditional_among(*tree, src@, named_children_spec(*tree, i))),
{
    if !(tree.is_kind(i, "source_file") || tree.is_kind(i, "declaration_list") || tree.is_kind(i, "block")) {
        return false;
    }
    let kids = tree.named_children(i);
    let mut k: usize = 0;
    while k < kids.len()
        invariant
            tree_ok(tree, src),
            k <= kids.len(),
            kids@ == named_children_spec(*tree, i),
            kind_is(*tree, i as int, "source_file"@) || kind_is(*tree, i as int, "declaration_list"@) || kind_is(
                *tree,
                i as int,
                "block"@,
            ),
            forall|j: int| #![trigger kids@[j]] 0 <= j < kids.len() ==> i < kids@[j] < tree.nodes.len(),
            forall|j: int|
                0 <= j < k ==> !(#[trigger] kind_is(*tree, kids@[j] as int, "inner_attribute_item"@)
                    && conditional_attribute(*tree, src@, kids@[j] as int)),
        decreases kids.len() - k,
    {
        let c = kids[k];
        if tree.is_kind(c, "inner_attribute_item") && is_conditional_attribute(tree, src, c) {
            assert(kind_is(*tree, kids@[k as int] as int, "inner_attribute_item"@));
            return true;
        }
        k += 1;
    }
    false
}

/// True when the parent of node `i` is a `mod_item`.
fn parent_is_mod(tree: &SyntaxTree, i: usize) -> (r: bool)
    requires
        tree.wf(),
        i < tree.nodes.len(),
    ensures
        r == (tree.nodes[i as int].parent matches Some(p) && kind_is(*tree, p as int, "mod_item"@)),
{
    match tree.nodes[i].parent {
        Some(p) => tree.is_kind(p, "mod_item"),
        None => false,
    }
}

/// Node `i` is a scoped path node.
pub open spec fn scoped_kind(tree: SyntaxTree, i: int) -> bool {
    kind_is(tree, i, "scoped_identifier"@) || kind_is(tree, i, "scoped_type_identifier"@)
}

/// Node `i` opens a lexical scope.
pub open spec fn scope_kind(tree: SyntaxTree, i: int) -> bool {
    ||| kind_is(tree, i, "source_file"@)
    ||| kind_is(tree, i, "block"@)
    ||| kind_is(tree, i, "declaration_list"@)
    ||| kind_is(tree, i, "function_item"@)
    ||| kind_is(tree, i, "closure_expression"@)
    ||| kind_is(tree, i, "for_expression"@)
    ||| kind_is(tree, i, "match_arm"@)
}

/// The walker passes over node `i` and its subtree: anything under a
/// conditional attribute, functions and item lists holding one, `use`
/// declarations, attributes and macros.
pub open spec fn exempt(tree: SyntaxTree, src: Seq<u8>, i: int) -> bool {
    ||| conditional_before(tree, src, prev_named(tree, i as usize))
    ||| (kind_is(tree, i, "function_item"@) && subtree_any(tree, i, conditional_attributes(tree, src)))
    ||| ((kind_is(tree, i, "source_file"@) || kind_is(tree, i, "declaration_list"@) || kind_is(tree, i, "block"@))
        && inner_conditional_among(tree, src, named_children_spec(tree, i as usize)))
    ||| kind_is(tree, i, "use_declaration"@)
    ||| kind_is(tree, i, "attribute_item"@)
    ||| kind_is(tree, i, "inner_attribute_item"@)
    ||| kind_is(tree, i, "macro_invocation"@)
    ||| kind_is(tree, i, "macro_definition"@)
}

/// The scope node `i` is a module scope: the file, or a `mod` item's body.
pub open spec fn module_scope_at(tree: SyntaxTree, i: int) -> bool {
    kind_is(tree, i, "source_file"@) || (tree.nodes[i].parent matches Some(q) && kind_is(tree, q as int, "mod_item"@))
}

/// `b` is `a` with one empty innermost frame pushed, a module scope when
/// `module_scope`.
pub open spec fn frame_pushed(a: Walker, b: Walker, module_scope: bool) -> bool {
    &&& b.policy == a.policy
    &&& b.roots == a.roots
    &&& b.diagnostics == a.diagnostics
    &&& b.scopes.len() == a.scopes.len() + 1
    &&& b.scopes@.drop_last() == a.scopes@
    &&& b.scopes@.last().imports.len() == 0
    &&& b.scopes@.last().bindings.len() == 0
    &&& b.scopes@.last().external_crates.len() == 0
    &&& !b.scopes@.last().has_glob
    &&& b.scopes@.last().module_scope == module_scope
}

/// `b` is `a` with the `use` declaration `c` recorded in its innermost
/// frame: its imports, or, under a conditional attribute, only the names
/// it binds as reserved bindings.
pub open spec fn use_recorded(a: Walker, b: Walker, tree: SyntaxTree, src: Seq<u8>, c: usize) -> bool {
    let u = use_spec(tree, src, c, a.policy);
    let glob = u.1.len() > 0 && a.policy == RootPolicy::Declared;
    if conditional_before(tree, src, prev_named(tree, c)) {
        frame_grown(a, b, reserved_names(u.0), Seq::empty(), Seq::empty(), glob)
    } else {
        exists|imports: Seq<Import>|
            #[trigger] import_views(imports) == u.0 && frame_grown(a, b, Seq::empty(), imports, Seq::empty(), glob)
    }
}

/// `b` is `a` with the child `c` of a scope node recorded: the name it
/// declares or the crate it adds, and, for a `use` declaration, its imports.
pub open spec fn kid_recorded(a: Walker, b: Walker, tree: SyntaxTree, src: Seq<u8>, c: usize) -> bool {
    let e = item_name_effect(tree, src, c, a.policy);
    exists|m: Walker, crates: Seq<String>|
        #[trigger] frame_grown(a, m, e.0, Seq::empty(), crates, false) && views(crates) == e.1 && if kind_is(
            tree,
            c as int,
            "use_declaration"@,
        ) {
            use_recorded(m, b, tree, src, c)
        } else {
            b == m
        }
}

/// `b` is `a` with the children `kids` of a scope node recorded in order.
pub open spec fn kids_recorded(a: Walker, b: Walker, tree: SyntaxTree, src: Seq<u8>, kids: Seq<usize>) -> bool
    decreases kids.len(),
{
    if kids.len() == 0 {
        b == a
    } else {
        exists|m: Walker| kids_recorded(a, m, tree, src, kids.drop_last()) && #[trigger] kid_recorded(m, b, tree, src, kids.last())
    }
}

/// `b` is `a` after the chain head `i`, if it is one, was reported.
pub open spec fn occurrence_recorded(a: Walker, b: Walker, tree: SyntaxTree, src: Seq<u8>, i: int) -> bool {
    &&& b.policy == a.policy
    &&& b.roots == a.roots
    &&& b.scopes == a.scopes
    &&& if scoped_kind(tree, i) && (match tree.nodes[i].parent {
        Some(p) => !scoped_kind(tree, p as int),
        None => true,
    }) && occurrence_spec(a, tree, src, i) is Some {
        &&& b.diagnostics@.len() == a.diagnostics@.len() + 1
        &&& b.diagnostics@.drop_last() == a.diagnostics@
        &&& occurrence_hint(a, tree, src, i, b.diagnostics@.last())
    } else {
        b.diagnostics@ == a.diagnostics@
    }
}

/// `b` is `a` on entering the non-exempt node `i`: a frame pushed for a
/// scope with its children's declarations and `use`s, then the node's own
/// bindings, then its hint if it heads a chain.
pub open spec fn entered(a: Walker, b: Walker, tree: SyntaxTree, src: Seq<u8>, i: int) -> bool {
    exists|m1: Walker, m2: Walker|
        #![trigger frame_grown(m1, m2, local_names_spec(tree, src, i as usize, a.policy), Seq::empty(), Seq::empty(), false)]
        (if scope_kind(tree, i) {
            exists|p: Walker|
                #[trigger] frame_pushed(
                    a,
                    p,
                    module_scope_at(tree, i),
                ) && kids_recorded(p, m1, tree, src, named_children_spec(tree, i as usize))
        } else {
            m1 == a
        }) && frame_grown(m1, m2, local_names_spec(tree, src, i as usize, a.policy), Seq::empty(), Seq::empty(), false)
            && occurrence_recorded(m2, b, tree, src, i)
}

/// `b` is `a` after leaving node `i`: the frame it pushed popped, unless
/// it was the only one.
pub open spec fn left(a: Walker, b: Walker, tree: SyntaxTree, i: int) -> bool {
    if scope_kind(tree, i) && a.scopes.len() > 1 {
        &&& b.policy == a.policy
        &&& b.roots == a.roots
        &&& b.diagnostics == a.diagnostics
        &&& b.scopes@ == a.scopes@.drop_last()
    } else {
        b == a
    }
}

/// `a` and `b` run under the same policy and standard roots.
pub open spec fn same_setting(a: Walker, b: Walker) -> bool {
    a.policy == b.policy && a.roots == b.roots
}

/// `b` is `a` after walking the subtree of node `i`.
pub open spec fn walked(a: Walker, b: Walker, tree: SyntaxTree, src: Seq<u8>, i: int) -> bool
    decreases tree.nodes.len() - i, 1int, 0int,
{
    if exempt(tree, src, i) {
        b == a
    } else {
        exists|m: Walker, n: Walker|
            #![trigger entered(a, m, tree, src, i), left(n, b, tree, i)]
            entered(a, m, tree, src, i) && walked_kids(m, n, tree, src, i, named_children_spec(tree, i as usize))
                && left(n, b, tree, i)
    }
}

/// `b` is `a` after walking the subtrees of the children `kids` of node
/// `i` in order.
pub open spec fn walked_kids(a: Walker, b: Walker, tree: SyntaxTree, src: Seq<u8>, i: int, kids: Seq<usize>) -> bool
    decreases tree.nodes.len() - i, 0int, kids.len(),
{
    if kids.len() == 0 {
        b == a
    } else if i < kids.last() < tree.nodes.len() {
        exists|m: Walker|
            #[trigger] same_setting(m, b) && walked_kids(a, m, tree, src, i, kids.drop_last()) && walked(
                m,
                b,
                tree,
                src,
                kids.last() as int,
            )
    } else {
        false
    }
}

/// A reported chain head is a recorded occurrence.
proof fn lemma_occurrence_reported(a: Walker, b: Walker, tree: SyntaxTree, src: Seq<u8>, i: int)
    requires
        scoped_kind(tree, i),
        match tree.nodes[i].parent {
            Some(p) => !scoped_kind(tree, p as int),
            None => true,
        },
        occurrence_spec(a, tree, src, i) is Some,
        b.diagnostics@.len() == a.diagnostics@.len() + 1,
        b.diagnostics@.drop_last() == a.diagnostics@,
        occurrence_hint(a, tree, src, i, b.diagnostics@.last()),
        b.policy == a.policy,
        b.roots == a.roots,
        b.scopes == a.scopes,
    ensures
        occurrence_recorded(a, b, tree, src, i),
{
}

/// Recording one more child extends the record of those before it.
proof fn lemma_kids_step(a: Walker, m: Walker, b: Walker, tree: SyntaxTree, src: Seq<u8>, kids: Seq<usize>)
    requires
        kids.len() > 0,
        kids_recorded(a, m, tree, src, kids.drop_last()),
        kid_recorded(m, b, tree, src, kids.last()),
    ensures
        kids_recorded(a, b, tree, src, kids),
{
}

/// Walking one more child extends the walk of those before it.
proof fn lemma_walked_kids_step(a: Walker, m: Walker, b: Walker, tree: SyntaxTree, src: Seq<u8>, i: int, kids: Seq<usize>)
    requires
        kids.len() > 0,
        i < kids.last() < tree.nodes.len(),
        same_setting(m, b),
        walked_kids(a, m, tree, src, i, kids.drop_last()),
        walked(m, b, tree, src, kids.last() as int),
    ensures
        walked_kids(a, b, tree, src, i, kids),
{
}

/// Walk the subtree of node `i`: maintain scopes, record occurrences, and
/// skip exempt spans.
fn walk(w: &mut Walker, tree: &SyntaxTree, src: &[u8], i: usize)
    requires
        tree_ok(tree, src),
        i < tree.nodes.len(),
        all_hints(old(w).diagnostics@),
    ensures
        all_hints(final(w).diagnostics@),
        final(w).policy == old(w).policy,
        final(w).roots == old(w).roots,
        walked(*old(w), *final(w), *tree, src@, i as int),
    decreases tree.nodes.len() - i,
{
    let ghost w0 = *w;
    if has_conditional_attribute(tree, src, i) || (tree.is_kind(i, "function_item") && contains_conditional(
        tree,
        src,
        i,
    )) || has_inner_conditional(tree, src, i) {
        return;
    }
    if tree.is_kind(i, "use_declaration") || tree.is_kind(i, "attribute_item") || tree.is_kind(
        i,
        "inner_attribute_item",
    ) || tree.is_kind(i, "macro_invocation") || tree.is_kind(i, "macro_definition") {
        return;
    }
    assert(!exempt(*tree, src@, i as int));
    let pushed = is_scope(tree, i);
    let ghost mut wp = w0;
    if pushed {
        let module_scope = tree.is_kind(i, "source_file") || parent_is_mod(tree, i);
        w.scopes.push(ScopeFrame::new(module_scope));
        proof {
            wp = *w;
            assert(w.scopes@.drop_last() =~= w0.scopes@);
            assert(module_scope == module_scope_at(*tree, i as int));
            assert(frame_pushed(w0, wp, module_scope_at(*tree, i as int)));
        }
        let kids = tree.named_children(i);
        let mut k: usize = 0;
        proof {
            assert(kids@.take(0) =~= Seq::<usize>::empty());
        }
        while k < kids.len()
            invariant
                tree_ok(tree, src),
                all_hints(w.diagnostics@),
                w.policy == old(w).policy,
                w.roots == old(w).roots,
                wp.policy == old(w).policy,
                k <= kids.len(),
                kids@ == named_children_spec(*tree, i),
                kids_recorded(wp, *w, *tree, src@, kids@.take(k as int)),
                forall|j: int| #![trigger kids@[j]] 0 <= j < kids.len() ==> i < kids@[j] < tree.nodes.len(),
            decreases kids.len() - k,
        {
            let c = kids[k];
            let ghost before = *w;
            record_item_name(w, tree, src, c);
            if tree.is_kind(c, "use_declaration") {
                let guarded = has_conditional_attribute(tree, src, c);
                record_use(w, tree, src, c, guarded);
            }
            proof {
                assert(kid_recorded(before, *w, *tree, src@, c));
                assert(kids@.take(k + 1).drop_last() =~= kids@.take(k as int));
                assert(kids@.take(k + 1).last() == c);
                lemma_kids_step(wp, before, *w, *tree, src@, kids@.take(k + 1));
            }
            k += 1;
        }
        proof {
            assert(kids@.take(k as int) =~= kids@);
        }
    }
    let ghost w1 = *w;
    record_bindings(w, tree, src, i);
    let ghost w2 = *w;
    let head = is_chain_head(tree, i);
    if head {
        record_occurrence(w, tree, src, i);
    }
    proof {
        if head && occurrence_spec(w2, *tree, src@, i as int) is Some {
            lemma_occurrence_reported(w2, *w, *tree, src@, i as int);
        }
        assert(occurrence_recorded(w2, *w, *tree, src@, i as int));
        if pushed {
            assert(exists|p: Walker|
                #[trigger] frame_pushed(
                    w0,
                    p,
                    module_scope_at(*tree, i as int),
                ) && kids_recorded(p, w1, *tree, src@, named_children_spec(*tree, i)));
        }
        assert(entered(w0, *w, *tree, src@, i as int));
    }
    let ghost w3 = *w;
    let kids = tree.named_children(i);
    let mut k: usize = 0;
    proof {
        assert(kids@.take(0) =~= Seq::<usize>::empty());
    }
    while k < kids.len()
        invariant
            tree_ok(tree, src),
            i < tree.nodes.len(),
            all_hints(w.diagnostics@),
            w.policy == old(w).policy,
            w.roots == old(w).roots,
            k <= kids.len(),
            kids@ == named_children_spec(*tree, i),
            walked_kids(w3, *w, *tree, src@, i as int, kids@.take(k as int)),
            forall|j: int| #![trigger kids@[j]] 0 <= j < kids.len() ==> i < kids@[j] < tree.nodes.len(),
        decreases kids.len() - k,
    {
        let ghost before = *w;
        walk(w, tree, src, kids[k]);
        proof {
            assert(kids@.take(k + 1).drop_last() =~= kids@.take(k as int));
            assert(kids@.take(k + 1).last() == kids@[k as int]);
            assert(i < kids@[k as int] < tree.nodes.len());
            lemma_walked_kids_step(w3, before, *w, *tree, src@, i as int, kids@.take(k + 1));
        }
        k += 1;
    }
    proof {
        assert(kids@.take(k as int) =~= kids@);
    }
    let ghost w4 = *w;
    if pushed && w.scopes.len() > 1 {
        w.scopes.pop();
        proof {
            assert(w.scopes@ =~= w4.scopes@.drop_last());
        }
    }
    proof {
        assert(left(w4, *w, *tree, i as int));
        assert(walked(w0, *w, *tree, src@, i as int));
    }
}

/// Gather the first segment of every `use` path into the root evidence.
fn collect_roots(w: &mut Walker, tree: &SyntaxTree, src: &[u8], i: usize)
    requires
        tree_ok(tree, src),
        i < tree.nodes.len(),
    ensures
        final(w).diagnostics == old(w).diagnostics,
        final(w).policy == old(w).policy,
        final(w).scopes == old(w).scopes,
        views(final(w).roots@) == views(old(w).roots@) + roots_spec(*tree, src@, i as int, old(w).policy),
    decreases tree.nodes.len() - i,
{
    let ghost r0 = views(w.roots@);
    if tree.is_kind(i, "use_declaration") {
        let (imports, globs) = collect_use(tree, src, i, w.policy);
        let ghost paths = import_views(imports@).map_values(|p: (Seq<Seq<char>>, Seq<char>)| p.0);
        let ghost gl = glob_views(globs@);
        let mut k: usize = 0;
        assert(paths.skip(0) =~= paths);
        assert(views(w.roots@) + first_segments(paths) =~= r0 + first_segments(paths));
        while k < imports.len()
            invariant
                w.diagnostics == old(w).diagnostics,
                w.policy == old(w).policy,
                w.scopes == old(w).scopes,
                k <= imports.len(),
                paths.len() == imports.len(),
                forall|j: int| 0 <= j < imports.len() ==> #[trigger] paths[j] == views(imports@[j].segments@),
                views(w.roots@) + first_segments(paths.skip(k as int)) == r0 + first_segments(paths),
            decreases imports.len() - k,
        {
            let ghost before = views(w.roots@);
            assert(paths.skip(k as int)[0] == paths[k as int]);
            assert(paths.skip(k as int).drop_first() =~= paths.skip(k + 1));
            let ghost rest = first_segments(paths.skip(k + 1));
            if imports[k].segments.len() > 0 {
                w.roots.push(copy_string(&imports[k].segments[0]));
                assert(views(w.roots@) =~= before + seq![paths[k as int][0]]);
            }
            assert(views(w.roots@) + rest =~= before + first_segments(paths.skip(k as int)));
            k += 1;
        }
        let ghost mid = views(w.roots@);
        assert(mid =~= r0 + first_segments(paths)) by {
            assert(paths.skip(k as int) =~= Seq::<Seq<Seq<char>>>::empty());
        }
        let mut k: usize = 0;
        assert(gl.skip(0) =~= gl);
        assert(views(w.roots@) + first_segments(gl) =~= mid + first_segments(gl));
        while k < globs.len()
            invariant
                w.diagnostics == old(w).diagnostics,
                w.policy == old(w).policy,
                w.scopes == old(w).scopes,
                k <= globs.len(),
                gl.len() == globs.len(),
                forall|j: int| 0 <= j < globs.len() ==> #[trigger] gl[j] == views(globs@[j]@),
                views(w.roots@) + first_segments(gl.skip(k as int)) == mid + first_segments(gl),
            decreases globs.len() - k,
        {
            let ghost before = views(w.roots@);
            assert(gl.skip(k as int)[0] == gl[k as int]);
            assert(gl.skip(k as int).drop_first() =~= gl.skip(k + 1));
            let ghost rest = first_segments(gl.skip(k + 1));
            if globs[k].len() > 0 {
                w.roots.push(copy_string(&globs[k][0]));
                assert(views(w.roots@) =~= before + seq![gl[k as int][0]]);
            }
            assert(views(w.roots@) + rest =~= before + first_segments(gl.skip(k as int)));
            k += 1;
        }
        assert(gl.skip(k as int) =~= Seq::<Seq<Seq<char>>>::empty());
        assert(views(w.roots@) =~= r0 + roots_spec(*tree, src@, i as int, old(w).policy));
        return;
    }
    let kids = tree.named_children(i);
    let mut k: usize = 0;
    assert(kids@.skip(0) =~= kids@);
    assert(views(w.roots@) + roots_kids(*tree, src@, kids@, i as int, w.policy) =~= r0 + roots_spec(
        *tree,
        src@,
        i as int,
        w.policy,
    ));
    while k < kids.len()
        invariant
            tree_ok(tree, src),
            i < tree.nodes.len(),
            k <= kids.len(),
            w.diagnostics == old(w).diagnostics,
            w.policy == old(w).policy,
            w.scopes == old(w).scopes,
            forall|j: int| #![trigger kids@[j]] 0 <= j < kids.len() ==> i < kids@[j] < tree.nodes.len(),
            views(w.roots@) + roots_kids(*tree, src@, kids@.skip(k as int), i as int, w.policy) == r0 + roots_spec(
                *tree,
                src@,
                i as int,
                old(w).policy,
            ),
        decreases kids.len() - k,
    {
        let c = kids[k];
        assert(kids@.skip(k as int)[0] == c);
        assert(kids@.skip(k as int).drop_first() =~= kids@.skip(k + 1));
        let ghost before = views(w.roots@);
        let ghost rest = roots_kids(*tree, src@, kids@.skip(k + 1), i as int, w.policy);
        collect_roots(w, tree, src, c);
        assert(views(w.roots@) + rest =~= before + (roots_spec(*tree, src@, c as int, w.policy) + rest));
        k += 1;
    }
    assert(views(w.roots@) + roots_kids(*tree, src@, kids@.skip(k as int), i as int, w.policy) =~= views(w.roots@));
}

/// The standard roots a walk of the file starts from: none under declared
/// roots; under open roots, `crate`, `self`, `super`, `std`, `core`,
/// `alloc` and the first segment of every `use` path.
pub open spec fn start_roots(tree: SyntaxTree, src: Seq<u8>, policy: RootPolicy) -> Seq<Seq<char>> {
    match policy {
        RootPolicy::Declared => Seq::empty(),
        RootPolicy::Open => seq!["crate"@, "self"@, "super"@, "std"@, "core"@, "alloc"@] + roots_spec(
            tree,
            src,
            0,
            policy,
        ),
    }
}

/// `r` is what a walk of the whole file reports under `policy`: a walker
/// with the file's standard roots, no frames and no hints, walked from the
/// root node.
pub open spec fn file_hints(tree: SyntaxTree, src: Seq<u8>, policy: RootPolicy, r: Seq<Diagnostic>) -> bool {
    exists|a: Walker, b: Walker|
        #[trigger] walked(a, b, tree, src, 0) && a.policy == policy && views(a.roots@) == start_roots(tree, src, policy)
            && a.scopes.len() == 0 && a.diagnostics.len() == 0 && r == b.diagnostics@
}

/// Run the walker under `policy`.
fn run(tree: &SyntaxTree, src: &[u8], policy: RootPolicy) -> (r: Vec<Diagnostic>)
    requires
        tree_ok(tree, src),
    ensures
        all_hints(r@),
        file_hints(*tree, src@, policy, r@),
{
    let mut roots: Vec<String> = Vec::new();
    if policy == RootPolicy::Open {
        roots.push(owned("crate"));
        roots.push(owned("self"));
        roots.push(owned("super"));
        roots.push(owned("std"));
        roots.push(owned("core"));
        roots.push(owned("alloc"));
        proof {
            assert(views(roots@) =~= seq!["crate"@, "self"@, "super"@, "std"@, "core"@, "alloc"@]);
        }
    } else {
        proof {
            assert(views(roots@) =~= Seq::<Seq<char>>::empty());
        }
    }
    let mut w = Walker { policy, roots, scopes: Vec::new(), diagnostics: Vec::new() };
    if policy == RootPolicy::Open {
        collect_roots(&mut w, tree, src, 0);
    }
    let ghost a = w;
    walk(&mut w, tree, src, 0);
    proof {
        assert(walked(a, w, *tree, src@, 0));
    }
    w.diagnostics
}

/// Hint at each eligible path whose root is explicit, respecting aliases and
/// conditional compilation.
///
/// # Arguments
///
/// - `tree` - the parsed file.
/// - `src` - the file's bytes.
///
/// # Returns
///
/// One MOD003 hint per reported occurrence, in source order.
pub fn check(tree: &SyntaxTree, src: &[u8]) -> (r: Vec<Diagnostic>)
    requires
        tree.wf(),
        tree.source_len == src@.len(),
    ensures
        all_hints(r@),
        file_hints(*tree, src@, RootPolicy::Declared, r@),
{
    run(tree, src, RootPolicy::Declared)
}

/// Hint at each eligible path, treating import roots and any lowercase first
/// segment as roots.
///
/// # Arguments
///
/// - `tree` - the parsed file.
/// - `src` - the file's bytes.
///
/// # Returns
///
/// One MOD003 hint per reported occurrence, in source order.
pub fn check_with_open_roots(tree: &SyntaxTree, src: &[u8]) -> (r: Vec<Diagnostic>)
    requires
        tree.wf(),
        tree.source_len == src@.len(),
    ensures
        all_hints(r@),
        file_hints(*tree, src@, RootPolicy::Open, r@),
{
    run(tree, src, RootPolicy::Open)
}

} // verus!
