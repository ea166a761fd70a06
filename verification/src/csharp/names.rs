//! Syntax readers for the C# qualified-name rule: name leaves, dotted-chain
//! segments, `using` directives, and the names declarations and patterns
//! bind.
use crate::csharp::mod003_qualified_path::RootPolicy;
use crate::csharp::scope::Import;
use crate::syntax::{
    children_spec, field_child, first_named, first_of_kind, has_token, kind_is, kids_any, named_children_spec,
    node_text, opt_view, subtree_any, text_of, tree_ok, SyntaxTree,
};
use crate::text::{backwards, copy_string, str_eq, str_starts_with, views};
use vstd::prelude::*;

verus! {

/// Text of a name leaf: an identifier's text, or a `generic_name`'s first
/// identifier child's text.
pub open spec fn leaf_text_spec(tree: SyntaxTree, src: Seq<u8>, i: int) -> Option<Seq<char>> {
    if kind_is(tree, i, "identifier"@) {
        text_of(tree, src, i)
    } else if kind_is(tree, i, "generic_name"@) {
        match first_of_kind(tree, named_children_spec(tree, i as usize), "identifier"@) {
            Some(c) => text_of(tree, src, c as int),
            None => None,
        }
    } else {
        None
    }
}

/// The root node of the dotted chain at node `i`, following qualifiers and
/// member-access expressions down to an identifier or `alias::name`.
pub open spec fn leftmost_name_spec(tree: SyntaxTree, i: usize) -> Option<usize>
    decreases tree.nodes.len() - i,
{
    if i >= tree.nodes.len() {
        None
    } else if kind_is(tree, i as int, "qualified_name"@) {
        match field_child(tree, i as int, "qualifier"@) {
            Some(q) => if i < q < tree.nodes.len() {
                leftmost_name_spec(tree, q as usize)
            } else {
                None
            },
            None => None,
        }
    } else if kind_is(tree, i as int, "member_access_expression"@) {
        match field_child(tree, i as int, "expression"@) {
            Some(e) => if i < e < tree.nodes.len() {
                leftmost_name_spec(tree, e as usize)
            } else {
                None
            },
            None => None,
        }
    } else if kind_is(tree, i as int, "identifier"@) || kind_is(tree, i as int, "alias_qualified_name"@) {
        Some(i)
    } else {
        None
    }
}

/// The leftmost segment of a type-qualified chain that may start with a
/// generic name.
pub open spec fn open_root(tree: SyntaxTree, src: Seq<u8>, i: usize) -> Option<Seq<char>>
    decreases tree.nodes.len() - i,
{
    if i >= tree.nodes.len() {
        None
    } else if kind_is(tree, i as int, "qualified_name"@) {
        match field_child(tree, i as int, "qualifier"@) {
            Some(q) => if i < q < tree.nodes.len() {
                open_root(tree, src, q as usize)
            } else {
                None
            },
            None => None,
        }
    } else if kind_is(tree, i as int, "identifier"@) || kind_is(tree, i as int, "generic_name"@) {
        leaf_text_spec(tree, src, i as int)
    } else {
        None
    }
}

/// The leftmost segment of the chain at node `i` under `policy`.
pub open spec fn leftmost_segment_spec(tree: SyntaxTree, src: Seq<u8>, i: usize, policy: RootPolicy) -> Option<
    Seq<char>,
> {
    match policy {
        RootPolicy::Declared => match leftmost_name_spec(tree, i) {
            Some(n) => leaf_text_spec(tree, src, n as int),
            None => None,
        },
        RootPolicy::Open => open_root(tree, src, i),
    }
}

/// The segment a chain link names through its `name` field.
pub open spec fn link_name_spec(tree: SyntaxTree, src: Seq<u8>, i: int, policy: RootPolicy) -> Option<Seq<char>> {
    match field_child(tree, i, "name"@) {
        Some(n) => if policy == RootPolicy::Declared && !kind_is(tree, n, "identifier"@) {
            None
        } else {
            leaf_text_spec(tree, src, n)
        },
        None => None,
    }
}

/// `a` in front of the list `r` holds, when there is one.
pub open spec fn prepend(a: Seq<Seq<char>>, r: Option<Seq<Seq<char>>>) -> Option<Seq<Seq<char>>> {
    match r {
        Some(x) => Some(a + x),
        None => None,
    }
}

proof fn lemma_prepend(a: Seq<Seq<char>>, b: Seq<Seq<char>>, r: Option<Seq<Seq<char>>>)
    ensures
        prepend(a, prepend(b, r)) == prepend(a + b, r),
{
    if let Some(x) = r {
        assert(a + (b + x) =~= (a + b) + x);
    }
}

/// The segments of the dotted chain at node `i`, leaf first.
pub open spec fn chain_spec(tree: SyntaxTree, src: Seq<u8>, i: usize, policy: RootPolicy) -> Option<
    Seq<Seq<char>>,
>
    decreases tree.nodes.len() - i,
{
    if i >= tree.nodes.len() {
        None
    } else if kind_is(tree, i as int, "qualified_name"@) {
        match link_name_spec(tree, src, i as int, policy) {
            None => None,
            Some(t) => match field_child(tree, i as int, "qualifier"@) {
                Some(q) => if i < q < tree.nodes.len() {
                    prepend(seq![t], chain_spec(tree, src, q as usize, policy))
                } else {
                    None
                },
                None => None,
            },
        }
    } else if kind_is(tree, i as int, "member_access_expression"@) {
        match link_name_spec(tree, src, i as int, policy) {
            None => None,
            Some(t) => match field_child(tree, i as int, "expression"@) {
                Some(e) => if i < e < tree.nodes.len() {
                    prepend(seq![t], chain_spec(tree, src, e as usize, policy))
                } else {
                    None
                },
                None => None,
            },
        }
    } else if policy == RootPolicy::Declared && kind_is(tree, i as int, "alias_qualified_name"@) {
        match field_child(tree, i as int, "alias"@) {
            Some(a) => if leaf_text_spec(tree, src, a) == Some("global"@) {
                match field_child(tree, i as int, "name"@) {
                    Some(n) => if i < n < tree.nodes.len() {
                        chain_spec(tree, src, n as usize, policy)
                    } else {
                        None
                    },
                    None => None,
                }
            } else {
                None
            },
            None => None,
        }
    } else if kind_is(tree, i as int, "identifier"@) || (policy == RootPolicy::Open && kind_is(
        tree,
        i as int,
        "generic_name"@,
    )) {
        match leaf_text_spec(tree, src, i as int) {
            Some(t) => Some(seq![t]),
            None => None,
        }
    } else {
        None
    }
}

/// The segments of the dotted chain at node `i`, root first.
pub open spec fn segments_spec(tree: SyntaxTree, src: Seq<u8>, i: usize, policy: RootPolicy) -> Option<
    Seq<Seq<char>>,
> {
    match chain_spec(tree, src, i, policy) {
        Some(c) => Some(backwards(c)),
        None => None,
    }
}

/// The views of an optional list of strings.
pub open spec fn opt_views(r: Option<Vec<String>>) -> Option<Seq<Seq<char>>> {
    match r {
        Some(v) => Some(views(v@)),
        None => None,
    }
}

/// Node `i` is a preprocessor conditional (`#if` and its branches).
pub open spec fn preproc_conditional(tree: SyntaxTree, i: int) -> bool {
    "preproc_if"@.len() <= tree.nodes[i].kind@.len() && tree.nodes[i].kind@.take("preproc_if"@.len() as int)
        == "preproc_if"@
}

/// The nodes that are preprocessor conditionals.
pub open spec fn preproc_conditionals(tree: SyntaxTree) -> spec_fn(int) -> bool {
    |j: int| preproc_conditional(tree, j)
}

/// The name node `i` binds through its `name` field.
pub open spec fn field_name_spec(tree: SyntaxTree, src: Seq<u8>, i: int) -> Option<Seq<char>> {
    match field_child(tree, i, "name"@) {
        Some(n) => leaf_text_spec(tree, src, n),
        None => None,
    }
}

/// The first of `kids` a `using` directive imports: a name node other
/// than the alias node.
pub open spec fn using_target(tree: SyntaxTree, kids: Seq<usize>, alias: Option<int>) -> Option<usize>
    decreases kids.len(),
{
    if kids.len() == 0 {
        None
    } else if alias != Some(kids[0] as int) && (kind_is(tree, kids[0] as int, "identifier"@) || kind_is(
        tree,
        kids[0] as int,
        "generic_name"@,
    ) || kind_is(tree, kids[0] as int, "qualified_name"@) || kind_is(tree, kids[0] as int, "alias_qualified_name"@)) {
        Some(kids[0])
    } else {
        using_target(tree, kids.drop_first(), alias)
    }
}

/// What one `using` directive at node `i` yields under `policy`: no
/// import for a static directive under the declared policy; otherwise,
/// when its target's segments read, a static prefix for a static directive
/// or one import named by the alias (else the last segment).
pub open spec fn usings_spec(
    tree: SyntaxTree,
    src: Seq<u8>,
    i: usize,
    policy: RootPolicy,
    imports: Seq<Import>,
    statics: Seq<Vec<String>>,
) -> bool {
    let is_static = has_token(tree, children_spec(tree, i), "static"@);
    let alias = field_child(tree, i as int, "name"@);
    let empty = imports.len() == 0 && statics.len() == 0;
    if is_static && policy == RootPolicy::Declared {
        empty
    } else {
        match using_target(tree, named_children_spec(tree, i), alias) {
            None => empty,
            Some(c) => match segments_spec(tree, src, c, policy) {
                None => empty,
                Some(segs) => if is_static {
                    imports.len() == 0 && statics.len() == 1 && views(statics[0]@) == segs
                } else {
                    let bound = match alias {
                        Some(a) => leaf_text_spec(tree, src, a),
                        None => None,
                    };
                    &&& statics.len() == 0
                    &&& imports.len() == 1
                    &&& views(imports[0].segments@) == segs
                    &&& imports[0].short@ == match bound {
                        Some(b) => b,
                        None => segs.last(),
                    }
                    &&& imports[0].aliased == bound is Some
                    &&& imports[0].absolute == (policy == RootPolicy::Declared && (leftmost_name_spec(tree, c)
                        matches Some(n) && kind_is(tree, n as int, "alias_qualified_name"@)))
                },
            },
        }
    }
}

/// The one name an optional text holds.
pub open spec fn opt_seq(o: Option<Seq<char>>) -> Seq<Seq<char>> {
    match o {
        Some(t) => seq![t],
        None => Seq::empty(),
    }
}

/// The names the `variable_declarator`s among `ds` bind.
pub open spec fn declarator_list(tree: SyntaxTree, src: Seq<u8>, ds: Seq<usize>) -> Seq<Seq<char>>
    decreases ds.len(),
{
    if ds.len() == 0 {
        Seq::empty()
    } else {
        let here = if kind_is(tree, ds[0] as int, "variable_declarator"@) {
            opt_seq(field_name_spec(tree, src, ds[0] as int))
        } else {
            Seq::empty()
        };
        here + declarator_list(tree, src, ds.drop_first())
    }
}

/// The names the `variable_declaration`s among `kids` declare.
pub open spec fn declaration_names(tree: SyntaxTree, src: Seq<u8>, kids: Seq<usize>) -> Seq<Seq<char>>
    decreases kids.len(),
{
    if kids.len() == 0 {
        Seq::empty()
    } else {
        let here = if kind_is(tree, kids[0] as int, "variable_declaration"@) {
            declarator_list(tree, src, children_spec(tree, kids[0]))
        } else {
            Seq::empty()
        };
        here + declaration_names(tree, src, kids.drop_first())
    }
}

/// The names the destructuring pattern at node `i` binds, nested
/// patterns included.
pub open spec fn tuple_names(tree: SyntaxTree, src: Seq<u8>, i: int) -> Seq<Seq<char>>
    decreases tree.nodes.len() - i, named_children_spec(tree, i as usize).len() + 1,
{
    tuple_kids_names(tree, src, named_children_spec(tree, i as usize), i)
}

/// The names the pattern children `kids` of node `i` bind.
pub open spec fn tuple_kids_names(tree: SyntaxTree, src: Seq<u8>, kids: Seq<usize>, i: int) -> Seq<Seq<char>>
    decreases tree.nodes.len() - i, kids.len(),
{
    if kids.len() == 0 {
        Seq::empty()
    } else {
        let c = kids[0];
        let here = if kind_is(tree, c as int, "identifier"@) {
            opt_seq(leaf_text_spec(tree, src, c as int))
        } else if kind_is(tree, c as int, "tuple_pattern"@) && 0 <= i < c < tree.nodes.len() {
            tuple_names(tree, src, c as int)
        } else {
            Seq::empty()
        };
        here + tuple_kids_names(tree, src, kids.drop_first(), i)
    }
}

/// The names the foreach designation at node `i` binds.
pub open spec fn designation_spec(tree: SyntaxTree, src: Seq<u8>, i: int) -> Seq<Seq<char>>
    decreases tree.nodes.len() - i, named_children_spec(tree, i as usize).len() + 1,
{
    if kind_is(tree, i, "identifier"@) {
        opt_seq(leaf_text_spec(tree, src, i))
    } else if kind_is(tree, i, "tuple_pattern"@) {
        tuple_names(tree, src, i)
    } else if kind_is(tree, i, "declaration"@) || kind_is(tree, i, "variable_declaration"@) {
        designation_kids(tree, src, named_children_spec(tree, i as usize), i)
    } else if kind_is(tree, i, "variable_declarator"@) {
        opt_seq(field_name_spec(tree, src, i))
    } else {
        Seq::empty()
    }
}

/// The names the designations among `kids` (children of node `i`) bind.
pub open spec fn designation_kids(tree: SyntaxTree, src: Seq<u8>, kids: Seq<usize>, i: int) -> Seq<Seq<char>>
    decreases tree.nodes.len() - i, kids.len(),
{
    if kids.len() == 0 {
        Seq::empty()
    } else {
        let here = if 0 <= i < kids[0] < tree.nodes.len() {
            designation_spec(tree, src, kids[0] as int)
        } else {
            Seq::empty()
        };
        here + designation_kids(tree, src, kids.drop_first(), i)
    }
}

/// The texts and offsets of a list of bound names.
pub open spec fn bound_views(v: Seq<(String, usize)>) -> Seq<(Seq<char>, usize)> {
    v.map_values(|p: (String, usize)| (p.0@, p.1))
}

/// The identifiers among `kids` whose text reads, each at its own offset;
/// only the first when `first_only`.
pub open spec fn identifier_list(tree: SyntaxTree, src: Seq<u8>, kids: Seq<usize>, first_only: bool) -> Seq<
    (Seq<char>, usize),
>
    decreases kids.len(),
{
    if kids.len() == 0 {
        Seq::empty()
    } else if kind_is(tree, kids[0] as int, "identifier"@) && leaf_text_spec(tree, src, kids[0] as int) is Some {
        let here = seq![(leaf_text_spec(tree, src, kids[0] as int).unwrap(), tree.nodes[kids[0] as int].start)];
        if first_only {
            here
        } else {
            here + identifier_list(tree, src, kids.drop_first(), first_only)
        }
    } else {
        identifier_list(tree, src, kids.drop_first(), first_only)
    }
}

/// Each of `names` bound at `start`.
pub open spec fn at_start(names: Seq<Seq<char>>, start: usize) -> Seq<(Seq<char>, usize)> {
    names.map_values(|n: Seq<char>| (n, start))
}

/// An optional name bound at `start`.
pub open spec fn named_at(o: Option<Seq<char>>, start: usize) -> Seq<(Seq<char>, usize)> {
    match o {
        Some(t) => seq![(t, start)],
        None => Seq::empty(),
    }
}

/// The first of `kids` other than node `t`.
pub open spec fn first_except(kids: Seq<usize>, t: Option<int>) -> Option<usize>
    decreases kids.len(),
{
    if kids.len() == 0 {
        None
    } else if t == Some(kids[0] as int) {
        first_except(kids.drop_first(), t)
    } else {
        Some(kids[0])
    }
}

/// The names the destructuring patterns among `kids` bind.
pub open spec fn pattern_kid_names(tree: SyntaxTree, src: Seq<u8>, kids: Seq<usize>) -> Seq<Seq<char>>
    decreases kids.len(),
{
    if kids.len() == 0 {
        Seq::empty()
    } else {
        let here = if kind_is(tree, kids[0] as int, "tuple_pattern"@) {
            tuple_names(tree, src, kids[0] as int)
        } else {
            Seq::empty()
        };
        here + pattern_kid_names(tree, src, kids.drop_first())
    }
}

/// The names node `i` binds as a local designation under `policy`, each
/// with the byte offset it counts from.
pub open spec fn local_bindings_spec(tree: SyntaxTree, src: Seq<u8>, i: usize, policy: RootPolicy) -> Seq<
    (Seq<char>, usize),
> {
    let start = tree.nodes[i as int].start;
    let ii = i as int;
    if kind_is(tree, ii, "parameter"@) || kind_is(tree, ii, "catch_declaration"@) || (policy == RootPolicy::Declared
        && kind_is(tree, ii, "type_parameter"@)) || kind_is(tree, ii, "declaration_pattern"@) {
        named_at(field_name_spec(tree, src, ii), start)
    } else if kind_is(tree, ii, "declaration_expression"@) || kind_is(tree, ii, "from_clause"@) {
        match field_child(tree, ii, "name"@) {
            Some(n) => named_at(leaf_text_spec(tree, src, n), tree.nodes[n].start),
            None => Seq::empty(),
        }
    } else if kind_is(tree, ii, "query_expression"@) || kind_is(tree, ii, "join_into_clause"@) || kind_is(
        tree,
        ii,
        "parenthesized_variable_designation"@,
    ) {
        identifier_list(tree, src, named_children_spec(tree, i), false)
    } else if kind_is(tree, ii, "let_clause"@) {
        match policy {
            RootPolicy::Declared => identifier_list(tree, src, named_children_spec(tree, i), true),
            RootPolicy::Open => match first_named(tree, i) {
                Some(c) => if kind_is(tree, c as int, "identifier"@) {
                    named_at(leaf_text_spec(tree, src, c as int), tree.nodes[c as int].start)
                } else {
                    Seq::empty()
                },
                None => Seq::empty(),
            },
        }
    } else if kind_is(tree, ii, "join_clause"@) {
        match first_except(named_children_spec(tree, i), field_child(tree, ii, "type"@)) {
            Some(c) => if kind_is(tree, c as int, "identifier"@) {
                named_at(leaf_text_spec(tree, src, c as int), tree.nodes[c as int].start)
            } else {
                Seq::empty()
            },
            None => Seq::empty(),
        }
    } else if kind_is(tree, ii, "variable_declarator"@) {
        named_at(field_name_spec(tree, src, ii), start) + at_start(
            pattern_kid_names(tree, src, named_children_spec(tree, i)),
            start,
        )
    } else if kind_is(tree, ii, "implicit_parameter"@) {
        named_at(text_of(tree, src, ii), start)
    } else if kind_is(tree, ii, "foreach_statement"@) {
        match field_child(tree, ii, "left"@) {
            Some(l) => if ii < l < tree.nodes.len() {
                at_start(designation_spec(tree, src, l), start)
            } else {
                Seq::empty()
            },
            None => Seq::empty(),
        }
    } else {
        Seq::empty()
    }
}

/// Node kinds that open a lexical scope.
pub open spec fn scope_kind(tree: SyntaxTree, i: int) -> bool {
    kind_is(tree, i, "compilation_unit"@) || kind_is(tree, i, "declaration_list"@) || kind_is(tree, i, "block"@)
        || kind_is(tree, i, "method_declaration"@) || kind_is(tree, i, "constructor_declaration"@)
        || kind_is(tree, i, "local_function_statement"@) || kind_is(tree, i, "lambda_expression"@)
        || kind_is(tree, i, "anonymous_method_expression"@) || kind_is(tree, i, "for_statement"@)
        || kind_is(tree, i, "foreach_statement"@) || kind_is(tree, i, "catch_clause"@)
}

/// Node `i` is a link of a dotted chain.
pub open spec fn chain_kind(tree: SyntaxTree, i: int) -> bool {
    kind_is(tree, i, "qualified_name"@) || kind_is(tree, i, "member_access_expression"@)
}

/// Text of a name leaf: an identifier, or a `generic_name` read as its
/// identifier without type arguments. `None` for any other kind.
pub fn leaf_text(tree: &SyntaxTree, src: &[u8], i: usize) -> (r: Option<String>)
    requires
        tree_ok(tree, src),
        i < tree.nodes.len(),
    ensures
        r is Some ==> (tree.nodes[i as int].kind@ == "identifier"@ || tree.nodes[i as int].kind@
            == "generic_name"@),
        opt_view(r) == leaf_text_spec(*tree, src@, i as int),
{
    if tree.is_kind(i, "identifier") {
        node_text(tree, src, i)
    } else if tree.is_kind(i, "generic_name") {
        let kids = tree.named_children(i);
        let mut k: usize = 0;
        assert(kids@.skip(0) =~= kids@);
        while k < kids.len()
            invariant
                tree_ok(tree, src),
                i < tree.nodes.len(),
                k <= kids.len(),
                tree.nodes[i as int].kind@ == "generic_name"@,
                forall|j: int| #![trigger kids@[j]] 0 <= j < kids.len() ==> i < kids@[j] < tree.nodes.len(),
                kids@ == named_children_spec(*tree, i),
                !kind_is(*tree, i as int, "identifier"@),
                first_of_kind(*tree, kids@, "identifier"@) == first_of_kind(*tree, kids@.skip(k as int), "identifier"@),
            decreases kids.len() - k,
        {
            assert(kids@.skip(k as int)[0] == kids@[k as int]);
            assert(kids@.skip(k as int).drop_first() =~= kids@.skip(k + 1));
            if tree.is_kind(kids[k], "identifier") {
                assert(first_of_kind(*tree, kids@.skip(k as int), "identifier"@) == Some(kids@[k as int]));
                return node_text(tree, src, kids[k]);
            }
            k += 1;
        }
        None
    } else {
        None
    }
}

/// The root node of a dotted chain: the identifier or `alias::name` it
/// starts with. `None` when the chain starts with anything else.
pub fn leftmost_name(tree: &SyntaxTree, i: usize) -> (r: Option<usize>)
    requires
        tree.wf(),
        i < tree.nodes.len(),
    ensures
        r matches Some(n) ==> n < tree.nodes.len() && (tree.nodes[n as int].kind@ == "identifier"@
            || tree.nodes[n as int].kind@ == "alias_qualified_name"@),
        r == leftmost_name_spec(*tree, i),
{
    let mut current = i;
    loop
        invariant
            tree.wf(),
            current < tree.nodes.len(),
            leftmost_name_spec(*tree, i) == leftmost_name_spec(*tree, current),
        decreases tree.nodes.len() - current,
    {
        if tree.is_kind(current, "qualified_name") {
            match tree.child_by_field(current, "qualifier") {
                Some(q) => current = q,
                None => return None,
            }
        } else if tree.is_kind(current, "member_access_expression") {
            match tree.child_by_field(current, "expression") {
                Some(e) => current = e,
                None => return None,
            }
        } else if tree.is_kind(current, "identifier") || tree.is_kind(current, "alias_qualified_name") {
            return Some(current);
        } else {
            return None;
        }
    }
}

/// The chain starts with `alias::name`, which only `global::` passes.
pub fn is_absolute(tree: &SyntaxTree, i: usize) -> (r: bool)
    requires
        tree.wf(),
        i < tree.nodes.len(),
    ensures
        r == (leftmost_name_spec(*tree, i) matches Some(n) && kind_is(*tree, n as int, "alias_qualified_name"@)),
{
    match leftmost_name(tree, i) {
        Some(n) => tree.is_kind(n, "alias_qualified_name"),
        None => false,
    }
}

/// The leftmost segment of a dotted chain without building the whole list.
///
/// Under [`RootPolicy::Declared`] the chain may pass through member
/// accesses and must start with an identifier; under [`RootPolicy::Open`]
/// it follows type qualifiers only and may start with a generic name.
pub fn leftmost_segment(tree: &SyntaxTree, src: &[u8], i: usize, policy: RootPolicy) -> (r: Option<String>)
    requires
        tree_ok(tree, src),
        i < tree.nodes.len(),
    ensures
        opt_view(r) == leftmost_segment_spec(*tree, src@, i, policy),
{
    match policy {
        RootPolicy::Declared => match leftmost_name(tree, i) {
            Some(n) => leaf_text(tree, src, n),
            None => None,
        },
        RootPolicy::Open => {
            let mut current = i;
            loop
                invariant
                    tree_ok(tree, src),
                    current < tree.nodes.len(),
                    policy == RootPolicy::Open,
                    open_root(*tree, src@, i) == open_root(*tree, src@, current),
                decreases tree.nodes.len() - current,
            {
                if tree.is_kind(current, "qualified_name") {
                    match tree.child_by_field(current, "qualifier") {
                        Some(q) => current = q,
                        None => return None,
                    }
                } else if tree.is_kind(current, "identifier") || tree.is_kind(current, "generic_name") {
                    return leaf_text(tree, src, current);
                } else {
                    return None;
                }
            }
        },
    }
}

/// The segment a chain link names through its `name` field. Under
/// [`RootPolicy::Declared`] only a plain identifier qualifies, so generic
/// chains are withheld.
fn link_name(tree: &SyntaxTree, src: &[u8], i: usize, policy: RootPolicy) -> (r: Option<String>)
    requires
        tree_ok(tree, src),
        i < tree.nodes.len(),
    ensures
        opt_view(r) == link_name_spec(*tree, src@, i as int, policy),
{
    match tree.child_by_field(i, "name") {
        Some(n) => {
            if policy == RootPolicy::Declared && !tree.is_kind(n, "identifier") {
                None
            } else {
                leaf_text(tree, src, n)
            }
        },
        None => None,
    }
}

/// The dotted segments of a qualified name or member-access chain, root
/// first.
///
/// `None` when the chain does not bottom out in plain names. Under
/// [`RootPolicy::Declared`] a `global::` root is passed over (it is not a
/// segment) and generic links are refused; under [`RootPolicy::Open`] any
/// `alias::` root is refused and generic names read as their identifier.
pub fn name_segments(tree: &SyntaxTree, src: &[u8], i: usize, policy: RootPolicy) -> (r: Option<Vec<String>>)
    requires
        tree_ok(tree, src),
        i < tree.nodes.len(),
    ensures
        r matches Some(s) ==> s.len() >= 1,
        opt_views(r) == segments_spec(*tree, src@, i, policy),
{
    let mut segments: Vec<String> = Vec::new();
    let mut current = i;
    loop
        invariant_except_break
            chain_spec(*tree, src@, i, policy) == prepend(views(segments@), chain_spec(*tree, src@, current, policy)),
        invariant
            tree_ok(tree, src),
            current < tree.nodes.len(),
        ensures
            chain_spec(*tree, src@, i, policy) == Some(views(segments@)),
            segments.len() >= 1,
        decreases tree.nodes.len() - current,
    {
        let ghost before = views(segments@);
        if tree.is_kind(current, "qualified_name") {
            match link_name(tree, src, current, policy) {
                Some(t) => segments.push(t),
                None => return None,
            }
            assert(views(segments@) =~= before + seq![segments@.last()@]);
            match tree.child_by_field(current, "qualifier") {
                Some(q) => {
                    proof {
                        lemma_prepend(before, seq![segments@.last()@], chain_spec(*tree, src@, q, policy));
                    }
                    current = q;
                },
                None => return None,
            }
        } else if tree.is_kind(current, "member_access_expression") {
            match link_name(tree, src, current, policy) {
                Some(t) => segments.push(t),
                None => return None,
            }
            assert(views(segments@) =~= before + seq![segments@.last()@]);
            match tree.child_by_field(current, "expression") {
                Some(e) => {
                    proof {
                        lemma_prepend(before, seq![segments@.last()@], chain_spec(*tree, src@, e, policy));
                    }
                    current = e;
                },
                None => return None,
            }
        } else if policy == RootPolicy::Declared && tree.is_kind(current, "alias_qualified_name") {
            let alias = match tree.child_by_field(current, "alias") {
                Some(a) => leaf_text(tree, src, a),
                None => None,
            };
            match alias {
                Some(a) => {
                    if !str_eq(a.as_str(), "global") {
                        return None;
                    }
                },
                None => return None,
            }
            match tree.child_by_field(current, "name") {
                Some(n) => current = n,
                None => return None,
            }
        } else if tree.is_kind(current, "identifier") || (policy == RootPolicy::Open && tree.is_kind(
            current,
            "generic_name",
        )) {
            match leaf_text(tree, src, current) {
                Some(t) => segments.push(t),
                None => return None,
            }
            assert(views(segments@) =~= before + seq![segments@.last()@]);
            break;
        } else {
            return None;
        }
    }
    let out = crate::text::reversed(segments);
    assert(views(out@) =~= backwards(views(segments@)));
    if out.len() == 0 {
        return None;
    }
    Some(out)
}

/// Node kinds that open a lexical scope: the file, namespace and type
/// bodies, method-like declarations with parameters, closures, loops, and
/// catch clauses.
pub fn is_scope(tree: &SyntaxTree, i: usize) -> (r: bool)
    requires
        i < tree.nodes.len(),
    ensures
        r == scope_kind(*tree, i as int),
{
    tree.is_kind(i, "compilation_unit") || tree.is_kind(i, "declaration_list") || tree.is_kind(i, "block")
        || tree.is_kind(i, "method_declaration") || tree.is_kind(i, "constructor_declaration")
        || tree.is_kind(i, "local_function_statement") || tree.is_kind(i, "lambda_expression")
        || tree.is_kind(i, "anonymous_method_expression") || tree.is_kind(i, "for_statement")
        || tree.is_kind(i, "foreach_statement") || tree.is_kind(i, "catch_clause")
}

/// The outermost node of a dotted chain, which carries the whole path.
pub fn is_chain_head(tree: &SyntaxTree, i: usize) -> (r: bool)
    requires
        tree.wf(),
        i < tree.nodes.len(),
    ensures
        r ==> (tree.nodes[i as int].kind@ == "qualified_name"@ || tree.nodes[i as int].kind@
            == "member_access_expression"@),
        r == (chain_kind(*tree, i as int) && match tree.nodes[i as int].parent {
            Some(p) => !chain_kind(*tree, p as int),
            None => true,
        }),
{
    if !(tree.is_kind(i, "qualified_name") || tree.is_kind(i, "member_access_expression")) {
        return false;
    }
    match tree.nodes[i].parent {
        Some(p) => !(tree.is_kind(p, "qualified_name") || tree.is_kind(p, "member_access_expression")),
        None => true,
    }
}

/// Node `i` is a preprocessor conditional (`#if` and its branches).
pub fn is_conditional(tree: &SyntaxTree, i: usize) -> (r: bool)
    requires
        i < tree.nodes.len(),
    ensures
        r == ("preproc_if"@.len() <= tree.nodes[i as int].kind@.len() && tree.nodes[i as int].kind@.take(
            "preproc_if"@.len() as int,
        ) == "preproc_if"@),
{
    str_starts_with(tree.nodes[i].kind.as_str(), "preproc_if")
}

/// A preprocessor conditional anywhere in the subtree of node `i`.
pub fn contains_conditional(tree: &SyntaxTree, i: usize) -> (r: bool)
    requires
        tree.wf(),
        i < tree.nodes.len(),
    ensures
        r == subtree_any(*tree, i as int, preproc_conditionals(*tree)),
    decreases tree.nodes.len() - i,
{
    let ghost p = preproc_conditionals(*tree);
    if is_conditional(tree, i) {
        return true;
    }
    let kids = tree.named_children(i);
    let mut k: usize = 0;
    assert(kids@.skip(0) =~= kids@);
    while k < kids.len()
        invariant
            tree.wf(),
            i < tree.nodes.len(),
            k <= kids.len(),
            kids@ == named_children_spec(*tree, i),
            p == preproc_conditionals(*tree),
            forall|j: int| #![trigger kids@[j]] 0 <= j < kids.len() ==> i < kids@[j] < tree.nodes.len(),
            kids_any(*tree, kids@, i as int, p) == kids_any(*tree, kids@.skip(k as int), i as int, p),
        decreases kids.len() - k,
    {
        assert(kids@.skip(k as int)[0] == kids@[k as int]);
        assert(kids@.skip(k as int).drop_first() =~= kids@.skip(k + 1));
        if contains_conditional(tree, kids[k]) {
            assert(kids_any(*tree, kids@.skip(k as int), i as int, p));
            return true;
        }
        assert(kids_any(*tree, kids@.skip(k as int), i as int, p) == kids_any(
            *tree,
            kids@.skip(k + 1),
            i as int,
            p,
        ));
        k += 1;
    }
    assert(kids_any(*tree, kids@.skip(k as int), i as int, p) == false);
    false
}

/// A `using static` directive: an anonymous `static` token among its
/// children.
pub fn is_static_using(tree: &SyntaxTree, i: usize) -> (r: bool)
    requires
        tree.wf(),
        i < tree.nodes.len(),
    ensures
        r == has_token(*tree, children_spec(*tree, i), "static"@),
{
    let kids = tree.children(i);
    let mut k: usize = 0;
    while k < kids.len()
        invariant
            tree.wf(),
            k <= kids.len(),
            kids@ == children_spec(*tree, i),
            forall|j: int| #![trigger kids@[j]] 0 <= j < kids.len() ==> i < kids@[j] < tree.nodes.len(),
            forall|j: int|
                0 <= j < k ==> !(!tree.nodes[kids@[j] as int].named && #[trigger] kind_is(*tree, kids@[j] as int, "static"@)),
        decreases kids.len() - k,
    {
        let c = kids[k];
        if !tree.nodes[c].named && tree.is_kind(c, "static") {
            assert(kind_is(*tree, kids@[k as int] as int, "static"@));
            return true;
        }
        k += 1;
    }
    false
}

/// The imports and static-import prefixes of one `using` directive.
///
/// A plain directive's import is named by its last segment, an aliased
/// one by the alias. Under [`RootPolicy::Declared`] a static directive
/// yields nothing; under [`RootPolicy::Open`] it yields its path as a
/// static prefix, which roots paths but never supplies named advice.
pub fn collect_usings(tree: &SyntaxTree, src: &[u8], i: usize, policy: RootPolicy) -> (r: (
    Vec<Import>,
    Vec<Vec<String>>,
))
    requires
        tree_ok(tree, src),
        i < tree.nodes.len(),
    ensures
        forall|k: int| #![trigger r.0@[k]] 0 <= k < r.0.len() ==> r.0@[k].segments.len() >= 1,
        policy == RootPolicy::Open ==> forall|k: int| #![trigger r.0@[k]] 0 <= k < r.0.len() ==> !r.0@[k].absolute,
        usings_spec(*tree, src@, i, policy, r.0@, r.1@),
{
    let mut imports: Vec<Import> = Vec::new();
    let mut statics: Vec<Vec<String>> = Vec::new();
    let is_static = is_static_using(tree, i);
    if is_static && policy == RootPolicy::Declared {
        return (imports, statics);
    }
    let alias = tree.child_by_field(i, "name");
    let ghost alias_spec = field_child(*tree, i as int, "name"@);
    let kids = tree.named_children(i);
    let mut k: usize = 0;
    assert(kids@.skip(0) =~= kids@);
    while k < kids.len()
        invariant
            tree_ok(tree, src),
            i < tree.nodes.len(),
            k <= kids.len(),
            kids@ == named_children_spec(*tree, i),
            alias_spec == field_child(*tree, i as int, "name"@),
            is_static == has_token(*tree, children_spec(*tree, i), "static"@),
            !(is_static && policy == RootPolicy::Declared),
            alias matches Some(a) ==> alias_spec == Some(a as int),
            alias is None ==> alias_spec is None,
            forall|j: int| #![trigger kids@[j]] 0 <= j < kids.len() ==> i < kids@[j] < tree.nodes.len(),
            using_target(*tree, kids@, alias_spec) == using_target(*tree, kids@.skip(k as int), alias_spec),
            imports.len() == 0,
            statics.len() == 0,
            alias matches Some(a) ==> a < tree.nodes.len(),
        decreases kids.len() - k,
    {
        let c = kids[k];
        assert(kids@.skip(k as int)[0] == c);
        assert(kids@.skip(k as int).drop_first() =~= kids@.skip(k + 1));
        let is_alias = match alias {
            Some(a) => a == c,
            None => false,
        };
        if is_alias || !(tree.is_kind(c, "identifier") || tree.is_kind(c, "generic_name") || tree.is_kind(
            c,
            "qualified_name",
        ) || tree.is_kind(c, "alias_qualified_name")) {
            k += 1;
            continue;
        }
        assert(using_target(*tree, kids@, alias_spec) == Some(c));
        let segments = match name_segments(tree, src, c, policy) {
            Some(s) => s,
            None => {
                return (imports, statics);
            },
        };
        if is_static {
            statics.push(segments);
            assert(views(statics@[0]@) == views(segments@));
        } else {
            let bound = match alias {
                Some(a) => leaf_text(tree, src, a),
                None => None,
            };
            let aliased = bound.is_some();
            assert(views(segments@).last() == segments@[segments.len() - 1]@);
            let short = match bound {
                Some(b) => b,
                None => copy_string(&segments[segments.len() - 1]),
            };
            let absolute = policy == RootPolicy::Declared && is_absolute(tree, c);
            let ghost segs = views(segments@);
            imports.push(Import { segments, short, aliased, absolute });
            assert(views(imports@[0].segments@) == segs);
        }
        return (imports, statics);
    }
    (imports, statics)
}

/// The name node `i` binds through its `name` field.
fn field_name(tree: &SyntaxTree, src: &[u8], i: usize) -> (r: Option<String>)
    requires
        tree_ok(tree, src),
        i < tree.nodes.len(),
    ensures
        opt_view(r) == field_name_spec(*tree, src@, i as int),
{
    match tree.child_by_field(i, "name") {
        Some(n) => leaf_text(tree, src, n),
        None => None,
    }
}

/// The variable names a field or event-field declaration declares.
pub fn declarator_names(tree: &SyntaxTree, src: &[u8], i: usize) -> (r: Vec<String>)
    requires
        tree_ok(tree, src),
        i < tree.nodes.len(),
    ensures
        views(r@) == declaration_names(*tree, src@, children_spec(*tree, i)),
{
    let mut names: Vec<String> = Vec::new();
    let kids = tree.children(i);
    let ghost total = declaration_names(*tree, src@, kids@);
    let mut k: usize = 0;
    assert(kids@.skip(0) =~= kids@);
    assert(views(names@) + total =~= total);
    while k < kids.len()
        invariant
            tree_ok(tree, src),
            k <= kids.len(),
            kids@ == children_spec(*tree, i),
            total == declaration_names(*tree, src@, kids@),
            forall|j: int| #![trigger kids@[j]] 0 <= j < kids.len() ==> i < kids@[j] < tree.nodes.len(),
            views(names@) + declaration_names(*tree, src@, kids@.skip(k as int)) == total,
        decreases kids.len() - k,
    {
        let c = kids[k];
        assert(kids@.skip(k as int)[0] == c);
        assert(kids@.skip(k as int).drop_first() =~= kids@.skip(k + 1));
        let ghost rest = declaration_names(*tree, src@, kids@.skip(k + 1));
        if tree.is_kind(c, "variable_declaration") {
            let decls = tree.children(c);
            let mut m: usize = 0;
            assert(decls@.skip(0) =~= decls@);
            assert(views(names@) + declaration_names(*tree, src@, kids@.skip(k as int)) =~= views(names@)
                + declarator_list(*tree, src@, decls@.skip(0)) + rest);
            while m < decls.len()
                invariant
                    tree_ok(tree, src),
                    m <= decls.len(),
                    forall|j: int| #![trigger decls@[j]] 0 <= j < decls.len() ==> c < decls@[j] < tree.nodes.len(),
                    views(names@) + declarator_list(*tree, src@, decls@.skip(m as int)) + rest == total,
                decreases decls.len() - m,
            {
                let d = decls[m];
                assert(decls@.skip(m as int)[0] == d);
                assert(decls@.skip(m as int).drop_first() =~= decls@.skip(m + 1));
                let ghost before = views(names@);
                let ghost after = declarator_list(*tree, src@, decls@.skip(m + 1));
                if tree.is_kind(d, "variable_declarator") {
                    if let Some(name) = field_name(tree, src, d) {
                        names.push(name);
                        assert(views(names@) =~= before + seq![name@]);
                    }
                }
                assert(views(names@) + after + rest =~= before + declarator_list(*tree, src@, decls@.skip(m as int))
                    + rest);
                m += 1;
            }
            assert(views(names@) + declarator_list(*tree, src@, decls@.skip(m as int)) + rest =~= views(names@)
                + rest);
        } else {
            assert(declaration_names(*tree, src@, kids@.skip(k as int)) =~= rest);
        }
        k += 1;
    }
    assert(views(names@) + declaration_names(*tree, src@, kids@.skip(k as int)) =~= views(names@));
    names
}

/// The names a destructuring pattern binds, nested patterns included.
pub fn tuple_pattern_names(tree: &SyntaxTree, src: &[u8], i: usize, out: &mut Vec<String>)
    requires
        tree_ok(tree, src),
        i < tree.nodes.len(),
    ensures
        views(final(out)@) == views(old(out)@) + tuple_names(*tree, src@, i as int),
    decreases tree.nodes.len() - i,
{
    let ghost start = views(out@);
    let kids = tree.named_children(i);
    let mut k: usize = 0;
    assert(kids@.skip(0) =~= kids@);
    while k < kids.len()
        invariant
            tree_ok(tree, src),
            i < tree.nodes.len(),
            k <= kids.len(),
            kids@ == named_children_spec(*tree, i),
            forall|j: int| #![trigger kids@[j]] 0 <= j < kids.len() ==> i < kids@[j] < tree.nodes.len(),
            views(out@) + tuple_kids_names(*tree, src@, kids@.skip(k as int), i as int) == start + tuple_names(
                *tree,
                src@,
                i as int,
            ),
        decreases kids.len() - k,
    {
        let c = kids[k];
        assert(kids@.skip(k as int)[0] == c);
        assert(kids@.skip(k as int).drop_first() =~= kids@.skip(k + 1));
        let ghost before = views(out@);
        let ghost after = tuple_kids_names(*tree, src@, kids@.skip(k + 1), i as int);
        let ghost here = if kind_is(*tree, c as int, "identifier"@) {
            opt_seq(leaf_text_spec(*tree, src@, c as int))
        } else if kind_is(*tree, c as int, "tuple_pattern"@) {
            tuple_names(*tree, src@, c as int)
        } else {
            Seq::empty()
        };
        assert(tuple_kids_names(*tree, src@, kids@.skip(k as int), i as int) == here + after);
        if tree.is_kind(c, "identifier") {
            if let Some(name) = leaf_text(tree, src, c) {
                out.push(name);
                assert(views(out@) =~= before + seq![name@]);
            } else {
                assert(views(out@) =~= before + here);
            }
        } else if tree.is_kind(c, "tuple_pattern") {
            tuple_pattern_names(tree, src, c, out);
        } else {
            assert(views(out@) =~= before + here);
        }
        assert(views(out@) + after =~= before + (here + after));
        k += 1;
    }
    assert(views(out@) + tuple_kids_names(*tree, src@, kids@.skip(k as int), i as int) =~= views(out@));
}

/// The names a foreach designation binds: a simple name, a destructuring
/// pattern, or a declaration's variables.
pub fn designation_names(tree: &SyntaxTree, src: &[u8], i: usize, out: &mut Vec<String>)
    requires
        tree_ok(tree, src),
        i < tree.nodes.len(),
    ensures
        views(final(out)@) == views(old(out)@) + designation_spec(*tree, src@, i as int),
    decreases tree.nodes.len() - i,
{
    let ghost start = views(out@);
    if tree.is_kind(i, "identifier") {
        if let Some(name) = leaf_text(tree, src, i) {
            out.push(name);
            assert(views(out@) =~= start + seq![name@]);
        } else {
            assert(views(out@) =~= start + designation_spec(*tree, src@, i as int));
        }
    } else if tree.is_kind(i, "tuple_pattern") {
        tuple_pattern_names(tree, src, i, out);
    } else if tree.is_kind(i, "declaration") || tree.is_kind(i, "variable_declaration") {
        let kids = tree.named_children(i);
        let mut k: usize = 0;
        assert(kids@.skip(0) =~= kids@);
        assert(start + designation_kids(*tree, src@, kids@, i as int) == start + designation_spec(*tree, src@, i as int));
        while k < kids.len()
            invariant
                tree_ok(tree, src),
                i < tree.nodes.len(),
                k <= kids.len(),
                forall|j: int| #![trigger kids@[j]] 0 <= j < kids.len() ==> i < kids@[j] < tree.nodes.len(),
                views(out@) + designation_kids(*tree, src@, kids@.skip(k as int), i as int) == start
                    + designation_spec(*tree, src@, i as int),
            decreases kids.len() - k,
        {
            let c = kids[k];
            assert(kids@.skip(k as int)[0] == c);
            assert(kids@.skip(k as int).drop_first() =~= kids@.skip(k + 1));
            let ghost before = views(out@);
            let ghost after = designation_kids(*tree, src@, kids@.skip(k + 1), i as int);
            designation_names(tree, src, c, out);
            assert(views(out@) + after =~= before + (designation_spec(*tree, src@, c as int) + after));
            k += 1;
        }
        assert(views(out@) + designation_kids(*tree, src@, kids@.skip(k as int), i as int) =~= views(out@));
    } else if tree.is_kind(i, "variable_declarator") {
        if let Some(name) = field_name(tree, src, i) {
            out.push(name);
            assert(views(out@) =~= start + seq![name@]);
        } else {
            assert(views(out@) =~= start + designation_spec(*tree, src@, i as int));
        }
    } else {
        assert(views(out@) =~= start + designation_spec(*tree, src@, i as int));
    }
}

/// The identifier children of node `i`, each bound at the identifier.
fn identifier_children(tree: &SyntaxTree, src: &[u8], i: usize, first_only: bool, out: &mut Vec<
    (String, usize),
>)
    requires
        tree_ok(tree, src),
        i < tree.nodes.len(),
    ensures
        bound_views(final(out)@) == bound_views(old(out)@) + identifier_list(
            *tree,
            src@,
            named_children_spec(*tree, i),
            first_only,
        ),
{
    let ghost start = bound_views(out@);
    let kids = tree.named_children(i);
    let mut k: usize = 0;
    assert(kids@.skip(0) =~= kids@);
    while k < kids.len()
        invariant
            tree_ok(tree, src),
            k <= kids.len(),
            kids@ == named_children_spec(*tree, i),
            forall|j: int| #![trigger kids@[j]] 0 <= j < kids.len() ==> i < kids@[j] < tree.nodes.len(),
            start == bound_views(old(out)@),
            bound_views(out@) + identifier_list(*tree, src@, kids@.skip(k as int), first_only) == start
                + identifier_list(*tree, src@, kids@, first_only),
        decreases kids.len() - k,
    {
        let c = kids[k];
        assert(kids@.skip(k as int)[0] == c);
        assert(kids@.skip(k as int).drop_first() =~= kids@.skip(k + 1));
        let ghost before = bound_views(out@);
        let ghost after = identifier_list(*tree, src@, kids@.skip(k + 1), first_only);
        if tree.is_kind(c, "identifier") {
            if let Some(name) = leaf_text(tree, src, c) {
                out.push((name, tree.nodes[c].start));
                assert(bound_views(out@) =~= before + seq![(name@, tree.nodes[c as int].start)]);
                if first_only {
                    assert(bound_views(out@) =~= start + identifier_list(*tree, src@, kids@, first_only));
                    return;
                }
                assert(bound_views(out@) + after =~= before + (seq![(name@, tree.nodes[c as int].start)] + after));
            }
        }
        k += 1;
    }
    assert(bound_views(out@) + identifier_list(*tree, src@, kids@.skip(k as int), first_only) =~= bound_views(out@));
}

/// Push `name` bound at `start` when present.
fn push_named(out: &mut Vec<(String, usize)>, name: Option<String>, start: usize)
    ensures
        final(out)@ == match name {
            Some(n) => old(out)@.push((n, start)),
            None => old(out)@,
        },
{
    if let Some(n) = name {
        out.push((n, start));
    }
}

/// The names node `i` binds as a local designation, each with the byte
/// offset it counts from: parameters, catch names, out-arguments, query
/// range variables, declarators, pattern designations, lambda parameters,
/// and foreach variables. Type parameters count under
/// [`RootPolicy::Declared`].
pub fn local_bindings(tree: &SyntaxTree, src: &[u8], i: usize, policy: RootPolicy) -> (r: Vec<(String, usize)>)
    requires
        tree_ok(tree, src),
        i < tree.nodes.len(),
    ensures
        bound_views(r@) == local_bindings_spec(*tree, src@, i, policy),
{
    let mut names: Vec<(String, usize)> = Vec::new();
    let start = tree.nodes[i].start;
    let ghost target = local_bindings_spec(*tree, src@, i, policy);
    if tree.is_kind(i, "parameter") || tree.is_kind(i, "catch_declaration") || (policy == RootPolicy::Declared
        && tree.is_kind(i, "type_parameter")) || tree.is_kind(i, "declaration_pattern") {
        push_named(&mut names, field_name(tree, src, i), start);
        assert(bound_views(names@) =~= target);
    } else if tree.is_kind(i, "declaration_expression") || tree.is_kind(i, "from_clause") {
        if let Some(n) = tree.child_by_field(i, "name") {
            push_named(&mut names, leaf_text(tree, src, n), tree.nodes[n].start);
        }
        assert(bound_views(names@) =~= target);
    } else if tree.is_kind(i, "query_expression") || tree.is_kind(i, "join_into_clause") || tree.is_kind(
        i,
        "parenthesized_variable_designation",
    ) {
        identifier_children(tree, src, i, false, &mut names);
        assert(bound_views(names@) =~= target);
    } else if tree.is_kind(i, "let_clause") {
        match policy {
            RootPolicy::Declared => identifier_children(tree, src, i, true, &mut names),
            RootPolicy::Open => {
                if let Some(c) = tree.named_child(i, 0) {
                    if tree.is_kind(c, "identifier") {
                        push_named(&mut names, leaf_text(tree, src, c), tree.nodes[c].start);
                    }
                }
            },
        }
        assert(bound_views(names@) =~= target);
    } else if tree.is_kind(i, "join_clause") {
        let type_node = tree.child_by_field(i, "type");
        let ghost type_spec = field_child(*tree, i as int, "type"@);
        let kids = tree.named_children(i);
        let mut k: usize = 0;
        assert(kids@.skip(0) =~= kids@);
        while k < kids.len()
            invariant_except_break
                names.len() == 0,
                first_except(kids@, type_spec) == first_except(kids@.skip(k as int), type_spec),
            invariant
                tree_ok(tree, src),
                k <= kids.len(),
                type_node matches Some(t) ==> type_spec == Some(t as int),
                type_node is None ==> type_spec is None,
                forall|j: int| #![trigger kids@[j]] 0 <= j < kids.len() ==> i < kids@[j] < tree.nodes.len(),
            ensures
                bound_views(names@) == match first_except(kids@, type_spec) {
                    Some(c) => if kind_is(*tree, c as int, "identifier"@) {
                        named_at(leaf_text_spec(*tree, src@, c as int), tree.nodes[c as int].start)
                    } else {
                        Seq::empty()
                    },
                    None => Seq::<(Seq<char>, usize)>::empty(),
                },
            decreases kids.len() - k,
        {
            let c = kids[k];
            assert(kids@.skip(k as int)[0] == c);
            assert(kids@.skip(k as int).drop_first() =~= kids@.skip(k + 1));
            let is_type = match type_node {
                Some(t) => t == c,
                None => false,
            };
            if is_type {
                k += 1;
                continue;
            }
            assert(first_except(kids@, type_spec) == Some(c));
            if tree.is_kind(c, "identifier") {
                push_named(&mut names, leaf_text(tree, src, c), tree.nodes[c].start);
                assert(bound_views(names@) =~= named_at(leaf_text_spec(*tree, src@, c as int), tree.nodes[c as int].start));
            } else {
                assert(bound_views(names@) =~= Seq::empty());
            }
            break;
        }
        assert(bound_views(names@) =~= target);
    } else if tree.is_kind(i, "variable_declarator") {
        push_named(&mut names, field_name(tree, src, i), start);
        let ghost first = bound_views(names@);
        let kids = tree.named_children(i);
        let mut k: usize = 0;
        assert(kids@.skip(0) =~= kids@);
        while k < kids.len()
            invariant
                tree_ok(tree, src),
                k <= kids.len(),
                forall|j: int| #![trigger kids@[j]] 0 <= j < kids.len() ==> i < kids@[j] < tree.nodes.len(),
                bound_views(names@) + at_start(pattern_kid_names(*tree, src@, kids@.skip(k as int)), start) == first
                    + at_start(pattern_kid_names(*tree, src@, kids@), start),
            decreases kids.len() - k,
        {
            let c = kids[k];
            assert(kids@.skip(k as int)[0] == c);
            assert(kids@.skip(k as int).drop_first() =~= kids@.skip(k + 1));
            let ghost after = pattern_kid_names(*tree, src@, kids@.skip(k + 1));
            let ghost before = bound_views(names@);
            if tree.is_kind(c, "tuple_pattern") {
                let mut pattern: Vec<String> = Vec::new();
                tuple_pattern_names(tree, src, c, &mut pattern);
                let ghost found = views(pattern@);
                assert(views(pattern@) =~= tuple_names(*tree, src@, c as int));
                while pattern.len() > 0
                    invariant
                        bound_views(names@) + at_start(views(pattern@), start) == before + at_start(found, start),
                    decreases pattern.len(),
                {
                    let ghost b = bound_views(names@);
                    let ghost rest = pattern@;
                    let name = pattern.remove(0);
                    names.push((name, start));
                    assert(rest =~= seq![name] + pattern@);
                    assert(at_start(views(rest), start) =~= seq![(name@, start)] + at_start(views(pattern@), start));
                    assert(bound_views(names@) =~= b + seq![(name@, start)]);
                    assert(bound_views(names@) + at_start(views(pattern@), start) =~= b + at_start(views(rest), start));
                }
                assert(at_start(views(pattern@), start) =~= Seq::empty());
                assert(at_start(found + after, start) =~= at_start(found, start) + at_start(after, start));
                assert(bound_views(names@) + at_start(after, start) =~= before + at_start(found + after, start));
            } else {
                assert(pattern_kid_names(*tree, src@, kids@.skip(k as int)) =~= after);
            }
            k += 1;
        }
        assert(bound_views(names@) + at_start(pattern_kid_names(*tree, src@, kids@.skip(k as int)), start) =~= bound_views(
            names@,
        ));
        assert(bound_views(names@) =~= target);
    } else if tree.is_kind(i, "implicit_parameter") {
        push_named(&mut names, node_text(tree, src, i), start);
        assert(bound_views(names@) =~= target);
    } else if tree.is_kind(i, "foreach_statement") {
        if let Some(left) = tree.child_by_field(i, "left") {
            let mut found: Vec<String> = Vec::new();
            designation_names(tree, src, left, &mut found);
            let ghost all = views(found@);
            assert(all =~= designation_spec(*tree, src@, left as int));
            while found.len() > 0
                invariant
                    bound_views(names@) + at_start(views(found@), start) == at_start(all, start),
                decreases found.len(),
            {
                let ghost b = bound_views(names@);
                let ghost rest = found@;
                let name = found.remove(0);
                names.push((name, start));
                assert(rest =~= seq![name] + found@);
                assert(at_start(views(rest), start) =~= seq![(name@, start)] + at_start(views(found@), start));
                assert(bound_views(names@) =~= b + seq![(name@, start)]);
                assert(bound_views(names@) + at_start(views(found@), start) =~= b + at_start(views(rest), start));
            }
            assert(at_start(views(found@), start) =~= Seq::empty());
            assert(bound_views(names@) =~= at_start(all, start));
        }
        assert(bound_views(names@) =~= target);
    } else {
        assert(bound_views(names@) =~= target);
    }
    names
}

} // verus!
