//! Invocation names and array shapes read from the syntax tree, without
//! resolving types or imports.
//!
//! Rust calls expose the method name rather than the receiver's type; C#
//! invocations keep written qualification where it is a name. Generic
//! arguments and complex receivers contribute no name components.
use crate::symbol_policy::{
    check_enabled, matches_name, name_matches, policy_result, ArrayKind, SymbolAction, PolicyObservations, SymbolDeclaration, SymbolError, SymbolLanguage,
    SymbolRule, SymbolUsage,
};
use crate::syntax::{
    children_spec, field_child, first_of_kind, has_error, kind_is, tree_has_error, named_children_spec, node_text, text_of, tree_ok,
    SyntaxTree,
};
use crate::text::{chars_of, owned, push_char, push_str, str_eq, trim, trim_spec};
use vstd::prelude::*;

verus! {

/// Node `i` is a name token: an identifier of any sort, `self`, `super`,
/// `crate`, or a predefined type.
pub open spec fn name_leaf(tree: SyntaxTree, i: int) -> bool {
    ||| kind_is(tree, i, "identifier"@)
    ||| kind_is(tree, i, "type_identifier"@)
    ||| kind_is(tree, i, "field_identifier"@)
    ||| kind_is(tree, i, "self"@)
    ||| kind_is(tree, i, "super"@)
    ||| kind_is(tree, i, "crate"@)
    ||| kind_is(tree, i, "predefined_type"@)
}

/// Node `i` is a qualified or generic name whose parts are read.
pub open spec fn name_holder(tree: SyntaxTree, i: int) -> bool {
    ||| kind_is(tree, i, "scoped_identifier"@)
    ||| kind_is(tree, i, "scoped_type_identifier"@)
    ||| kind_is(tree, i, "generic_type"@)
    ||| kind_is(tree, i, "generic_function"@)
    ||| kind_is(tree, i, "qualified_name"@)
    ||| kind_is(tree, i, "alias_qualified_name"@)
    ||| kind_is(tree, i, "generic_name"@)
    ||| kind_is(tree, i, "member_access_expression"@)
}

/// The name tokens under node `i` in source order, each with the line its
/// text ends on; `None` when a token's text is not whole characters.
pub open spec fn name_tokens(tree: SyntaxTree, src: Seq<u8>, i: int) -> Option<Seq<(Seq<char>, usize)>>
    decreases tree.nodes.len() - i, children_spec(tree, i as usize).len() + 1,
{
    if name_leaf(tree, i) {
        match text_of(tree, src, i) {
            Some(t) => Some(seq![(t, (tree.nodes[i].end_row + 1) as usize)]),
            None => None,
        }
    } else if name_holder(tree, i) {
        kids_tokens(tree, src, children_spec(tree, i as usize), i)
    } else {
        Some(Seq::empty())
    }
}

/// The name tokens under the children `kids` of node `i`, in order.
pub open spec fn kids_tokens(tree: SyntaxTree, src: Seq<u8>, kids: Seq<usize>, i: int) -> Option<
    Seq<(Seq<char>, usize)>,
>
    decreases tree.nodes.len() - i, kids.len(),
{
    if kids.len() == 0 {
        Some(Seq::empty())
    } else {
        let here = if 0 <= i < kids[0] < tree.nodes.len() {
            name_tokens(tree, src, kids[0] as int)
        } else {
            Some(Seq::empty())
        };
        match here {
            None => None,
            Some(h) => match kids_tokens(tree, src, kids.drop_first(), i) {
                None => None,
                Some(t) => Some(h + t),
            },
        }
    }
}

/// The tokens' texts joined with `::`, no separator after an empty prefix.
pub open spec fn glue(parts: Seq<(Seq<char>, usize)>) -> Seq<char>
    decreases parts.len(),
{
    if parts.len() == 0 {
        Seq::empty()
    } else {
        let acc = glue(parts.drop_last());
        if acc.len() == 0 {
            parts.last().0
        } else {
            acc + "::"@ + parts.last().0
        }
    }
}

/// The written path of the name at node `i` and the line its last token
/// ends on; `None` without any token.
pub open spec fn written_path_spec(tree: SyntaxTree, src: Seq<u8>, i: int) -> Option<(Seq<char>, usize)> {
    match name_tokens(tree, src, i) {
        Some(ts) => if ts.len() == 0 {
            None
        } else {
            Some((glue(ts), ts.last().1))
        },
        None => None,
    }
}

/// The texts and lines of collected tokens.
pub open spec fn token_views(ts: Seq<(String, usize)>) -> Seq<(Seq<char>, usize)> {
    ts.map_values(|t: (String, usize)| (t.0@, t.1))
}

/// Append the name tokens under node `i` to `out`.
fn collect_tokens(tree: &SyntaxTree, src: &[u8], i: usize, out: &mut Vec<(String, usize)>) -> (r: bool)
    requires
        tree_ok(tree, src),
        i < tree.nodes.len(),
    ensures
        r == name_tokens(*tree, src@, i as int) is Some,
        r ==> token_views(final(out)@) == token_views(old(out)@) + name_tokens(*tree, src@, i as int)->0,
    decreases tree.nodes.len() - i,
{
    let ghost start = token_views(out@);
    if tree.is_kind(i, "identifier") || tree.is_kind(i, "type_identifier") || tree.is_kind(i, "field_identifier")
        || tree.is_kind(i, "self") || tree.is_kind(i, "super") || tree.is_kind(i, "crate") || tree.is_kind(
        i,
        "predefined_type",
    ) {
        match node_text(tree, src, i) {
            Some(t) => {
                out.push((t, tree.nodes[i].end_row + 1));
                assert(token_views(out@) =~= start + name_tokens(*tree, src@, i as int)->0);
                return true;
            },
            None => return false,
        }
    }
    if !(tree.is_kind(i, "scoped_identifier") || tree.is_kind(i, "scoped_type_identifier") || tree.is_kind(
        i,
        "generic_type",
    ) || tree.is_kind(i, "generic_function") || tree.is_kind(i, "qualified_name") || tree.is_kind(
        i,
        "alias_qualified_name",
    ) || tree.is_kind(i, "generic_name") || tree.is_kind(i, "member_access_expression")) {
        assert(token_views(out@) =~= start + Seq::empty());
        return true;
    }
    let kids = tree.children(i);
    let mut k: usize = 0;
    assert(kids@.skip(0) =~= kids@);
    while k < kids.len()
        invariant
            tree_ok(tree, src),
            i < tree.nodes.len(),
            k <= kids.len(),
            kids@ == children_spec(*tree, i),
            forall|j: int| #![trigger kids@[j]] 0 <= j < kids.len() ==> i < kids@[j] < tree.nodes.len(),
            name_tokens(*tree, src@, i as int) == (match kids_tokens(*tree, src@, kids@.skip(k as int), i as int) {
                None => None,
                Some(t) => Some(token_views(out@).skip(start.len() as int) + t),
            }),
            start.len() <= token_views(out@).len(),
            token_views(out@).take(start.len() as int) == start,
        decreases kids.len() - k,
    {
        let c = kids[k];
        assert(kids@.skip(k as int)[0] == c);
        assert(kids@.skip(k as int).drop_first() =~= kids@.skip(k + 1));
        let ghost before = token_views(out@);
        if !collect_tokens(tree, src, c, out) {
            return false;
        }
        assert(token_views(out@).skip(start.len() as int) =~= before.skip(start.len() as int) + name_tokens(
            *tree,
            src@,
            c as int,
        )->0);
        assert(token_views(out@).take(start.len() as int) =~= before.take(start.len() as int));
        k += 1;
    }
    assert(kids@.skip(k as int) =~= Seq::<usize>::empty());
    assert(token_views(out@).skip(start.len() as int) + Seq::empty() =~= token_views(out@).skip(start.len() as int));
    assert(token_views(out@) =~= start + token_views(out@).skip(start.len() as int));
    true
}

/// The written path of the name at node `i` and the line its last token
/// ends on.
pub fn written_path(tree: &SyntaxTree, src: &[u8], i: usize) -> (r: Option<(String, usize)>)
    requires
        tree_ok(tree, src),
        i < tree.nodes.len(),
    ensures
        match r {
            Some((p, line)) => written_path_spec(*tree, src@, i as int) == Some((p@, line)),
            None => written_path_spec(*tree, src@, i as int) is None,
        },
{
    let mut tokens: Vec<(String, usize)> = Vec::new();
    assert(token_views(tokens@) =~= Seq::empty());
    if !collect_tokens(tree, src, i, &mut tokens) {
        return None;
    }
    if tokens.len() == 0 {
        return None;
    }
    let ghost ts = token_views(tokens@);
    let mut path = String::new();
    let mut k: usize = 0;
    while k < tokens.len()
        invariant
            k <= tokens.len(),
            ts == token_views(tokens@),
            path@ == glue(ts.take(k as int)),
        decreases tokens.len() - k,
    {
        assert(ts.take(k + 1).drop_last() =~= ts.take(k as int));
        if chars_of(path.as_str()).len() > 0 {
            push_str(&mut path, "::");
        }
        push_str(&mut path, tokens[k].0.as_str());
        k += 1;
    }
    assert(ts.take(k as int) =~= ts);
    let last = tokens[tokens.len() - 1].1;
    Some((path, last))
}

/// The text of `s` before its first `c`, or all of it.
pub open spec fn before_first(s: Seq<char>, c: char) -> Seq<char>
    decreases s.len(),
{
    if s.len() == 0 {
        s
    } else if s[0] == c {
        Seq::empty()
    } else {
        seq![s[0]] + before_first(s.drop_first(), c)
    }
}

/// The text of `s` after its last `c`, or all of it.
pub open spec fn after_last(s: Seq<char>, c: char) -> Seq<char>
    decreases s.len(),
{
    if s.len() == 0 {
        s
    } else if s.last() == c {
        Seq::empty()
    } else {
        after_last(s.drop_last(), c).push(s.last())
    }
}

fn before_first_of(s: &str, c: char) -> (r: String)
    ensures
        r@ == before_first(s@, c),
{
    let chars = chars_of(s);
    let mut out = String::new();
    let mut k: usize = 0;
    assert(s@.skip(0) =~= s@);
    assert(s@.take(0) + before_first(s@, c) =~= before_first(s@, c));
    while k < chars.len() && chars[k] != c
        invariant
            chars@ == s@,
            k <= chars.len(),
            out@ == s@.take(k as int),
            before_first(s@, c) == s@.take(k as int) + before_first(s@.skip(k as int), c),
        decreases chars.len() - k,
    {
        let ghost rest = s@.skip(k as int);
        assert(rest[0] == chars@[k as int]);
        assert(rest.drop_first() =~= s@.skip(k + 1));
        assert(s@.take(k + 1) =~= s@.take(k as int).push(chars@[k as int]));
        assert(s@.take(k as int) + (seq![rest[0]] + before_first(rest.drop_first(), c)) =~= s@.take(k + 1)
            + before_first(s@.skip(k + 1), c));
        push_char(&mut out, chars[k]);
        k += 1;
    }
    if k < chars.len() {
        assert(s@.skip(k as int)[0] == c);
    } else {
        assert(s@.skip(k as int).len() == 0);
    }
    assert(s@.take(k as int) + before_first(s@.skip(k as int), c) =~= s@.take(k as int));
    out
}

fn after_last_of(s: &str, c: char) -> (r: String)
    ensures
        r@ == after_last(s@, c),
{
    let chars = chars_of(s);
    let n = chars.len();
    let mut j: usize = n;
    assert(s@.take(n as int) =~= s@);
    assert(s@.subrange(n as int, n as int) =~= Seq::<char>::empty());
    while j > 0 && chars[j - 1] != c
        invariant
            chars@ == s@,
            n == chars.len(),
            j <= n,
            after_last(s@, c) == after_last(s@.take(j as int), c) + s@.subrange(j as int, n as int),
        decreases j,
    {
        let ghost t = s@.take(j as int);
        assert(t.last() == chars@[j - 1]);
        assert(t.drop_last() =~= s@.take(j - 1));
        assert(s@.subrange(j - 1, n as int) =~= seq![chars@[j - 1]] + s@.subrange(j as int, n as int));
        assert(after_last(t, c) + s@.subrange(j as int, n as int) =~= after_last(s@.take(j - 1), c) + s@.subrange(
            j - 1,
            n as int,
        ));
        j -= 1;
    }
    assert(after_last(s@.take(j as int), c) =~= Seq::<char>::empty());
    let mut out = String::new();
    let mut k = j;
    while k < n
        invariant
            chars@ == s@,
            n == chars.len(),
            j <= k <= n,
            out@ == s@.subrange(j as int, k as int),
        decreases n - k,
    {
        push_char(&mut out, chars[k]);
        assert(s@.subrange(j as int, k + 1) =~= s@.subrange(j as int, k as int).push(chars@[k as int]));
        k += 1;
    }
    assert(after_last(s@, c) =~= s@.subrange(j as int, n as int));
    out
}

/// The node whose text is the invocation's written name in older reports:
/// for a call its whole callee, else `name`; a Rust field access or C#
/// member access gives way to its last name.
pub open spec fn legacy_node(tree: SyntaxTree, i: int, name: int, language: SymbolLanguage, call: bool) -> int {
    let original = if call {
        match field_child(tree, i, "function"@) {
            Some(f) => f,
            None => name,
        }
    } else {
        name
    };
    match language {
        SymbolLanguage::Rust => if kind_is(tree, original, "field_expression"@) {
            match field_child(tree, original, "field"@) {
                Some(f) => f,
                None => original,
            }
        } else {
            original
        },
        SymbolLanguage::Csharp => if kind_is(tree, original, "member_access_expression"@) {
            match field_child(tree, original, "name"@) {
                Some(f) => f,
                None => original,
            }
        } else {
            original
        },
    }
}

/// The invocation's written name in older reports: the trimmed text of its
/// legacy node, for a creation only the type's last dotted part before any
/// generic arguments.
pub open spec fn legacy_name_spec(
    tree: SyntaxTree,
    src: Seq<u8>,
    i: int,
    name: int,
    language: SymbolLanguage,
    kind: Seq<char>,
) -> Seq<char> {
    let text = trim_spec(
        match text_of(tree, src, legacy_node(tree, i, name, language, kind == "call"@)) {
            Some(t) => t,
            None => Seq::empty(),
        },
    );
    if kind == "creation"@ {
        trim_spec(after_last(before_first(text, '<'), '.'))
    } else {
        text
    }
}

fn legacy_name(tree: &SyntaxTree, src: &[u8], i: usize, name: usize, language: SymbolLanguage, call: bool, creation: bool) -> (r: String)
    requires
        tree_ok(tree, src),
        i < tree.nodes.len(),
        name < tree.nodes.len(),
        !(call && creation),
    ensures
        r@ == legacy_name_spec(
            *tree,
            src@,
            i as int,
            name as int,
            language,
            if call {
                "call"@
            } else if creation {
                "creation"@
            } else {
                "macro"@
            },
        ),
{
    let original = if call {
        match tree.child_by_field(i, "function") {
            Some(f) => f,
            None => name,
        }
    } else {
        name
    };
    let original = match language {
        SymbolLanguage::Rust => if tree.is_kind(original, "field_expression") {
            match tree.child_by_field(original, "field") {
                Some(f) => f,
                None => original,
            }
        } else {
            original
        },
        SymbolLanguage::Csharp => if tree.is_kind(original, "member_access_expression") {
            match tree.child_by_field(original, "name") {
                Some(f) => f,
                None => original,
            }
        } else {
            original
        },
    };
    proof {
        reveal_strlit("call");
        reveal_strlit("creation");
        reveal_strlit("macro");
        assert("call"@.len() != "creation"@.len());
        assert("call"@.len() != "macro"@.len());
        assert("creation"@ != "macro"@);
    }
    let raw = match node_text(tree, src, original) {
        Some(t) => t,
        None => String::new(),
    };
    let text = trim(raw.as_str());
    if creation {
        let head = before_first_of(text.as_str(), '<');
        let part = after_last_of(head.as_str(), '.');
        trim(part.as_str())
    } else {
        text
    }
}

/// Some of `kids` is not extra material.
pub open spec fn any_solid(tree: SyntaxTree, kids: Seq<usize>) -> bool {
    exists|j: int| 0 <= j < kids.len() && !#[trigger] tree.nodes[kids[j] as int].extra
}

/// The invocation at node `i` passes no argument: it has an argument list
/// whose named children are all extra material, such as comments.
pub open spec fn zero_arguments_spec(tree: SyntaxTree, i: int) -> bool {
    field_child(tree, i, "arguments"@) matches Some(a) && !any_solid(tree, named_children_spec(tree, a as usize))
}

/// The invocation at node `i` has an argument list with no named child at
/// all.
pub open spec fn empty_arguments_spec(tree: SyntaxTree, i: int) -> bool {
    field_child(tree, i, "arguments"@) matches Some(a) && named_children_spec(tree, a as usize).len() == 0
}

fn zero_arguments(tree: &SyntaxTree, i: usize) -> (r: (bool, bool))
    requires
        tree.wf(),
        i < tree.nodes.len(),
    ensures
        r.0 == zero_arguments_spec(*tree, i as int),
        r.1 == empty_arguments_spec(*tree, i as int),
{
    let a = match tree.child_by_field(i, "arguments") {
        Some(a) => a,
        None => return (false, false),
    };
    let kids = tree.named_children(a);
    let mut k: usize = 0;
    while k < kids.len()
        invariant
            tree.wf(),
            k <= kids.len(),
            kids@ == named_children_spec(*tree, a),
            zero_arguments_spec(*tree, i as int) == !any_solid(*tree, kids@),
            empty_arguments_spec(*tree, i as int) == (kids.len() == 0),
            forall|j: int| #![trigger kids@[j]] 0 <= j < kids.len() ==> a < kids@[j] < tree.nodes.len(),
            forall|j: int| 0 <= j < k ==> #[trigger] tree.nodes[kids@[j] as int].extra,
        decreases kids.len() - k,
    {
        if !tree.nodes[kids[k]].extra {
            assert(!tree.nodes[kids@[k as int] as int].extra);
            assert(any_solid(*tree, named_children_spec(*tree, a)));
            return (false, kids.len() == 0);
        }
        k += 1;
    }
    (true, kids.len() == 0)
}

/// Some of `kids` is a `,` token.
pub open spec fn any_comma(tree: SyntaxTree, kids: Seq<usize>) -> bool {
    exists|j: int| 0 <= j < kids.len() && #[trigger] kind_is(tree, kids[j] as int, ","@)
}

/// How many of `kids` are named and not extra material.
pub open spec fn sized_count(tree: SyntaxTree, kids: Seq<usize>) -> nat
    decreases kids.len(),
{
    if kids.len() == 0 {
        0
    } else {
        sized_count(tree, kids.drop_last()) + if tree.nodes[kids.last() as int].named && !tree.nodes[kids.last() as int].extra {
            1nat
        } else {
            0nat
        }
    }
}

/// The array creation at node `i` makes a one-dimensional array of
/// non-array elements with one explicit size.
pub open spec fn vector_shape(tree: SyntaxTree, i: int) -> bool {
    &&& field_child(tree, i, "type"@) matches Some(ty)
    &&& field_child(tree, ty, "type"@) matches Some(el)
    &&& !kind_is(tree, el, "array_type"@)
    &&& field_child(tree, ty, "rank"@) matches Some(rk)
    &&& !any_comma(tree, children_spec(tree, rk as usize))
    &&& sized_count(tree, children_spec(tree, rk as usize)) == 1
}

fn is_vector_shape(tree: &SyntaxTree, i: usize) -> (r: bool)
    requires
        tree.wf(),
        i < tree.nodes.len(),
    ensures
        r == vector_shape(*tree, i as int),
{
    let ty = match tree.child_by_field(i, "type") {
        Some(t) => t,
        None => return false,
    };
    let el = match tree.child_by_field(ty, "type") {
        Some(e) => e,
        None => return false,
    };
    if tree.is_kind(el, "array_type") {
        return false;
    }
    let rk = match tree.child_by_field(ty, "rank") {
        Some(r) => r,
        None => return false,
    };
    let kids = tree.children(rk);
    let mut sizes: usize = 0;
    let mut k: usize = 0;
    assert(kids@.take(0) =~= Seq::<usize>::empty());
    while k < kids.len()
        invariant
            tree.wf(),
            k <= kids.len(),
            kids@ == children_spec(*tree, rk),
            vector_shape(*tree, i as int) == (!any_comma(*tree, kids@) && sized_count(*tree, kids@) == 1),
            forall|j: int| #![trigger kids@[j]] 0 <= j < kids.len() ==> rk < kids@[j] < tree.nodes.len(),
            forall|j: int| 0 <= j < k ==> !#[trigger] kind_is(*tree, kids@[j] as int, ","@),
            sizes == sized_count(*tree, kids@.take(k as int)),
            sizes <= k,
        decreases kids.len() - k,
    {
        let c = kids[k];
        assert(kids@.take(k + 1).drop_last() =~= kids@.take(k as int));
        if tree.is_kind(c, ",") {
            assert(kind_is(*tree, kids@[k as int] as int, ","@));
            assert(any_comma(*tree, children_spec(*tree, rk)));
            return false;
        }
        if tree.nodes[c].named && !tree.nodes[c].extra {
            sizes += 1;
        }
        k += 1;
    }
    assert(kids@.take(k as int) =~= kids@);
    sizes == 1
}

/// The node naming the invoked symbol at node `i`, with the invocation's
/// kind: a Rust call's function (through generic arguments and to a
/// method's name) or a macro's name; a C# creation's type or a call's
/// function.
pub open spec fn invoked_name(tree: SyntaxTree, i: int, language: SymbolLanguage) -> Option<(int, Seq<char>)> {
    match language {
        SymbolLanguage::Rust => if kind_is(tree, i, "call_expression"@) {
            match field_child(tree, i, "function"@) {
                None => None,
                Some(f) => {
                    let g = if kind_is(tree, f, "generic_function"@) {
                        field_child(tree, f, "function"@)
                    } else {
                        Some(f)
                    };
                    match g {
                        None => None,
                        Some(g) => if kind_is(tree, g, "field_expression"@) {
                            match field_child(tree, g, "field"@) {
                                None => None,
                                Some(h) => Some((h, "call"@)),
                            }
                        } else {
                            Some((g, "call"@))
                        },
                    }
                },
            }
        } else if kind_is(tree, i, "macro_invocation"@) {
            match field_child(tree, i, "macro"@) {
                None => None,
                Some(m) => Some((m, "macro"@)),
            }
        } else {
            None
        },
        SymbolLanguage::Csharp => if kind_is(tree, i, "object_creation_expression"@) {
            match field_child(tree, i, "type"@) {
                None => None,
                Some(t) => Some((t, "creation"@)),
            }
        } else if kind_is(tree, i, "invocation_expression"@) {
            match field_child(tree, i, "function"@) {
                None => None,
                Some(f) => Some((f, "call"@)),
            }
        } else {
            None
        },
    }
}

/// A C# array creation, explicit or implicit.
pub open spec fn array_creation_kind(tree: SyntaxTree, i: int) -> bool {
    kind_is(tree, i, "array_creation_expression"@) || kind_is(tree, i, "implicit_array_creation_expression"@)
}

/// A usage as plain values: path, kind, line, array shape, no arguments,
/// no initializer, empty argument list, and written name.
pub open spec fn usage_view(u: SymbolUsage) -> (Seq<char>, Seq<char>, usize, Option<ArrayKind>, bool, bool, bool, Seq<char>) {
    (u.path@, u.kind@, u.line, u.array_kind, u.zero_arguments, u.no_initializer, u.empty_argument_list, u.written_name@)
}

/// The plain values of each usage.
pub open spec fn usage_views(us: Seq<SymbolUsage>) -> Seq<
    (Seq<char>, Seq<char>, usize, Option<ArrayKind>, bool, bool, bool, Seq<char>),
> {
    us.map_values(|u: SymbolUsage| usage_view(u))
}

/// The invocation recognised at node `i`, if any. Array creations (C#)
/// are named `new[]`; a macro's path ends in `!` and a creation's in
/// `::new`. Its line is the one its name ends on.
pub open spec fn usage_spec(tree: SyntaxTree, src: Seq<u8>, i: int, language: SymbolLanguage) -> Option<
    (Seq<char>, Seq<char>, usize, Option<ArrayKind>, bool, bool, bool, Seq<char>),
> {
    if language == SymbolLanguage::Csharp && array_creation_kind(tree, i) {
        Some(
            (
                "new[]"@,
                "array creation"@,
                (tree.nodes[i].row + 1) as usize,
                Some(
                    if vector_shape(tree, i) {
                        ArrayKind::ExplicitSizedVector
                    } else {
                        ArrayKind::Any
                    },
                ),
                true,
                first_of_kind(tree, named_children_spec(tree, i as usize), "initializer_expression"@) is None,
                true,
                "new[]"@,
            ),
        )
    } else {
        match invoked_name(tree, i, language) {
            None => None,
            Some((n, kind)) => match written_path_spec(tree, src, n) {
                None => None,
                Some((p, line)) => Some(
                    (
                        if kind == "macro"@ {
                            p + "!"@
                        } else if kind == "creation"@ {
                            p + "::new"@
                        } else {
                            p
                        },
                        kind,
                        line,
                        None,
                        zero_arguments_spec(tree, i),
                        field_child(tree, i, "initializer"@) is None,
                        kind == "macro"@ || empty_arguments_spec(tree, i),
                        legacy_name_spec(tree, src, i, n, language, kind),
                    ),
                ),
            },
        }
    }
}

/// The kind of a recognised invocation.
pub enum Invocation {
    Call,
    Macro,
    Creation,
}

/// The word for an invocation kind.
pub open spec fn invocation_word(k: Invocation) -> Seq<char> {
    match k {
        Invocation::Call => "call"@,
        Invocation::Macro => "macro"@,
        Invocation::Creation => "creation"@,
    }
}

fn find_invoked(tree: &SyntaxTree, i: usize, language: SymbolLanguage) -> (r: Option<(usize, Invocation)>)
    requires
        tree.wf(),
        i < tree.nodes.len(),
    ensures
        match r {
            Some((n, k)) => n < tree.nodes.len() && invoked_name(*tree, i as int, language) == Some(
                (n as int, invocation_word(k)),
            ),
            None => invoked_name(*tree, i as int, language) is None,
        },
{
    match language {
        SymbolLanguage::Rust => {
            if tree.is_kind(i, "call_expression") {
                let f = match tree.child_by_field(i, "function") {
                    Some(f) => f,
                    None => return None,
                };
                let g = if tree.is_kind(f, "generic_function") {
                    match tree.child_by_field(f, "function") {
                        Some(g) => g,
                        None => return None,
                    }
                } else {
                    f
                };
                if tree.is_kind(g, "field_expression") {
                    match tree.child_by_field(g, "field") {
                        Some(h) => Some((h, Invocation::Call)),
                        None => None,
                    }
                } else {
                    Some((g, Invocation::Call))
                }
            } else if tree.is_kind(i, "macro_invocation") {
                match tree.child_by_field(i, "macro") {
                    Some(m) => Some((m, Invocation::Macro)),
                    None => None,
                }
            } else {
                None
            }
        },
        SymbolLanguage::Csharp => {
            if tree.is_kind(i, "object_creation_expression") {
                match tree.child_by_field(i, "type") {
                    Some(t) => Some((t, Invocation::Creation)),
                    None => None,
                }
            } else if tree.is_kind(i, "invocation_expression") {
                match tree.child_by_field(i, "function") {
                    Some(f) => Some((f, Invocation::Call)),
                    None => None,
                }
            } else {
                None
            }
        },
    }
}

/// The invocation at node `i`, if the node is one that `language`
/// recognises and its name has at least one name token.
///
/// # Returns
///
/// The invocation's normalized path, kind, line and shape; `None` for
/// unrelated syntax.
pub fn usage_at(tree: &SyntaxTree, src: &[u8], i: usize, language: SymbolLanguage) -> (r: Option<SymbolUsage>)
    requires
        tree.wf(),
        tree.source_len == src@.len(),
        i < tree.nodes.len(),
    ensures
        match r {
            Some(u) => usage_spec(*tree, src@, i as int, language) == Some(usage_view(u)),
            None => usage_spec(*tree, src@, i as int, language) is None,
        },
{
    proof {
        reveal_strlit("call");
        reveal_strlit("creation");
        reveal_strlit("macro");
        assert("call"@.len() != "creation"@.len());
        assert("call"@.len() != "macro"@.len());
        assert("creation"@.len() != "macro"@.len());
    }
    if language == SymbolLanguage::Csharp && (tree.is_kind(i, "array_creation_expression") || tree.is_kind(
        i,
        "implicit_array_creation_expression",
    )) {
        let kids = tree.named_children(i);
        let mut no_initializer = true;
        let mut k: usize = 0;
        assert(kids@.skip(0) =~= kids@);
        while k < kids.len()
            invariant
                tree.wf(),
                k <= kids.len(),
                forall|j: int| #![trigger kids@[j]] 0 <= j < kids.len() ==> i < kids@[j] < tree.nodes.len(),
                no_initializer ==> first_of_kind(*tree, kids@, "initializer_expression"@) == first_of_kind(
                    *tree,
                    kids@.skip(k as int),
                    "initializer_expression"@,
                ),
                !no_initializer ==> first_of_kind(*tree, kids@, "initializer_expression"@) is Some,
            decreases kids.len() - k,
        {
            assert(kids@.skip(k as int)[0] == kids@[k as int]);
            assert(kids@.skip(k as int).drop_first() =~= kids@.skip(k + 1));
            if no_initializer && tree.is_kind(kids[k], "initializer_expression") {
                no_initializer = false;
            }
            k += 1;
        }
        let vector = is_vector_shape(tree, i);
        let line = tree.nodes[i].row + 1;
        return Some(
            SymbolUsage {
                path: owned("new[]"),
                kind: owned("array creation"),
                line,
                array_kind: Some(
                    if vector {
                        ArrayKind::ExplicitSizedVector
                    } else {
                        ArrayKind::Any
                    },
                ),
                zero_arguments: true,
                no_initializer,
                empty_argument_list: true,
                written_name: owned("new[]"),
            },
        );
    }
    let (n, kind) = match find_invoked(tree, i, language) {
        Some(x) => x,
        None => return None,
    };
    let (mut path, line) = match written_path(tree, src, n) {
        Some(x) => x,
        None => return None,
    };
    let (call, creation) = match kind {
        Invocation::Call => (true, false),
        Invocation::Macro => {
            push_str(&mut path, "!");
            (false, false)
        },
        Invocation::Creation => {
            push_str(&mut path, "::new");
            (false, true)
        },
    };
    let (zero, empty) = zero_arguments(tree, i);
    let written_name = legacy_name(tree, src, i, n, language, call, creation);
    let no_initializer = tree.child_by_field(i, "initializer").is_none();
    Some(
        SymbolUsage {
            path,
            kind: owned(
                match kind {
                    Invocation::Call => "call",
                    Invocation::Macro => "macro",
                    Invocation::Creation => "creation",
                },
            ),
            line,
            array_kind: None,
            zero_arguments: zero,
            no_initializer,
            empty_argument_list: !call && !creation || empty,
            written_name,
        },
    )
}

/// The invocations recognised at the nodes before index `n`, in preorder.
pub open spec fn usages_in(tree: SyntaxTree, src: Seq<u8>, language: SymbolLanguage, n: int) -> Seq<
    (Seq<char>, Seq<char>, usize, Option<ArrayKind>, bool, bool, bool, Seq<char>),
>
    decreases n,
{
    if n <= 0 {
        Seq::empty()
    } else {
        let before = usages_in(tree, src, language, n - 1);
        match usage_spec(tree, src, n - 1, language) {
            Some(u) => before.push(u),
            None => before,
        }
    }
}

/// Every invocation in the file, in source order.
///
/// # Returns
///
/// One usage per recognised invocation node, in preorder.
pub fn usages_of(tree: &SyntaxTree, src: &[u8], language: SymbolLanguage) -> (r: Vec<SymbolUsage>)
    requires
        tree.wf(),
        tree.source_len == src@.len(),
    ensures
        usage_views(r@) == usages_in(*tree, src@, language, tree.nodes.len() as int),
{
    let mut out: Vec<SymbolUsage> = Vec::new();
    let mut i: usize = 0;
    assert(out@.map_values(|u: SymbolUsage| usage_view(u)) =~= usages_in(*tree, src@, language, 0));
    while i < tree.nodes.len()
        invariant
            tree.wf(),
            tree.source_len == src@.len(),
            i <= tree.nodes.len(),
            out@.map_values(|u: SymbolUsage| usage_view(u)) == usages_in(*tree, src@, language, i as int),
        decreases tree.nodes.len() - i,
    {
        let ghost before = out@;
        match usage_at(tree, src, i, language) {
            Some(u) => {
                out.push(u);
                assert(out@.map_values(|u: SymbolUsage| usage_view(u)) =~= before.map_values(
                    |u: SymbolUsage| usage_view(u),
                ).push(usage_view(u)));
            },
            None => {},
        }
        i += 1;
    }
    out
}

/// The policy language of a file extension: `rs` for Rust, `cs` for C#.
pub open spec fn language_spec(ext: Seq<char>) -> Option<SymbolLanguage> {
    if ext == "rs"@ {
        Some(SymbolLanguage::Rust)
    } else if ext == "cs"@ {
        Some(SymbolLanguage::Csharp)
    } else {
        None
    }
}

/// The policy language of a file extension.
pub fn language_for(ext: &str) -> (r: Option<SymbolLanguage>)
    ensures
        r == language_spec(ext@),
{
    if str_eq(ext, "rs") {
        Some(SymbolLanguage::Rust)
    } else if str_eq(ext, "cs") {
        Some(SymbolLanguage::Csharp)
    } else {
        None
    }
}

/// Apply the symbol policies to one parsed file.
///
/// The invocations are read from the tree; `declarations` are the file's
/// declarations in source order. A file of another language observes
/// nothing. The declarations of a tree with syntax errors or missing tokens
/// count as unreadable.
///
/// # Errors
///
/// [`SymbolError::SyntaxErrors`] when a declaration rule is in play and the
/// tree holds a syntax error or a missing token.
pub fn check_file(
    tree: &SyntaxTree,
    src: &[u8],
    declarations: &Vec<SymbolDeclaration>,
    ext: &str,
    rules: &Vec<SymbolRule>,
    hints_enabled: bool,
) -> (r: Result<PolicyObservations, SymbolError>)
    requires
        tree.wf(),
        tree.source_len == src@.len(),
    ensures
        language_spec(ext@) is None ==> (r matches Ok(o) && o.hints.len() == 0 && o.excluded_ranges.len() == 0
            && o.lint_exclusions.len() == 0),
        language_spec(ext@) matches Some(language) ==> exists|us: Seq<SymbolUsage>|
            #[trigger] usage_views(us) == usages_in(
                *tree,
                src@,
                language,
                tree.nodes.len() as int,
            ) && policy_result(
                if has_error(*tree) {
                    None
                } else {
                    Some(declarations@)
                },
                us,
                language,
                rules@,
                hints_enabled,
                r,
            ),
{
    let language = match language_for(ext) {
        Some(l) => l,
        None => {
            return Ok(
                PolicyObservations { hints: Vec::new(), excluded_ranges: Vec::new(), lint_exclusions: Vec::new() },
            )
        },
    };
    let usages = usages_of(tree, src, language);
    let readable = if tree_has_error(tree) {
        None
    } else {
        Some(declarations)
    };
    let r = check_enabled(readable, &usages, language, rules, hints_enabled);
    proof {
        assert(usage_views(usages@) == usages_in(
            *tree,
            src@,
            language,
            tree.nodes.len() as int,
        ));
    }
    r
}

/// Rule `rule` protects the declaration at `path` from edits.
pub open spec fn protects(rule: SymbolRule, path: Seq<char>) -> bool {
    rule.action == SymbolAction::Exclude && rule.exclude_edits && name_matches(rule.matcher, path)
}

/// Some rule protects edits at all.
pub open spec fn any_edit_rule(rules: Seq<SymbolRule>) -> bool {
    exists|k: int| 0 <= k < rules.len() && (#[trigger] rules[k]).action == SymbolAction::Exclude && rules[k].exclude_edits
}

/// The byte ranges of the first `i` declarations that some rule protects.
pub open spec fn protected_ranges(decls: Seq<SymbolDeclaration>, rules: Seq<SymbolRule>, i: int) -> Seq<(usize, usize)>
    decreases i,
{
    if i <= 0 {
        Seq::empty()
    } else {
        let d = decls[i - 1];
        protected_ranges(decls, rules, i - 1) + if exists|k: int| 0 <= k < rules.len() && protects(#[trigger] rules[k], d.path@) {
            seq![(d.start, d.end)]
        } else {
            Seq::empty()
        }
    }
}

/// Whether some rule protects the declaration at `path`.
fn is_protected(rules: &Vec<SymbolRule>, path: &str) -> (r: bool)
    ensures
        r == exists|k: int| 0 <= k < rules.len() && protects(#[trigger] rules@[k], path@),
{
    let mut k: usize = 0;
    while k < rules.len()
        invariant
            k <= rules.len(),
            forall|q: int| 0 <= q < k ==> !protects(#[trigger] rules@[q], path@),
        decreases rules.len() - k,
    {
        if rules[k].action == SymbolAction::Exclude && rules[k].exclude_edits && matches_name(&rules[k].matcher, path) {
            assert(protects(rules@[k as int], path@));
            return true;
        }
        k += 1;
    }
    false
}

/// The edit-protected declaration ranges of a file, without reading its
/// invocations.
///
/// # Errors
///
/// [`SymbolError::SyntaxErrors`] when some rule protects edits and the tree
/// holds a syntax error or a missing token.
pub fn excluded_ranges(
    tree: &SyntaxTree,
    declarations: &Vec<SymbolDeclaration>,
    ext: &str,
    rules: &Vec<SymbolRule>,
) -> (r: Result<Vec<(usize, usize)>, SymbolError>)
    requires
        tree.wf(),
    ensures
        language_spec(ext@) is None ==> (r matches Ok(v) && v.len() == 0),
        language_spec(ext@) is Some ==> {
            &&& (r is Err <==> any_edit_rule(rules@) && has_error(*tree))
            &&& (r matches Ok(v) ==> v@ == if any_edit_rule(rules@) {
                protected_ranges(declarations@, rules@, declarations.len() as int)
            } else {
                Seq::empty()
            })
        },
{
    if language_for(ext).is_none() {
        return Ok(Vec::new());
    }
    let mut any = false;
    let mut k: usize = 0;
    while k < rules.len()
        invariant
            k <= rules.len(),
            any == exists|q: int| 0 <= q < k && (#[trigger] rules@[q]).action == SymbolAction::Exclude && rules@[q].exclude_edits,
        decreases rules.len() - k,
    {
        if rules[k].action == SymbolAction::Exclude && rules[k].exclude_edits {
            any = true;
        }
        k += 1;
    }
    if !any {
        return Ok(Vec::new());
    }
    if tree_has_error(tree) {
        return Err(SymbolError::SyntaxErrors);
    }
    let mut out: Vec<(usize, usize)> = Vec::new();
    let mut i: usize = 0;
    while i < declarations.len()
        invariant
            i <= declarations.len(),
            out@ == protected_ranges(declarations@, rules@, i as int),
        decreases declarations.len() - i,
    {
        let d = &declarations[i];
        if is_protected(rules, d.path.as_str()) {
            out.push((d.start, d.end));
        }
        i += 1;
    }
    Ok(out)
}

/// Whether a file opts out of post-processing: some declaration matches
/// one of `rules`, the opt-outs that apply to the file's language.
///
/// # Errors
///
/// [`SymbolError::SyntaxErrors`] when the tree holds a syntax error or a
/// missing token, even if no declaration matches.
pub fn excludes_post_process(tree: &SyntaxTree, declarations: &Vec<SymbolDeclaration>, rules: &Vec<SymbolRule>) -> (r: Result<bool, SymbolError>)
    requires
        tree.wf(),
    ensures
        r is Err <==> has_error(*tree),
        r matches Ok(b) ==> (b <==> exists|i: int, k: int|
            0 <= i < declarations.len() && 0 <= k < rules.len() && name_matches(
                (#[trigger] rules@[k]).matcher,
                (#[trigger] declarations@[i]).path@,
            )),
{
    if tree_has_error(tree) {
        return Err(SymbolError::SyntaxErrors);
    }
    let mut i: usize = 0;
    while i < declarations.len()
        invariant
            !has_error(*tree),
            i <= declarations.len(),
            forall|a: int, k: int|
                0 <= a < i && 0 <= k < rules.len() ==> !name_matches((#[trigger] rules@[k]).matcher, (#[trigger] declarations@[a]).path@),
        decreases declarations.len() - i,
    {
        let mut k: usize = 0;
        while k < rules.len()
            invariant
                !has_error(*tree),
                i < declarations.len(),
                k <= rules.len(),
                forall|a: int, q: int|
                    0 <= a < i && 0 <= q < rules.len() ==> !name_matches((#[trigger] rules@[q]).matcher, (#[trigger] declarations@[a]).path@),
                forall|q: int| 0 <= q < k ==> !name_matches((#[trigger] rules@[q]).matcher, declarations@[i as int].path@),
            decreases rules.len() - k,
        {
            if matches_name(&rules[k].matcher, declarations[i].path.as_str()) {
                return Ok(true);
            }
            k += 1;
        }
        i += 1;
    }
    Ok(false)
}

} // verus!
