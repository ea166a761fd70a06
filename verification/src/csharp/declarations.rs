//! The declaration facts the C# documentation rules read.
//!
//! [`collect_declarations`] walks the compilation unit and every
//! declaration list (namespace and type bodies) in document order and
//! reduces each declaration to a [`Declaration`]: its kind, name, line and
//! visibility, the `///` doc lines written above it, its parameter names,
//! and what its declared return type carries.
use crate::diagnostic::{Diagnostic, Severity};
use crate::rust::items::ReturnKind;
use crate::rust::items::{back, begins, trim_breaks};
use crate::syntax::{
    field_child, first_named, kind_is, named_children_spec, node_text, prev_named, text_of, tree_ok, SyntaxTree,
};
use crate::text::{chars_of, push_char, str_eq, str_starts_with};
use vstd::prelude::*;

verus! {

/// What kind of declaration a [`Declaration`] is.
#[derive(Debug, Clone, Copy, PartialEq, Eq, Structural)]
pub enum DeclKind {
    Namespace,
    Class,
    Struct,
    Interface,
    Record,
    Enum,
    Delegate,
    Fn,
    Constructor,
    Destructor,
    Operator,
    Property,
    Event,
    Const,
    Static,
    Other,
}

/// The label a finding shows for a declaration kind.
pub open spec fn decl_label_spec(kind: DeclKind) -> Seq<char> {
    match kind {
        DeclKind::Namespace => "namespace"@,
        DeclKind::Class => "class"@,
        DeclKind::Struct => "struct"@,
        DeclKind::Interface => "interface"@,
        DeclKind::Record => "record"@,
        DeclKind::Enum => "enum"@,
        DeclKind::Delegate => "delegate"@,
        DeclKind::Fn => "fn"@,
        DeclKind::Constructor => "constructor"@,
        DeclKind::Destructor => "destructor"@,
        DeclKind::Operator => "operator"@,
        DeclKind::Property => "property"@,
        DeclKind::Event => "event"@,
        DeclKind::Const => "const"@,
        DeclKind::Static => "static"@,
        DeclKind::Other => "other"@,
    }
}

/// The label a finding shows for `kind`.
pub fn decl_label(kind: DeclKind) -> (r: String)
    ensures
        r@ == decl_label_spec(kind),
{
    crate::text::owned(
        match kind {
            DeclKind::Namespace => "namespace",
            DeclKind::Class => "class",
            DeclKind::Struct => "struct",
            DeclKind::Interface => "interface",
            DeclKind::Record => "record",
            DeclKind::Enum => "enum",
            DeclKind::Delegate => "delegate",
            DeclKind::Fn => "fn",
            DeclKind::Constructor => "constructor",
            DeclKind::Destructor => "destructor",
            DeclKind::Operator => "operator",
            DeclKind::Property => "property",
            DeclKind::Event => "event",
            DeclKind::Const => "const",
            DeclKind::Static => "static",
            DeclKind::Other => "other",
        },
    )
}

/// One declaration, as the documentation rules see it.
#[derive(Debug, Clone)]
pub struct Declaration {
    /// The index of the declaration's node in the syntax tree.
    pub node: usize,
    pub kind: DeclKind,
    pub name: Option<String>,
    /// 1-based line of the declaration itself.
    pub line: usize,
    /// Carries a `public`, `internal` or `protected` modifier.
    pub non_private: bool,
    /// The text after `///` of each doc line above the declaration, in order.
    pub docs: Vec<String>,
    /// The declared parameter names of a method, constructor or indexer.
    pub params: Vec<String>,
    /// A method, constructor or indexer, whose parameters the rules check.
    pub parameterized: bool,
    /// What a method's declared return type carries; `None` for other kinds.
    pub return_kind: Option<ReturnKind>,
    /// A method or constructor whose own body holds a `throw` statement.
    pub direct_throw: bool,
    /// The simple names a method or constructor calls or constructs in its
    /// own body, in document order.
    pub calls: Vec<String>,
    /// A method carrying a `TestMethod`, `Test`, `Fact` or `Theory` attribute.
    pub test_marked: bool,
    /// A comment ends on the line just above the declaration, or on its
    /// first line before it.
    pub leading_comment: bool,
}

/// Kinds whose bodies the throw analysis reads: methods and constructors.
pub open spec fn throwing_kind(kind: DeclKind) -> bool {
    kind == DeclKind::Fn || kind == DeclKind::Constructor
}

/// True when `kind` is a method or constructor kind.
pub fn is_throwing_kind(kind: DeclKind) -> (r: bool)
    ensures
        r == throwing_kind(kind),
{
    kind == DeclKind::Fn || kind == DeclKind::Constructor
}

/// The simple name call target `t` names.
pub open spec fn call_name_spec(tree: SyntaxTree, src: Seq<u8>, t: usize) -> Option<Seq<char>>
    decreases tree.nodes.len() - t,
{
    if t >= tree.nodes.len() {
        None
    } else if kind_is(tree, t as int, "identifier"@) {
        text_of(tree, src, t as int)
    } else if kind_is(tree, t as int, "generic_name"@) {
        match first_named(tree, t) {
            Some(c) => if c > t && kind_is(tree, c as int, "identifier"@) {
                text_of(tree, src, c as int)
            } else {
                None
            },
            None => None,
        }
    } else if kind_is(tree, t as int, "member_access_expression"@) || kind_is(tree, t as int, "qualified_name"@) {
        match field_child(tree, t as int, "name"@) {
            Some(c) => if t < c < tree.nodes.len() {
                call_name_spec(tree, src, c as usize)
            } else {
                None
            },
            None => None,
        }
    } else {
        None
    }
}

/// Node `i` runs on its own schedule: a lambda, anonymous method or local
/// function.
pub open spec fn deferred_kind(tree: SyntaxTree, i: int) -> bool {
    kind_is(tree, i, "lambda_expression"@) || kind_is(tree, i, "anonymous_method_expression"@) || kind_is(
        tree,
        i,
        "local_function_statement"@,
    )
}

/// The call or construction target node of node `i`.
pub open spec fn call_target(tree: SyntaxTree, i: int) -> Option<int> {
    if kind_is(tree, i, "invocation_expression"@) {
        field_child(tree, i, "function"@)
    } else if kind_is(tree, i, "object_creation_expression"@) {
        field_child(tree, i, "type"@)
    } else {
        None
    }
}

/// The name node `i` itself calls, other than `nameof`.
pub open spec fn own_call(tree: SyntaxTree, src: Seq<u8>, i: int) -> Seq<Seq<char>> {
    match call_target(tree, i) {
        Some(t) => match call_name_spec(tree, src, t as usize) {
            Some(n) => if n == "nameof"@ {
                Seq::empty()
            } else {
                seq![n]
            },
            None => Seq::empty(),
        },
        None => Seq::empty(),
    }
}

/// Whether the subtree of node `i` throws, and the names it calls in
/// document order, deferred bodies left out.
pub open spec fn scan_spec(tree: SyntaxTree, src: Seq<u8>, i: int) -> (bool, Seq<Seq<char>>)
    decreases tree.nodes.len() - i, named_children_spec(tree, i as usize).len() + 1,
{
    if deferred_kind(tree, i) {
        (false, Seq::empty())
    } else {
        let here = if kind_is(tree, i, "throw_statement"@) {
            (true, Seq::<Seq<char>>::empty())
        } else {
            (false, own_call(tree, src, i))
        };
        let rest = scan_kids(tree, src, named_children_spec(tree, i as usize), i);
        (here.0 || rest.0, here.1 + rest.1)
    }
}

/// What the subtrees of `kids`, children of node `i`, throw and call.
pub open spec fn scan_kids(tree: SyntaxTree, src: Seq<u8>, kids: Seq<usize>, i: int) -> (bool, Seq<Seq<char>>)
    decreases tree.nodes.len() - i, kids.len(),
{
    if kids.len() == 0 {
        (false, Seq::empty())
    } else {
        let here = if 0 <= i < kids[0] < tree.nodes.len() {
            scan_spec(tree, src, kids[0] as int)
        } else {
            (false, Seq::empty())
        };
        let rest = scan_kids(tree, src, kids.drop_first(), i);
        (here.0 || rest.0, here.1 + rest.1)
    }
}

/// Some named child of node `i` is a `public`, `internal` or `protected`
/// modifier.
pub open spec fn access_spec(tree: SyntaxTree, src: Seq<u8>, i: usize) -> bool {
    let kids = named_children_spec(tree, i);
    exists|j: int|
        0 <= j < kids.len() && #[trigger] kind_is(tree, kids[j] as int, "modifier"@) && (text_of(tree, src, kids[j] as int)
            == Some("public"@) || text_of(tree, src, kids[j] as int) == Some("internal"@) || text_of(
            tree,
            src,
            kids[j] as int,
        ) == Some("protected"@))
}

/// The text after `///` of doc comment node `i`, without its line breaks.
pub open spec fn doc_line_spec(tree: SyntaxTree, src: Seq<u8>, i: int) -> Option<Seq<char>> {
    if !kind_is(tree, i, "comment"@) {
        None
    } else {
        match text_of(tree, src, i) {
            None => None,
            Some(t) => if !begins(t, "///"@) || begins(t, "////"@) || t.len() < 3 {
                None
            } else {
                Some(t.subrange(3, trim_breaks(t, 3, t.len() as int)))
            },
        }
    }
}

/// The doc lines walking back from `prev`, nearest first, up to the first
/// node that is not one.
pub open spec fn docs_chain(tree: SyntaxTree, src: Seq<u8>, prev: Option<usize>) -> Seq<Seq<char>>
    decreases match prev {
        Some(a) => a + 1,
        None => 0,
    },
{
    match prev {
        None => Seq::empty(),
        Some(a) => match doc_line_spec(tree, src, a as int) {
            None => Seq::empty(),
            Some(l) => seq![l] + match back(tree, a) {
                Some(b) => docs_chain(tree, src, Some(b)),
                None => Seq::empty(),
            },
        },
    }
}

/// The parameter names among the children `kids` of a parameter list.
pub open spec fn param_list(tree: SyntaxTree, src: Seq<u8>, kids: Seq<usize>) -> Seq<Seq<char>>
    decreases kids.len(),
{
    if kids.len() == 0 {
        Seq::empty()
    } else {
        let here = if kind_is(tree, kids[0] as int, "parameter"@) {
            match field_child(tree, kids[0] as int, "name"@) {
                Some(n) => match text_of(tree, src, n) {
                    Some(t) => seq![t],
                    None => Seq::empty(),
                },
                None => Seq::empty(),
            }
        } else {
            Seq::empty()
        };
        here + param_list(tree, src, kids.drop_first())
    }
}

/// What the `returns` type of method node `i` carries.
pub open spec fn return_kind_spec(tree: SyntaxTree, src: Seq<u8>, i: int) -> ReturnKind {
    match field_child(tree, i, "returns"@) {
        None => ReturnKind::NoValue,
        Some(t) => match text_of(tree, src, t) {
            Some(text) => if text == "void"@ {
                ReturnKind::NoValue
            } else if text == "bool"@ {
                ReturnKind::Bool
            } else {
                ReturnKind::Value
            },
            None => ReturnKind::Value,
        },
    }
}

/// Node `at` is an attribute named `TestMethod`, `Test`, `Fact` or `Theory`.
pub open spec fn test_attribute(tree: SyntaxTree, src: Seq<u8>, at: int) -> bool {
    kind_is(tree, at, "attribute"@) && match field_child(tree, at, "name"@) {
        Some(n) => match text_of(tree, src, n) {
            Some(w) => w == "TestMethod"@ || w == "Test"@ || w == "Fact"@ || w == "Theory"@,
            None => false,
        },
        None => false,
    }
}

/// Some attribute list among the children of node `i` holds a test
/// attribute.
pub open spec fn test_marker_spec(tree: SyntaxTree, src: Seq<u8>, i: usize) -> bool {
    let lists = named_children_spec(tree, i);
    exists|k: int, a: int|
        0 <= k < lists.len() && #[trigger] kind_is(tree, lists[k] as int, "attribute_list"@) && 0 <= a
            < named_children_spec(tree, lists[k]).len() && #[trigger] test_attribute(
            tree,
            src,
            named_children_spec(tree, lists[k])[a] as int,
        )
}

/// The name written on attribute node `at`.
pub open spec fn attribute_name(tree: SyntaxTree, src: Seq<u8>, at: int) -> Option<Seq<char>> {
    if kind_is(tree, at, "attribute"@) {
        match field_child(tree, at, "name"@) {
            Some(n) => text_of(tree, src, n),
            None => None,
        }
    } else {
        None
    }
}

/// The `a`-th attribute of the `k`-th child of node `i`, when that child is
/// an attribute list.
pub open spec fn listed_attribute(tree: SyntaxTree, i: usize, k: int, a: int) -> Option<int> {
    let lists = named_children_spec(tree, i);
    if 0 <= k < lists.len() && kind_is(tree, lists[k] as int, "attribute_list"@) && 0 <= a < named_children_spec(
        tree,
        lists[k],
    ).len() {
        Some(named_children_spec(tree, lists[k])[a] as int)
    } else {
        None
    }
}

/// A method is test-marked exactly when one of its attribute lists holds
/// an attribute named `TestMethod`, `Test`, `Fact` or `Theory`: the record
/// of method node `i` says so.
pub proof fn lemma_test_marked_by_attribute_name(tree: SyntaxTree, src: Seq<u8>, i: usize, kind: DeclKind, d: Declaration)
    requires
        decl_spec(tree, src, i, kind, d),
        kind_is(tree, i as int, "method_declaration"@),
    ensures
        d.test_marked <==> exists|k: int, a: int|
            #[trigger] listed_attribute(tree, i, k, a) matches Some(at) && attribute_name(tree, src, at) matches Some(w)
                && (w == "TestMethod"@ || w == "Test"@ || w == "Fact"@ || w == "Theory"@),
{
    let lists = named_children_spec(tree, i);
    if d.test_marked {
        let (k, a) = choose|k: int, a: int|
            0 <= k < lists.len() && #[trigger] kind_is(tree, lists[k] as int, "attribute_list"@) && 0 <= a
                < named_children_spec(tree, lists[k]).len() && #[trigger] test_attribute(
                tree,
                src,
                named_children_spec(tree, lists[k])[a] as int,
            );
        assert(listed_attribute(tree, i, k, a) == Some(named_children_spec(tree, lists[k])[a] as int));
    }
    if exists|k: int, a: int|
        #[trigger] listed_attribute(tree, i, k, a) matches Some(at) && attribute_name(tree, src, at) matches Some(w)
            && (w == "TestMethod"@ || w == "Test"@ || w == "Fact"@ || w == "Theory"@) {
        let (k, a) = choose|k: int, a: int|
            #[trigger] listed_attribute(tree, i, k, a) matches Some(at) && attribute_name(tree, src, at) matches Some(w)
                && (w == "TestMethod"@ || w == "Test"@ || w == "Fact"@ || w == "Theory"@);
        assert(test_attribute(tree, src, named_children_spec(tree, lists[k])[a] as int));
        assert(kind_is(tree, lists[k] as int, "attribute_list"@));
    }
}

/// The number of line feeds in `s`.
pub open spec fn char_breaks(s: Seq<char>) -> nat
    decreases s.len(),
{
    if s.len() == 0 {
        0
    } else {
        char_breaks(s.drop_last()) + if s.last() == '\n' {
            1nat
        } else {
            0nat
        }
    }
}

/// The comment before node `i` ends on the line just above it, or on its
/// first line.
pub open spec fn leading_comment_spec(tree: SyntaxTree, src: Seq<u8>, i: usize) -> bool {
    match prev_named(tree, i) {
        None => false,
        Some(c) => kind_is(tree, c as int, "comment"@) && match text_of(tree, src, c as int) {
            None => false,
            Some(t) => {
                let breaks = char_breaks(t.take(trim_breaks(t, 0, t.len() as int)));
                let (sr, row) = (tree.nodes[c as int].row as int, tree.nodes[i as int].row as int);
                sr <= row && breaks <= row - sr && row - sr - breaks <= 1
            },
        },
    }
}

/// Node `i` takes checked parameters: a method, constructor or indexer.
pub open spec fn parameterized_kind(tree: SyntaxTree, i: int) -> bool {
    kind_is(tree, i, "method_declaration"@) || kind_is(tree, i, "constructor_declaration"@) || kind_is(
        tree,
        i,
        "indexer_declaration"@,
    )
}

/// `d` is the full record of declaration node `i` of kind `kind`.
pub open spec fn decl_spec(tree: SyntaxTree, src: Seq<u8>, i: usize, kind: DeclKind, d: Declaration) -> bool {
    let ii = i as int;
    let method = kind_is(tree, ii, "method_declaration"@);
    &&& d.node == i
    &&& d.kind == kind
    &&& d.line == tree.nodes[ii].row + 1
    &&& crate::syntax::opt_view(d.name) == match field_child(tree, ii, "name"@) {
        Some(n) => text_of(tree, src, n),
        None => None,
    }
    &&& d.non_private == access_spec(tree, src, i)
    &&& crate::text::views(d.docs@) == crate::text::backwards(docs_chain(tree, src, back(tree, i)))
    &&& d.parameterized == parameterized_kind(tree, ii)
    &&& crate::text::views(d.params@) == if parameterized_kind(tree, ii) {
        match field_child(tree, ii, "parameters"@) {
            Some(l) => param_list(tree, src, named_children_spec(tree, l as usize)),
            None => Seq::empty(),
        }
    } else {
        Seq::empty()
    }
    &&& d.return_kind == if method {
        Some(return_kind_spec(tree, src, ii))
    } else {
        None
    }
    &&& d.test_marked == (method && test_marker_spec(tree, src, i))
    &&& d.leading_comment == leading_comment_spec(tree, src, i)
    &&& (d.direct_throw, crate::text::views(d.calls@)) == if throwing_kind(kind) {
        scan_spec(tree, src, ii)
    } else {
        (false, Seq::empty())
    }
}

/// Node `c` holds declarations the walk descends into: a declaration list,
/// a namespace or a type.
pub open spec fn container_kind(tree: SyntaxTree, c: int) -> bool {
    kind_is(tree, c, "declaration_list"@) || kind_is(tree, c, "namespace_declaration"@) || kind_is(
        tree,
        c,
        "file_scoped_namespace_declaration"@,
    ) || kind_is(tree, c, "class_declaration"@) || kind_is(tree, c, "struct_declaration"@) || kind_is(
        tree,
        c,
        "interface_declaration"@,
    ) || kind_is(tree, c, "record_declaration"@) || kind_is(tree, c, "record_struct_declaration"@)
}

/// The declaration nodes under node `i`, in document order.
pub open spec fn decl_nodes(tree: SyntaxTree, i: int) -> Seq<usize>
    decreases tree.nodes.len() - i, named_children_spec(tree, i as usize).len() + 1,
{
    decl_kids(tree, named_children_spec(tree, i as usize), i)
}

/// The declaration nodes among and under `kids`, children of node `i`.
pub open spec fn decl_kids(tree: SyntaxTree, kids: Seq<usize>, i: int) -> Seq<usize>
    decreases tree.nodes.len() - i, kids.len(),
{
    if kids.len() == 0 {
        Seq::empty()
    } else {
        let c = kids[0];
        let own = if decl_kind_spec(tree.nodes[c as int].kind@) is Some {
            seq![c]
        } else {
            Seq::empty()
        };
        let inner = if container_kind(tree, c as int) && 0 <= i < c < tree.nodes.len() {
            decl_nodes(tree, c as int)
        } else {
            Seq::empty()
        };
        own + inner + decl_kids(tree, kids.drop_first(), i)
    }
}

/// The nodes of a list of declaration records.
pub open spec fn nodes_of(v: Seq<Declaration>) -> Seq<usize> {
    v.map_values(|d: Declaration| d.node)
}

/// The simple name a call or construction target names: an identifier,
/// the identifier of a generic name, or the rightmost name of a member
/// access or qualified name.
fn call_name(tree: &SyntaxTree, src: &[u8], t: usize) -> (r: Option<String>)
    requires
        tree_ok(tree, src),
        t < tree.nodes.len(),
    ensures
        crate::syntax::opt_view(r) == call_name_spec(*tree, src@, t),
    decreases tree.nodes.len() - t,
{
    if tree.is_kind(t, "identifier") {
        node_text(tree, src, t)
    } else if tree.is_kind(t, "generic_name") {
        match tree.named_child(t, 0) {
            Some(c) => {
                if c > t && tree.is_kind(c, "identifier") {
                    node_text(tree, src, c)
                } else {
                    None
                }
            },
            None => None,
        }
    } else if tree.is_kind(t, "member_access_expression") || tree.is_kind(t, "qualified_name") {
        match tree.child_by_field(t, "name") {
            Some(c) => {
                if c > t {
                    call_name(tree, src, c)
                } else {
                    None
                }
            },
            None => None,
        }
    } else {
        None
    }
}

/// Scan the subtree of node `i` for `throw` statements and call targets,
/// leaving out lambdas, anonymous methods and local functions, whose
/// bodies run on their own schedule.
fn scan_body(tree: &SyntaxTree, src: &[u8], i: usize, throws: &mut bool, calls: &mut Vec<String>)
    requires
        tree_ok(tree, src),
        i < tree.nodes.len(),
    ensures
        *final(throws) == (*old(throws) || scan_spec(*tree, src@, i as int).0),
        crate::text::views(final(calls)@) == crate::text::views(old(calls)@) + scan_spec(*tree, src@, i as int).1,
    decreases tree.nodes.len() - i,
{
    let ghost t0 = *throws;
    let ghost c0 = crate::text::views(calls@);
    if tree.is_kind(i, "lambda_expression") || tree.is_kind(i, "anonymous_method_expression")
        || tree.is_kind(i, "local_function_statement") {
        assert(c0 + Seq::empty() =~= c0);
        return;
    }
    if tree.is_kind(i, "throw_statement") {
        *throws = true;
    } else {
        let target = if tree.is_kind(i, "invocation_expression") {
            tree.child_by_field(i, "function")
        } else if tree.is_kind(i, "object_creation_expression") {
            tree.child_by_field(i, "type")
        } else {
            None
        };
        if let Some(t) = target {
            if let Some(name) = call_name(tree, src, t) {
                if !str_eq(name.as_str(), "nameof") {
                    calls.push(name);
                }
            }
        }
    }
    let ghost here: (bool, Seq<Seq<char>>) = if kind_is(*tree, i as int, "throw_statement"@) {
        (true, Seq::<Seq<char>>::empty())
    } else {
        (false, own_call(*tree, src@, i as int))
    };
    assert(crate::text::views(calls@) =~= c0 + here.1);
    assert(*throws == (t0 || here.0));
    let kids = tree.named_children(i);
    let mut k: usize = 0;
    assert(kids@.skip(0) =~= kids@);
    while k < kids.len()
        invariant
            tree_ok(tree, src),
            i < tree.nodes.len(),
            k <= kids.len(),
            forall|j: int| #![trigger kids@[j]] 0 <= j < kids.len() ==> i < kids@[j] < tree.nodes.len(),
            (*throws || scan_kids(*tree, src@, kids@.skip(k as int), i as int).0) == (t0 || here.0 || scan_kids(
                *tree,
                src@,
                kids@,
                i as int,
            ).0),
            crate::text::views(calls@) + scan_kids(*tree, src@, kids@.skip(k as int), i as int).1 == c0 + (here.1
                + scan_kids(*tree, src@, kids@, i as int).1),
        decreases kids.len() - k,
    {
        let c = kids[k];
        assert(kids@.skip(k as int)[0] == c);
        assert(kids@.skip(k as int).drop_first() =~= kids@.skip(k + 1));
        let ghost before = crate::text::views(calls@);
        let ghost sub = scan_spec(*tree, src@, c as int);
        let ghost rest = scan_kids(*tree, src@, kids@.skip(k + 1), i as int);
        scan_body(tree, src, c, throws, calls);
        assert(crate::text::views(calls@) + rest.1 =~= before + (sub.1 + rest.1));
        k += 1;
    }
    assert(crate::text::views(calls@) + scan_kids(*tree, src@, kids@.skip(k as int), i as int).1 =~= crate::text::views(
        calls@,
    ));
}

/// The declaration kind a node of kind `k` stands for, if any.
pub open spec fn decl_kind_spec(k: Seq<char>) -> Option<DeclKind> {
    if k == "namespace_declaration"@ || k == "file_scoped_namespace_declaration"@ {
        Some(DeclKind::Namespace)
    } else if k == "class_declaration"@ {
        Some(DeclKind::Class)
    } else if k == "struct_declaration"@ {
        Some(DeclKind::Struct)
    } else if k == "interface_declaration"@ {
        Some(DeclKind::Interface)
    } else if k == "record_declaration"@ || k == "record_struct_declaration"@ {
        Some(DeclKind::Record)
    } else if k == "enum_declaration"@ {
        Some(DeclKind::Enum)
    } else if k == "delegate_declaration"@ {
        Some(DeclKind::Delegate)
    } else if k == "method_declaration"@ {
        Some(DeclKind::Fn)
    } else if k == "constructor_declaration"@ {
        Some(DeclKind::Constructor)
    } else if k == "destructor_declaration"@ {
        Some(DeclKind::Destructor)
    } else if k == "operator_declaration"@ || k == "conversion_operator_declaration"@ {
        Some(DeclKind::Operator)
    } else if k == "property_declaration"@ || k == "indexer_declaration"@ {
        Some(DeclKind::Property)
    } else if k == "event_declaration"@ || k == "event_field_declaration"@ {
        Some(DeclKind::Event)
    } else if k == "field_declaration"@ {
        Some(DeclKind::Const)
    } else {
        None
    }
}

/// `d` records the declaration node `i`: its kind and line come from the
/// node, and only methods and constructors carry throw facts.
pub open spec fn records_node(tree: SyntaxTree, i: int, d: Declaration) -> bool {
    &&& d.node == i
    &&& 0 <= i < tree.nodes.len()
    &&& decl_kind_spec(tree.nodes[i].kind@) == Some(d.kind)
    &&& d.line == tree.nodes[i].row + 1
    &&& (!throwing_kind(d.kind) ==> !d.direct_throw && d.calls.len() == 0)
    &&& (d.return_kind is Some ==> tree.nodes[i].kind@ == "method_declaration"@)
}

/// The declaration kind node `i` stands for, if it is one.
fn decl_kind_of(tree: &SyntaxTree, i: usize) -> (r: Option<DeclKind>)
    requires
        i < tree.nodes.len(),
    ensures
        r == decl_kind_spec(tree.nodes[i as int].kind@),
{
    if tree.is_kind(i, "namespace_declaration") || tree.is_kind(i, "file_scoped_namespace_declaration") {
        Some(DeclKind::Namespace)
    } else if tree.is_kind(i, "class_declaration") {
        Some(DeclKind::Class)
    } else if tree.is_kind(i, "struct_declaration") {
        Some(DeclKind::Struct)
    } else if tree.is_kind(i, "interface_declaration") {
        Some(DeclKind::Interface)
    } else if tree.is_kind(i, "record_declaration") || tree.is_kind(i, "record_struct_declaration") {
        Some(DeclKind::Record)
    } else if tree.is_kind(i, "enum_declaration") {
        Some(DeclKind::Enum)
    } else if tree.is_kind(i, "delegate_declaration") {
        Some(DeclKind::Delegate)
    } else if tree.is_kind(i, "method_declaration") {
        Some(DeclKind::Fn)
    } else if tree.is_kind(i, "constructor_declaration") {
        Some(DeclKind::Constructor)
    } else if tree.is_kind(i, "destructor_declaration") {
        Some(DeclKind::Destructor)
    } else if tree.is_kind(i, "operator_declaration") || tree.is_kind(i, "conversion_operator_declaration") {
        Some(DeclKind::Operator)
    } else if tree.is_kind(i, "property_declaration") || tree.is_kind(i, "indexer_declaration") {
        Some(DeclKind::Property)
    } else if tree.is_kind(i, "event_declaration") || tree.is_kind(i, "event_field_declaration") {
        Some(DeclKind::Event)
    } else if tree.is_kind(i, "field_declaration") {
        Some(DeclKind::Const)
    } else {
        None
    }
}

/// True when node `i` carries a `public`, `internal` or `protected`
/// modifier.
fn has_access_modifier(tree: &SyntaxTree, src: &[u8], i: usize) -> (r: bool)
    requires
        tree_ok(tree, src),
        i < tree.nodes.len(),
    ensures
        r == access_spec(*tree, src@, i),
{
    let kids = tree.named_children(i);
    let mut k: usize = 0;
    while k < kids.len()
        invariant
            tree_ok(tree, src),
            k <= kids.len(),
            kids@ == named_children_spec(*tree, i),
            forall|j: int| #![trigger kids@[j]] 0 <= j < kids.len() ==> i < kids@[j] < tree.nodes.len(),
            forall|j: int|
                0 <= j < k ==> !(#[trigger] kind_is(*tree, kids@[j] as int, "modifier"@) && (text_of(
                    *tree,
                    src@,
                    kids@[j] as int,
                ) == Some("public"@) || text_of(*tree, src@, kids@[j] as int) == Some("internal"@) || text_of(
                    *tree,
                    src@,
                    kids@[j] as int,
                ) == Some("protected"@))),
        decreases kids.len() - k,
    {
        let c = kids[k];
        if tree.is_kind(c, "modifier") {
            if let Some(t) = node_text(tree, src, c) {
                let w = t.as_str();
                if str_eq(w, "public") || str_eq(w, "internal") || str_eq(w, "protected") {
                    assert(kind_is(*tree, kids@[k as int] as int, "modifier"@));
                    return true;
                }
            }
        }
        k += 1;
    }
    false
}

/// The text after `///` of a doc comment node, without its line break.
fn doc_line(tree: &SyntaxTree, src: &[u8], i: usize) -> (r: Option<String>)
    requires
        tree_ok(tree, src),
        i < tree.nodes.len(),
    ensures
        crate::syntax::opt_view(r) == doc_line_spec(*tree, src@, i as int),
{
    if !tree.is_kind(i, "comment") {
        return None;
    }
    let text = match node_text(tree, src, i) {
        Some(t) => t,
        None => return None,
    };
    if !str_starts_with(text.as_str(), "///") || str_starts_with(text.as_str(), "////") {
        return None;
    }
    let chars = chars_of(text.as_str());
    if chars.len() < 3 {
        return None;
    }
    let mut end = chars.len();
    while end > 3 && (chars[end - 1] == '\n' || chars[end - 1] == '\r')
        invariant
            3 <= end <= chars.len(),
            chars@ == text@,
            trim_breaks(text@, 3, chars.len() as int) == trim_breaks(text@, 3, end as int),
        decreases end,
    {
        end -= 1;
    }
    let mut out = String::new();
    let mut k: usize = 3;
    while k < end
        invariant
            3 <= k <= end <= chars.len(),
            out@ == chars@.subrange(3, k as int),
        decreases end - k,
    {
        push_char(&mut out, chars[k]);
        assert(chars@.subrange(3, k + 1) =~= chars@.subrange(3, k as int).push(chars@[k as int]));
        k += 1;
    }
    Some(out)
}

/// The `///` lines directly above node `i`, in document order.
fn docs_above(tree: &SyntaxTree, src: &[u8], i: usize) -> (r: Vec<String>)
    requires
        tree_ok(tree, src),
        i < tree.nodes.len(),
    ensures
        crate::text::views(r@) == crate::text::backwards(docs_chain(*tree, src@, back(*tree, i))),
{
    let mut rev: Vec<String> = Vec::new();
    let mut previous = tree.prev_named_sibling(i);
    let ghost whole = docs_chain(*tree, src@, back(*tree, i));
    assert(crate::text::views(rev@) + whole =~= whole);
    loop
        invariant
            tree_ok(tree, src),
            previous matches Some(a) ==> a < tree.nodes.len(),
            crate::text::views(rev@) + docs_chain(*tree, src@, previous) == whole,
        ensures
            crate::text::views(rev@) == whole,
        decreases match previous {
            Some(a) => a + 1,
            None => 0,
        },
    {
        let ghost before = crate::text::views(rev@);
        let a = match previous {
            Some(a) => a,
            None => {
                assert(before + Seq::empty() =~= before);
                break;
            },
        };
        match doc_line(tree, src, a) {
            Some(line) => rev.push(line),
            None => {
                assert(before + Seq::empty() =~= before);
                break;
            },
        }
        let next = tree.prev_named_sibling(a);
        assert(next == back(*tree, a));
        let ghost l = rev@.last()@;
        assert(crate::text::views(rev@) =~= before + seq![l]);
        assert(crate::text::views(rev@) + docs_chain(*tree, src@, next) =~= before + (seq![l] + docs_chain(
            *tree,
            src@,
            next,
        )));
        previous = next;
    }
    let out = crate::text::reversed(rev);
    assert(crate::text::views(out@) =~= crate::text::backwards(crate::text::views(rev@)));
    out
}

/// The parameter names of a parameter list node.
fn parameter_names(tree: &SyntaxTree, src: &[u8], list: usize) -> (r: Vec<String>)
    requires
        tree_ok(tree, src),
        list < tree.nodes.len(),
    ensures
        crate::text::views(r@) == param_list(*tree, src@, named_children_spec(*tree, list)),
{
    let mut names: Vec<String> = Vec::new();
    let kids = tree.named_children(list);
    let mut k: usize = 0;
    assert(kids@.skip(0) =~= kids@);
    assert(crate::text::views(names@) + param_list(*tree, src@, kids@) =~= param_list(*tree, src@, kids@));
    while k < kids.len()
        invariant
            tree_ok(tree, src),
            k <= kids.len(),
            forall|j: int| #![trigger kids@[j]] 0 <= j < kids.len() ==> list < kids@[j] < tree.nodes.len(),
            crate::text::views(names@) + param_list(*tree, src@, kids@.skip(k as int)) == param_list(
                *tree,
                src@,
                kids@,
            ),
        decreases kids.len() - k,
    {
        let c = kids[k];
        assert(kids@.skip(k as int)[0] == c);
        assert(kids@.skip(k as int).drop_first() =~= kids@.skip(k + 1));
        let ghost before = crate::text::views(names@);
        let ghost rest = param_list(*tree, src@, kids@.skip(k + 1));
        if tree.is_kind(c, "parameter") {
            if let Some(n) = tree.child_by_field(c, "name") {
                if let Some(t) = node_text(tree, src, n) {
                    names.push(t);
                    assert(crate::text::views(names@) =~= before + seq![t@]);
                }
            }
        }
        assert(crate::text::views(names@) + rest =~= before + param_list(*tree, src@, kids@.skip(k as int)));
        k += 1;
    }
    assert(crate::text::views(names@) + param_list(*tree, src@, kids@.skip(k as int)) =~= crate::text::views(
        names@,
    ));
    names
}

/// What a method's `returns` type node carries.
fn return_kind_of(tree: &SyntaxTree, src: &[u8], i: usize) -> (r: ReturnKind)
    requires
        tree_ok(tree, src),
        i < tree.nodes.len(),
    ensures
        r == return_kind_spec(*tree, src@, i as int),
{
    match tree.child_by_field(i, "returns") {
        None => ReturnKind::NoValue,
        Some(t) => match node_text(tree, src, t) {
            Some(text) => {
                if str_eq(text.as_str(), "void") {
                    ReturnKind::NoValue
                } else if str_eq(text.as_str(), "bool") {
                    ReturnKind::Bool
                } else {
                    ReturnKind::Value
                }
            },
            None => ReturnKind::Value,
        },
    }
}

/// True when method node `i` carries a `TestMethod`, `Test`, `Fact` or
/// `Theory` attribute.
fn has_test_marker(tree: &SyntaxTree, src: &[u8], i: usize) -> (r: bool)
    requires
        tree_ok(tree, src),
        i < tree.nodes.len(),
    ensures
        r == test_marker_spec(*tree, src@, i),
{
    let lists = tree.named_children(i);
    let mut k: usize = 0;
    while k < lists.len()
        invariant
            tree_ok(tree, src),
            k <= lists.len(),
            lists@ == named_children_spec(*tree, i),
            forall|j: int| #![trigger lists@[j]] 0 <= j < lists.len() ==> i < lists@[j] < tree.nodes.len(),
            forall|kk: int, a: int|
                0 <= kk < k && #[trigger] kind_is(*tree, lists@[kk] as int, "attribute_list"@) && 0 <= a
                    < named_children_spec(*tree, lists@[kk]).len() ==> !#[trigger] test_attribute(
                    *tree,
                    src@,
                    named_children_spec(*tree, lists@[kk])[a] as int,
                ),
        decreases lists.len() - k,
    {
        let l = lists[k];
        if tree.is_kind(l, "attribute_list") {
            let attrs = tree.named_children(l);
            let mut a: usize = 0;
            while a < attrs.len()
                invariant
                    tree_ok(tree, src),
                    l < tree.nodes.len(),
                    lists@ == named_children_spec(*tree, i),
                    k < lists.len(),
                    l == lists@[k as int],
                    kind_is(*tree, l as int, "attribute_list"@),
                    a <= attrs.len(),
                    attrs@ == named_children_spec(*tree, l),
                    forall|j: int| #![trigger attrs@[j]] 0 <= j < attrs.len() ==> l < attrs@[j] < tree.nodes.len(),
                    forall|b: int| 0 <= b < a ==> !#[trigger] test_attribute(*tree, src@, attrs@[b] as int),
                decreases attrs.len() - a,
            {
                let at = attrs[a];
                if tree.is_kind(at, "attribute") {
                    if let Some(n) = tree.child_by_field(at, "name") {
                        if let Some(t) = node_text(tree, src, n) {
                            let w = t.as_str();
                            if str_eq(w, "TestMethod") || str_eq(w, "Test") || str_eq(w, "Fact") || str_eq(w, "Theory") {
                                assert(test_attribute(*tree, src@, attrs@[a as int] as int));
                                assert(kind_is(*tree, lists@[k as int] as int, "attribute_list"@));
                                return true;
                            }
                        }
                    }
                }
                assert(!test_attribute(*tree, src@, attrs@[a as int] as int));
                a += 1;
            }
        }
        k += 1;
    }
    false
}

/// True when a comment ends on the line just above node `i`, or on its
/// first line before it.
fn has_leading_comment(tree: &SyntaxTree, src: &[u8], i: usize) -> (r: bool)
    requires
        tree_ok(tree, src),
        i < tree.nodes.len(),
    ensures
        r == leading_comment_spec(*tree, src@, i),
{
    let c = match tree.prev_named_sibling(i) {
        Some(c) => c,
        None => return false,
    };
    if !tree.is_kind(c, "comment") {
        return false;
    }
    let text = match node_text(tree, src, c) {
        Some(t) => t,
        None => return false,
    };
    let chars = chars_of(text.as_str());
    let mut end = chars.len();
    while end > 0 && (chars[end - 1] == '\n' || chars[end - 1] == '\r')
        invariant
            end <= chars.len(),
            chars@ == text@,
            trim_breaks(text@, 0, chars.len() as int) == trim_breaks(text@, 0, end as int),
        decreases end,
    {
        end -= 1;
    }
    let mut breaks: usize = 0;
    let mut k: usize = 0;
    assert(chars@.take(0) =~= Seq::<char>::empty());
    while k < end
        invariant
            end <= chars.len(),
            k <= end,
            breaks <= k,
            breaks == char_breaks(chars@.take(k as int)),
        decreases end - k,
    {
        assert(chars@.take(k + 1).drop_last() =~= chars@.take(k as int));
        if chars[k] == '\n' {
            breaks += 1;
        }
        k += 1;
    }
    let start_row = tree.nodes[c].row;
    let row = tree.nodes[i].row;
    start_row <= row && breaks <= row - start_row && row - start_row - breaks <= 1
}

/// The declaration record for node `i` of kind `kind`.
fn declaration_at(tree: &SyntaxTree, src: &[u8], i: usize, kind: DeclKind) -> (r: Declaration)
    requires
        tree_ok(tree, src),
        i < tree.nodes.len(),
    ensures
        r.node == i,
        r.kind == kind,
        r.line == tree.nodes[i as int].row + 1,
        !throwing_kind(kind) ==> !r.direct_throw && r.calls.len() == 0,
        r.return_kind is Some ==> tree.nodes[i as int].kind@ == "method_declaration"@,
        decl_spec(*tree, src@, i, kind, r),
{
    let name = match tree.child_by_field(i, "name") {
        Some(n) => node_text(tree, src, n),
        None => None,
    };
    let parameterized = tree.is_kind(i, "method_declaration") || tree.is_kind(i, "constructor_declaration")
        || tree.is_kind(i, "indexer_declaration");
    let params = if parameterized {
        match tree.child_by_field(i, "parameters") {
            Some(list) => parameter_names(tree, src, list),
            None => Vec::new(),
        }
    } else {
        Vec::new()
    };
    assert(!parameterized ==> crate::text::views(params@) =~= Seq::empty());
    assert(parameterized && field_child(*tree, i as int, "parameters"@) is None ==> crate::text::views(params@)
        =~= Seq::empty());
    let return_kind = if tree.is_kind(i, "method_declaration") {
        Some(return_kind_of(tree, src, i))
    } else {
        None
    };
    let test_marked = tree.is_kind(i, "method_declaration") && has_test_marker(tree, src, i);
    let leading_comment = has_leading_comment(tree, src, i);
    let mut direct_throw = false;
    let mut calls: Vec<String> = Vec::new();
    assert(crate::text::views(calls@) =~= Seq::empty());
    if is_throwing_kind(kind) {
        scan_body(tree, src, i, &mut direct_throw, &mut calls);
        assert(crate::text::views(calls@) =~= scan_spec(*tree, src@, i as int).1);
    }
    Declaration {
        node: i,
        kind,
        name,
        line: tree.nodes[i].row + 1,
        non_private: has_access_modifier(tree, src, i),
        docs: docs_above(tree, src, i),
        params,
        parameterized,
        return_kind,
        direct_throw,
        calls,
        test_marked,
        leading_comment,
    }
}

/// Collect the declarations under node `i` in document order, descending
/// into namespace and type bodies.
fn collect_under(tree: &SyntaxTree, src: &[u8], i: usize, out: &mut Vec<Declaration>)
    requires
        tree_ok(tree, src),
        i < tree.nodes.len(),
    ensures
        forall|k: int|
            #![trigger final(out)@[k]]
            old(out).len() <= k < final(out).len() ==> records_node(*tree, final(out)@[k].node as int, final(out)@[k]),
        final(out).len() >= old(out).len(),
        forall|k: int| #![trigger final(out)@[k]] 0 <= k < old(out).len() ==> final(out)@[k] == old(out)@[k],
        nodes_of(final(out)@) == nodes_of(old(out)@) + decl_nodes(*tree, i as int),
        forall|k: int|
            #![trigger final(out)@[k]]
            old(out).len() <= k < final(out).len() ==> decl_spec(
                *tree,
                src@,
                final(out)@[k].node,
                final(out)@[k].kind,
                final(out)@[k],
            ),
    decreases tree.nodes.len() - i,
{
    let ghost n0 = nodes_of(out@);
    let kids = tree.named_children(i);
    let mut k: usize = 0;
    assert(kids@.skip(0) =~= kids@);
    assert(nodes_of(out@) + decl_nodes(*tree, i as int) =~= n0 + decl_kids(*tree, kids@, i as int));
    while k < kids.len()
        invariant
            tree_ok(tree, src),
            i < tree.nodes.len(),
            k <= kids.len(),
            kids@ == named_children_spec(*tree, i),
            forall|j: int| #![trigger kids@[j]] 0 <= j < kids.len() ==> i < kids@[j] < tree.nodes.len(),
            forall|m: int|
                #![trigger out@[m]]
                old(out).len() <= m < out.len() ==> records_node(*tree, out@[m].node as int, out@[m]),
            forall|m: int|
                #![trigger out@[m]]
                old(out).len() <= m < out.len() ==> decl_spec(*tree, src@, out@[m].node, out@[m].kind, out@[m]),
            out.len() >= old(out).len(),
            forall|m: int| #![trigger out@[m]] 0 <= m < old(out).len() ==> out@[m] == old(out)@[m],
            n0 == nodes_of(old(out)@),
            nodes_of(out@) + decl_kids(*tree, kids@.skip(k as int), i as int) == n0 + decl_nodes(*tree, i as int),
        decreases kids.len() - k,
    {
        let c = kids[k];
        assert(kids@.skip(k as int)[0] == c);
        assert(kids@.skip(k as int).drop_first() =~= kids@.skip(k + 1));
        let ghost before = nodes_of(out@);
        let ghost rest = decl_kids(*tree, kids@.skip(k + 1), i as int);
        let ghost own = if decl_kind_spec(tree.nodes[c as int].kind@) is Some {
            seq![c]
        } else {
            Seq::<usize>::empty()
        };
        let ghost inner = if container_kind(*tree, c as int) {
            decl_nodes(*tree, c as int)
        } else {
            Seq::<usize>::empty()
        };
        assert(decl_kids(*tree, kids@.skip(k as int), i as int) == own + inner + rest);
        if let Some(kind) = decl_kind_of(tree, c) {
            let d = declaration_at(tree, src, c, kind);
            out.push(d);
        }
        assert(nodes_of(out@) =~= before + own);
        let ghost mid = nodes_of(out@);
        if tree.is_kind(c, "declaration_list") || tree.is_kind(c, "namespace_declaration")
            || tree.is_kind(c, "file_scoped_namespace_declaration") || tree.is_kind(c, "class_declaration")
            || tree.is_kind(c, "struct_declaration") || tree.is_kind(c, "interface_declaration")
            || tree.is_kind(c, "record_declaration") || tree.is_kind(c, "record_struct_declaration") {
            collect_under(tree, src, c, out);
        }
        assert(nodes_of(out@) =~= mid + inner);
        assert(nodes_of(out@) + rest =~= before + (own + inner + rest));
        k += 1;
    }
    assert(nodes_of(out@) + decl_kids(*tree, kids@.skip(k as int), i as int) =~= nodes_of(out@));
}

/// The declarations of a parsed file, in document order.
///
/// # Returns
///
/// One record per declaration in the compilation unit and in every
/// namespace and type body; each record's kind and line come from its
/// declaration node.
pub fn collect_declarations(tree: &SyntaxTree, src: &[u8]) -> (r: Vec<Declaration>)
    requires
        tree.wf(),
        tree.source_len == src@.len(),
    ensures
        forall|k: int| #![trigger r@[k]] 0 <= k < r.len() ==> records_node(*tree, r@[k].node as int, r@[k]),
        nodes_of(r@) == decl_nodes(*tree, 0),
        forall|k: int| #![trigger r@[k]] 0 <= k < r.len() ==> decl_spec(*tree, src@, r@[k].node, r@[k].kind, r@[k]),
{
    let mut out: Vec<Declaration> = Vec::new();
    assert(nodes_of(out@) =~= Seq::empty());
    collect_under(tree, src, 0, &mut out);
    assert(nodes_of(out@) =~= decl_nodes(*tree, 0));
    out
}


/// The view of an optional string.
pub open spec fn opt_view(o: Option<String>) -> Option<Seq<char>> {
    match o {
        Some(s) => Some(s@),
        None => None,
    }
}

/// `d` reports on `decl` with this code, severity, title and message.
pub open spec fn decl_finding(
    d: Diagnostic,
    decl: Declaration,
    code: Seq<char>,
    severity: Severity,
    title: Seq<char>,
    message: Seq<char>,
) -> bool {
    &&& d.code@ == code
    &&& d.severity == severity
    &&& d.title matches Some(t) && t@ == title
    &&& d.message@ == message
    &&& d.line == decl.line
    &&& d.item_kind@ == decl_label_spec(decl.kind)
    &&& opt_view(d.item_name) == opt_view(decl.name)
}

/// The finding on `decl` with the given code, severity, title and message.
pub fn decl_diagnostic(decl: &Declaration, code: &'static str, severity: Severity, title: &str, message: String) -> (r:
    Diagnostic)
    ensures
        decl_finding(r, *decl, code@, severity, title@, message@),
{
    Diagnostic {
        severity,
        code,
        title: Some(crate::text::owned(title)),
        message,
        line: decl.line,
        item_kind: decl_label(decl.kind),
        item_name: match &decl.name {
            Some(n) => Some(crate::text::copy_string(n)),
            None => None,
        },
    }
}

/// Kinds whose declarations need doc comments.
pub open spec fn documentable(kind: DeclKind) -> bool {
    kind == DeclKind::Class || kind == DeclKind::Struct || kind == DeclKind::Interface || kind == DeclKind::Record
        || kind == DeclKind::Enum || kind == DeclKind::Delegate || kind == DeclKind::Fn || kind == DeclKind::Property
        || kind == DeclKind::Event || kind == DeclKind::Const || kind == DeclKind::Static || kind
        == DeclKind::Constructor
}

/// True when `kind` needs doc comments.
pub fn is_documentable(kind: DeclKind) -> (r: bool)
    ensures
        r == documentable(kind),
{
    kind == DeclKind::Class || kind == DeclKind::Struct || kind == DeclKind::Interface || kind == DeclKind::Record
        || kind == DeclKind::Enum || kind == DeclKind::Delegate || kind == DeclKind::Fn || kind == DeclKind::Property
        || kind == DeclKind::Event || kind == DeclKind::Const || kind == DeclKind::Static || kind
        == DeclKind::Constructor
}

} // verus!
