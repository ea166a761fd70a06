//! The item model the Rust documentation and test rules read.
//!
//! A [`SourceItem`] is one top-level item of a parsed file, reduced to the
//! facts the rules consult: its kind, name and visibility, the outer doc
//! comment lines attached to it, where it starts, what its return type is,
//! and whether it is a test function opened by a summary comment.
//! [`source_items`] reads them from the syntax tree.
use crate::lex::{lemma_str_total, lemma_str_transitive, str_less, str_lt};
use crate::text::views;
use crate::syntax::{
    field_child, first_named, first_of_kind, kind_is, named_children_spec, node_text, opt_view, prev_named, text_of,
    tree_ok, SyntaxTree,
};
use crate::text::{chars_of, push_char, str_eq, str_starts_with};
use vstd::prelude::*;

verus! {

/// What kind of item a [`SourceItem`] is.
#[derive(Debug, Clone, Copy, PartialEq, Eq, Structural)]
pub enum ItemKind {
    Fn,
    Struct,
    Enum,
    Union,
    Type,
    Trait,
    Const,
    Static,
    Mod,
    Impl,
    Macro,
    Use,
    ExternCrate,
    Other,
}

/// How far an item's `pub` reaches; private items have none.
#[derive(Debug, Clone, Copy, PartialEq, Eq, Structural)]
pub enum VisibilityTier {
    /// Plain `pub`.
    Pub,
    /// `pub(crate)`.
    Crate,
    /// `pub(super)`, `pub(self)`, `pub(in path)`, or bare `crate`.
    Restricted,
}

/// What a function's declared return type carries.
#[derive(Debug, Clone, Copy, PartialEq, Eq, Structural)]
pub enum ReturnKind {
    /// No declared type, `()`, or `!`.
    NoValue,
    /// `Self`, or a reference to `Self`.
    SelfValue,
    /// `Result<(), E>`.
    ResultUnit,
    /// Exactly `bool`.
    Bool,
    /// Any other type.
    Value,
}

/// The label a finding shows for an item kind.
pub open spec fn kind_label_spec(kind: ItemKind) -> Seq<char> {
    match kind {
        ItemKind::Fn => "fn"@,
        ItemKind::Struct => "struct"@,
        ItemKind::Enum => "enum"@,
        ItemKind::Union => "union"@,
        ItemKind::Type => "type"@,
        ItemKind::Trait => "trait"@,
        ItemKind::Const => "const"@,
        ItemKind::Static => "static"@,
        ItemKind::Mod => "mod"@,
        ItemKind::Impl => "impl"@,
        ItemKind::Macro => "macro"@,
        ItemKind::Use => "use"@,
        ItemKind::ExternCrate => "extern crate"@,
        ItemKind::Other => "other"@,
    }
}

/// The label a finding shows for `kind`.
pub fn kind_label(kind: ItemKind) -> (r: String)
    ensures
        r@ == kind_label_spec(kind),
{
    crate::text::owned(
        match kind {
            ItemKind::Fn => "fn",
            ItemKind::Struct => "struct",
            ItemKind::Enum => "enum",
            ItemKind::Union => "union",
            ItemKind::Type => "type",
            ItemKind::Trait => "trait",
            ItemKind::Const => "const",
            ItemKind::Static => "static",
            ItemKind::Mod => "mod",
            ItemKind::Impl => "impl",
            ItemKind::Macro => "macro",
            ItemKind::Use => "use",
            ItemKind::ExternCrate => "extern crate",
            ItemKind::Other => "other",
        },
    )
}

/// One item of a parsed file, as the rules see it.
#[derive(Debug, Clone)]
pub struct SourceItem {
    /// The index of the item's node in the syntax tree.
    pub node: usize,
    pub kind: ItemKind,
    pub name: Option<String>,
    pub visibility: Option<VisibilityTier>,
    /// The text of each outer doc comment line, marker removed, in order.
    pub doc_comments: Vec<String>,
    /// Byte offset of the item itself, after its docs and attributes.
    pub start: usize,
    /// 1-based line of the item itself.
    pub start_line: usize,
    /// The declared return type's final path segment is `Result`.
    pub returns_result: bool,
    /// The final path segment of a `Result`'s error type argument.
    pub result_error_type: Option<String>,
    pub return_kind: ReturnKind,
    /// A function marked `#[test]`, `#[rstest]` or `#[test_case]`.
    pub is_test_fn: bool,
    /// A comment sits directly above the item's attribute block.
    pub has_summary_comment: bool,
}

impl SourceItem {
    /// The 1-based line of the item itself.
    pub fn start_line(&self) -> (r: usize)
        ensures
            r == self.start_line,
    {
        self.start_line
    }

    /// The item's kind.
    pub fn kind(&self) -> (r: ItemKind)
        ensures
            r == self.kind,
    {
        self.kind
    }

    /// The item's name, if the tree names it.
    pub fn name(&self) -> (r: Option<&str>)
        ensures
            r matches Some(n) ==> self.name matches Some(m) && n@ == m@,
            r is None ==> self.name is None,
    {
        match &self.name {
            Some(n) => Some(n.as_str()),
            None => None,
        }
    }

    /// The item's outer doc comment lines.
    pub fn doc_comments(&self) -> (r: &Vec<String>)
        ensures
            r == &self.doc_comments,
    {
        &self.doc_comments
    }
}

/// The item kind a node kind stands for, if it is a top-level item.
pub open spec fn item_kind_spec(k: Seq<char>) -> Option<ItemKind> {
    if k == "function_item"@ || k == "function_signature_item"@ {
        Some(ItemKind::Fn)
    } else if k == "struct_item"@ {
        Some(ItemKind::Struct)
    } else if k == "enum_item"@ {
        Some(ItemKind::Enum)
    } else if k == "union_item"@ {
        Some(ItemKind::Union)
    } else if k == "type_item"@ {
        Some(ItemKind::Type)
    } else if k == "trait_item"@ {
        Some(ItemKind::Trait)
    } else if k == "const_item"@ {
        Some(ItemKind::Const)
    } else if k == "static_item"@ {
        Some(ItemKind::Static)
    } else if k == "mod_item"@ {
        Some(ItemKind::Mod)
    } else if k == "impl_item"@ {
        Some(ItemKind::Impl)
    } else if k == "macro_definition"@ || k == "macro_invocation"@ {
        Some(ItemKind::Macro)
    } else if k == "use_declaration"@ {
        Some(ItemKind::Use)
    } else if k == "extern_crate_declaration"@ {
        Some(ItemKind::ExternCrate)
    } else if k == "foreign_mod_item"@ {
        Some(ItemKind::Other)
    } else {
        None
    }
}

/// The item kind node `i` stands for, if it is an item.
pub fn item_kind_of(tree: &SyntaxTree, i: usize) -> (r: Option<ItemKind>)
    requires
        i < tree.nodes.len(),
    ensures
        r == item_kind_spec(tree.nodes[i as int].kind@),
{
    if tree.is_kind(i, "function_item") || tree.is_kind(i, "function_signature_item") {
        Some(ItemKind::Fn)
    } else if tree.is_kind(i, "struct_item") {
        Some(ItemKind::Struct)
    } else if tree.is_kind(i, "enum_item") {
        Some(ItemKind::Enum)
    } else if tree.is_kind(i, "union_item") {
        Some(ItemKind::Union)
    } else if tree.is_kind(i, "type_item") {
        Some(ItemKind::Type)
    } else if tree.is_kind(i, "trait_item") {
        Some(ItemKind::Trait)
    } else if tree.is_kind(i, "const_item") {
        Some(ItemKind::Const)
    } else if tree.is_kind(i, "static_item") {
        Some(ItemKind::Static)
    } else if tree.is_kind(i, "mod_item") {
        Some(ItemKind::Mod)
    } else if tree.is_kind(i, "impl_item") {
        Some(ItemKind::Impl)
    } else if tree.is_kind(i, "macro_definition") || tree.is_kind(i, "macro_invocation") {
        Some(ItemKind::Macro)
    } else if tree.is_kind(i, "use_declaration") {
        Some(ItemKind::Use)
    } else if tree.is_kind(i, "extern_crate_declaration") {
        Some(ItemKind::ExternCrate)
    } else if tree.is_kind(i, "foreign_mod_item") {
        Some(ItemKind::Other)
    } else {
        None
    }
}

/// Node `i` is a line or block comment.
pub open spec fn comment_kind(tree: SyntaxTree, i: int) -> bool {
    kind_is(tree, i, "line_comment"@) || kind_is(tree, i, "block_comment"@)
}

/// `s` begins with `p`.
pub open spec fn begins(s: Seq<char>, p: Seq<char>) -> bool {
    p.len() <= s.len() && s.take(p.len() as int) == p
}

/// How many leading and trailing characters of comment node `i`'s text
/// `t` frame its doc text: `///` lines and `/** */` blocks only.
pub open spec fn doc_frame(tree: SyntaxTree, i: int, t: Seq<char>) -> Option<(int, int)> {
    if kind_is(tree, i, "line_comment"@) && begins(t, "///"@) && !begins(t, "////"@) {
        Some((3, 0))
    } else if kind_is(tree, i, "block_comment"@) && begins(t, "/**"@) && !begins(t, "/***"@) && !begins(t, "/**/"@) {
        Some((3, 2))
    } else {
        None
    }
}

/// `end` moved back over line-break characters of `t`, not below `lo`.
pub open spec fn trim_breaks(t: Seq<char>, lo: int, end: int) -> int
    decreases end,
{
    if end > lo && end > 0 && (t[end - 1] == '\n' || t[end - 1] == '\r') {
        trim_breaks(t, lo, end - 1)
    } else {
        end
    }
}

/// The doc text of an outer doc comment node, without its frame and
/// trailing line breaks.
pub open spec fn outer_doc_spec(tree: SyntaxTree, src: Seq<u8>, i: int) -> Option<Seq<char>> {
    match text_of(tree, src, i) {
        None => None,
        Some(t) => match doc_frame(tree, i, t) {
            None => None,
            Some((skip, tail)) => if t.len() < skip + tail {
                None
            } else {
                Some(t.subrange(skip, trim_breaks(t, skip, t.len() - tail)))
            },
        },
    }
}

/// The last `::` segment of the path of attribute node `i`, when plain.
pub open spec fn attribute_word_spec(tree: SyntaxTree, src: Seq<u8>, i: usize) -> Option<Seq<char>> {
    match first_named(tree, i) {
        None => None,
        Some(attr) => match first_named(tree, attr) {
            None => None,
            Some(path) => if kind_is(tree, path as int, "identifier"@) {
                text_of(tree, src, path as int)
            } else if kind_is(tree, path as int, "scoped_identifier"@) {
                match field_child(tree, path as int, "name"@) {
                    Some(n) => text_of(tree, src, n),
                    None => None,
                }
            } else {
                None
            },
        },
    }
}

/// The number of line feeds in `s`.
pub open spec fn line_feeds(s: Seq<u8>) -> nat
    decreases s.len(),
{
    if s.len() == 0 {
        0
    } else {
        line_feeds(s.drop_last()) + if s.last() == 10 {
            1nat
        } else {
            0nat
        }
    }
}

/// `end` moved back over line-break bytes of `src`, not below `lo`.
pub open spec fn trim_break_bytes(src: Seq<u8>, lo: int, end: int) -> int
    decreases end,
{
    if end > lo && end > 0 && (src[end - 1] == 10 || src[end - 1] == 13) {
        trim_break_bytes(src, lo, end - 1)
    } else {
        end
    }
}

/// Comment node `c`, without its trailing line breaks, ends on the line
/// just above byte `at`: exactly one line feed lies between.
pub open spec fn directly_above_spec(tree: SyntaxTree, src: Seq<u8>, c: int, at: int) -> bool {
    let end = trim_break_bytes(src, tree.nodes[c].start as int, tree.nodes[c].end as int);
    end <= at && line_feeds(src.subrange(end, at)) == 1
}

/// The visibility the first `visibility_modifier` child of node `i` grants.
pub open spec fn visibility_spec(tree: SyntaxTree, src: Seq<u8>, i: usize) -> Option<VisibilityTier> {
    match first_of_kind(tree, named_children_spec(tree, i), "visibility_modifier"@) {
        None => None,
        Some(c) => Some(
            match text_of(tree, src, c as int) {
                Some(t) => if t == "pub"@ {
                    VisibilityTier::Pub
                } else if t == "pub(crate)"@ {
                    VisibilityTier::Crate
                } else {
                    VisibilityTier::Restricted
                },
                None => VisibilityTier::Restricted,
            },
        ),
    }
}

/// The final path segment type node `i` names.
pub open spec fn type_segment_spec(tree: SyntaxTree, src: Seq<u8>, i: usize) -> Option<Seq<char>>
    decreases tree.nodes.len() - i,
{
    if i >= tree.nodes.len() {
        None
    } else if kind_is(tree, i as int, "type_identifier"@) {
        text_of(tree, src, i as int)
    } else if kind_is(tree, i as int, "scoped_type_identifier"@) {
        match field_child(tree, i as int, "name"@) {
            Some(n) => text_of(tree, src, n),
            None => None,
        }
    } else if kind_is(tree, i as int, "generic_type"@) {
        match field_child(tree, i as int, "type"@) {
            Some(t) => if i < t < tree.nodes.len() {
                type_segment_spec(tree, src, t as usize)
            } else {
                None
            },
            None => None,
        }
    } else {
        None
    }
}

/// The named sibling before node `i`.
pub open spec fn back(tree: SyntaxTree, i: usize) -> Option<usize> {
    match prev_named(tree, i) {
        Some(b) => if b < i {
            Some(b)
        } else {
            None
        },
        None => None,
    }
}

/// The attribute path word marks a test.
pub open spec fn test_word(w: Option<Seq<char>>) -> bool {
    match w {
        Some(w) => w == "test"@ || w == "rstest"@ || w == "test_case"@,
        None => false,
    }
}

/// Walking back from `prev` over attributes and comments: the outer doc
/// lines met (nearest first), whether an attribute marks a test, and the
/// topmost attribute reached (`top` when none).
pub open spec fn leading_scan(tree: SyntaxTree, src: Seq<u8>, prev: Option<usize>, top: usize) -> (
    Seq<Seq<char>>,
    bool,
    usize,
)
    decreases match prev {
        Some(a) => a + 1,
        None => 0,
    },
{
    match prev {
        None => (Seq::empty(), false, top),
        Some(a) => if kind_is(tree, a as int, "attribute_item"@) {
            let marker = test_word(attribute_word_spec(tree, src, a));
            let rest = match back(tree, a) {
                Some(b) => leading_scan(tree, src, Some(b), a),
                None => leading_scan(tree, src, None, a),
            };
            (rest.0, rest.1 || marker, rest.2)
        } else if comment_kind(tree, a as int) {
            let here = match outer_doc_spec(tree, src, a as int) {
                Some(d) => seq![d],
                None => Seq::empty(),
            };
            let rest = match back(tree, a) {
                Some(b) => leading_scan(tree, src, Some(b), top),
                None => leading_scan(tree, src, None, top),
            };
            (here + rest.0, rest.1, rest.2)
        } else {
            (Seq::empty(), false, top)
        },
    }
}

/// What the lines in front of item node `i` say: its doc lines in source
/// order, a test marker, and a comment directly above its attributes.
pub open spec fn leading_spec(tree: SyntaxTree, src: Seq<u8>, i: usize) -> (Seq<Seq<char>>, bool, bool) {
    let scan = leading_scan(tree, src, back(tree, i), i);
    (crate::text::backwards(scan.0), scan.1, match prev_named(tree, scan.2) {
        Some(c) => comment_kind(tree, c as int) && directly_above_spec(
            tree,
            src,
            c as int,
            tree.nodes[scan.2 as int].start as int,
        ),
        None => false,
    })
}

/// The return facts of function node `i`: whether it returns a `Result`,
/// that `Result`'s error type segment, and the return kind.
pub open spec fn return_spec(tree: SyntaxTree, src: Seq<u8>, i: usize) -> (bool, Option<Seq<char>>, ReturnKind) {
    match field_child(tree, i as int, "return_type"@) {
        None => (false, None, ReturnKind::NoValue),
        Some(ty) => if kind_is(tree, ty, "unit_type"@) || kind_is(tree, ty, "never_type"@) {
            (false, None, ReturnKind::NoValue)
        } else if kind_is(tree, ty, "primitive_type"@) {
            (false, None, if text_of(tree, src, ty) == Some("bool"@) {
                ReturnKind::Bool
            } else {
                ReturnKind::Value
            })
        } else {
            let referent = if kind_is(tree, ty, "reference_type"@) {
                match field_child(tree, ty, "type"@) {
                    Some(t) => t,
                    None => ty,
                }
            } else {
                ty
            };
            if kind_is(tree, referent, "type_identifier"@) && text_of(tree, src, referent) == Some("Self"@) {
                (false, None, ReturnKind::SelfValue)
            } else if type_segment_spec(tree, src, ty as usize) != Some("Result"@) {
                (false, None, ReturnKind::Value)
            } else {
                let args = if kind_is(tree, ty, "generic_type"@) {
                    field_child(tree, ty, "type_arguments"@)
                } else {
                    None
                };
                match args {
                    None => (true, None, ReturnKind::Value),
                    Some(a) => {
                        let kids = named_children_spec(tree, a as usize);
                        let unit_ok = kids.len() > 0 && kind_is(tree, kids[0] as int, "unit_type"@);
                        let error = if kids.len() > 1 {
                            type_segment_spec(tree, src, kids[1])
                        } else {
                            None
                        };
                        (true, error, if unit_ok {
                            ReturnKind::ResultUnit
                        } else {
                            ReturnKind::Value
                        })
                    },
                }
            }
        }
    }
}

fn is_comment(tree: &SyntaxTree, i: usize) -> (r: bool)
    requires
        i < tree.nodes.len(),
    ensures
        r == comment_kind(*tree, i as int),
{
    tree.is_kind(i, "line_comment") || tree.is_kind(i, "block_comment")
}

/// The doc text of an outer doc comment node: the line after `///` or the
/// body between `/**` and `*/`, without its line break. `None` for any
/// other comment.
fn outer_doc_text(tree: &SyntaxTree, src: &[u8], i: usize) -> (r: Option<String>)
    requires
        tree_ok(tree, src),
        i < tree.nodes.len(),
    ensures
        opt_view(r) == outer_doc_spec(*tree, src@, i as int),
{
    let text = match node_text(tree, src, i) {
        Some(t) => t,
        None => return None,
    };
    let t = text.as_str();
    let (skip, tail) = if tree.is_kind(i, "line_comment") && str_starts_with(t, "///") && !str_starts_with(
        t,
        "////",
    ) {
        (3usize, 0usize)
    } else if tree.is_kind(i, "block_comment") && str_starts_with(t, "/**") && !str_starts_with(t, "/***")
        && !str_starts_with(t, "/**/") {
        (3usize, 2usize)
    } else {
        return None;
    };
    assert(doc_frame(*tree, i as int, t@) == Some((skip as int, tail as int)));
    let chars = chars_of(t);
    if chars.len() < skip + tail {
        return None;
    }
    let mut end = chars.len() - tail;
    while end > skip && (chars[end - 1] == '\n' || chars[end - 1] == '\r')
        invariant
            skip <= end <= chars.len(),
            chars@ == t@,
            trim_breaks(t@, skip as int, chars.len() - tail) == trim_breaks(t@, skip as int, end as int),
        decreases end,
    {
        end -= 1;
    }
    let mut out = String::new();
    let mut k = skip;
    while k < end
        invariant
            skip <= k <= end <= chars.len(),
            out@ == chars@.subrange(skip as int, k as int),
        decreases end - k,
    {
        push_char(&mut out, chars[k]);
        assert(chars@.subrange(skip as int, k + 1) =~= chars@.subrange(skip as int, k as int).push(chars@[k as int]));
        k += 1;
    }
    Some(out)
}

/// The last `::` segment of an attribute's path, when it is plain.
fn attribute_word(tree: &SyntaxTree, src: &[u8], i: usize) -> (r: Option<String>)
    requires
        tree_ok(tree, src),
        i < tree.nodes.len(),
    ensures
        opt_view(r) == attribute_word_spec(*tree, src@, i),
{
    let attr = match tree.named_child(i, 0) {
        Some(a) => a,
        None => return None,
    };
    let path = match tree.named_child(attr, 0) {
        Some(p) => p,
        None => return None,
    };
    if tree.is_kind(path, "identifier") {
        node_text(tree, src, path)
    } else if tree.is_kind(path, "scoped_identifier") {
        match tree.child_by_field(path, "name") {
            Some(n) => node_text(tree, src, n),
            None => None,
        }
    } else {
        None
    }
}

/// The bytes between `from` and `to` hold exactly one line break.
fn one_line_break(src: &[u8], from: usize, to: usize) -> (r: bool)
    requires
        to <= src.len(),
    ensures
        r == (from <= to && line_feeds(src@.subrange(from as int, to as int)) == 1),
{
    let mut breaks: usize = 0;
    let mut p = from;
    if from > to {
        return false;
    }
    assert(src@.subrange(from as int, from as int) =~= Seq::<u8>::empty());
    while p < to
        invariant
            to <= src.len(),
            from <= p <= to,
            breaks <= p,
            breaks == line_feeds(src@.subrange(from as int, p as int)),
        decreases to - p,
    {
        assert(src@.subrange(from as int, p + 1).drop_last() =~= src@.subrange(from as int, p as int));
        if src[p] == 10 {
            breaks += 1;
        }
        p += 1;
    }
    breaks == 1
}

/// The comment node `c` ends on the line just above the byte `at`.
fn directly_above(tree: &SyntaxTree, src: &[u8], c: usize, at: usize) -> (r: bool)
    requires
        tree_ok(tree, src),
        c < tree.nodes.len(),
        at <= src.len(),
    ensures
        r == directly_above_spec(*tree, src@, c as int, at as int),
{
    let start = tree.nodes[c].start;
    let mut end = tree.nodes[c].end;
    while end > start && (src[end - 1] == 10 || src[end - 1] == 13)
        invariant
            tree_ok(tree, src),
            c < tree.nodes.len(),
            start == tree.nodes[c as int].start,
            start <= end <= src.len(),
            trim_break_bytes(src@, start as int, tree.nodes[c as int].end as int) == trim_break_bytes(
                src@,
                start as int,
                end as int,
            ),
        decreases end,
    {
        end -= 1;
    }
    end <= at && one_line_break(src, end, at)
}

/// What the comments and attributes in front of item node `i` say: its
/// outer doc lines, whether a test marker is among its attributes, and
/// whether a comment sits directly above the attribute block.
fn leading_facts(tree: &SyntaxTree, src: &[u8], i: usize) -> (r: (Vec<String>, bool, bool))
    requires
        tree_ok(tree, src),
        i < tree.nodes.len(),
    ensures
        (crate::text::views(r.0@), r.1, r.2) == leading_spec(*tree, src@, i),
{
    let mut docs_rev: Vec<String> = Vec::new();
    let mut test_marker = false;
    let mut top = i;
    let mut previous = tree.prev_named_sibling(i);
    let ghost whole = leading_scan(*tree, src@, back(*tree, i), i);
    assert(previous == back(*tree, i));
    assert(crate::text::views(docs_rev@) + whole.0 =~= whole.0);
    loop
        invariant
            tree_ok(tree, src),
            top < tree.nodes.len(),
            previous matches Some(a) ==> a < tree.nodes.len(),
            whole.0 == crate::text::views(docs_rev@) + leading_scan(*tree, src@, previous, top).0,
            whole.1 == (test_marker || leading_scan(*tree, src@, previous, top).1),
            whole.2 == leading_scan(*tree, src@, previous, top).2,
        ensures
            whole.0 == crate::text::views(docs_rev@),
            whole.1 == test_marker,
            whole.2 == top,
            top < tree.nodes.len(),
        decreases match previous {
            Some(a) => a + 1,
            None => 0,
        },
    {
        let a = match previous {
            Some(a) => a,
            None => {
                assert(crate::text::views(docs_rev@) + Seq::empty() =~= crate::text::views(docs_rev@));
                break;
            },
        };
        let next = tree.prev_named_sibling(a);
        assert(next == back(*tree, a));
        if tree.is_kind(a, "attribute_item") {
            top = a;
            if let Some(word) = attribute_word(tree, src, a) {
                let w = word.as_str();
                if str_eq(w, "test") || str_eq(w, "rstest") || str_eq(w, "test_case") {
                    test_marker = true;
                }
            }
        } else if is_comment(tree, a) {
            let ghost before = crate::text::views(docs_rev@);
            let ghost rest = leading_scan(*tree, src@, next, top).0;
            if let Some(doc) = outer_doc_text(tree, src, a) {
                docs_rev.push(doc);
                assert(crate::text::views(docs_rev@) =~= before + seq![doc@]);
                assert(crate::text::views(docs_rev@) + rest =~= before + (seq![doc@] + rest));
            } else {
                assert(before + (Seq::empty() + rest) =~= before + rest);
            }
        } else {
            assert(crate::text::views(docs_rev@) + Seq::empty() =~= crate::text::views(docs_rev@));
            break;
        }
        previous = next;
    }
    let docs = crate::text::reversed(docs_rev);
    assert(crate::text::views(docs@) =~= crate::text::backwards(crate::text::views(docs_rev@)));
    let summary = match tree.prev_named_sibling(top) {
        Some(c) => is_comment(tree, c) && directly_above(tree, src, c, tree.nodes[top].start),
        None => false,
    };
    (docs, test_marker, summary)
}

/// The visibility a `visibility_modifier` child of node `i` grants.
fn visibility_of(tree: &SyntaxTree, src: &[u8], i: usize) -> (r: Option<VisibilityTier>)
    requires
        tree_ok(tree, src),
        i < tree.nodes.len(),
    ensures
        r == visibility_spec(*tree, src@, i),
{
    let kids = tree.named_children(i);
    let mut k: usize = 0;
    assert(kids@.skip(0) =~= kids@);
    while k < kids.len()
        invariant
            tree_ok(tree, src),
            k <= kids.len(),
            kids@ == named_children_spec(*tree, i),
            forall|j: int| #![trigger kids@[j]] 0 <= j < kids.len() ==> i < kids@[j] < tree.nodes.len(),
            first_of_kind(*tree, kids@, "visibility_modifier"@) == first_of_kind(
                *tree,
                kids@.skip(k as int),
                "visibility_modifier"@,
            ),
        decreases kids.len() - k,
    {
        let c = kids[k];
        assert(kids@.skip(k as int)[0] == c);
        assert(kids@.skip(k as int).drop_first() =~= kids@.skip(k + 1));
        if tree.is_kind(c, "visibility_modifier") {
            return match node_text(tree, src, c) {
                Some(t) => {
                    if str_eq(t.as_str(), "pub") {
                        Some(VisibilityTier::Pub)
                    } else if str_eq(t.as_str(), "pub(crate)") {
                        Some(VisibilityTier::Crate)
                    } else {
                        Some(VisibilityTier::Restricted)
                    }
                },
                None => Some(VisibilityTier::Restricted),
            };
        }
        k += 1;
    }
    None
}

/// The final path segment a type node names: a type identifier, the name
/// of a scoped type, or the base of a generic type.
fn type_segment(tree: &SyntaxTree, src: &[u8], i: usize) -> (r: Option<String>)
    requires
        tree_ok(tree, src),
        i < tree.nodes.len(),
    ensures
        opt_view(r) == type_segment_spec(*tree, src@, i),
{
    let mut current = i;
    loop
        invariant
            tree_ok(tree, src),
            current < tree.nodes.len(),
            type_segment_spec(*tree, src@, i) == type_segment_spec(*tree, src@, current),
        decreases tree.nodes.len() - current,
    {
        if tree.is_kind(current, "type_identifier") {
            return node_text(tree, src, current);
        } else if tree.is_kind(current, "scoped_type_identifier") {
            return match tree.child_by_field(current, "name") {
                Some(n) => node_text(tree, src, n),
                None => None,
            };
        } else if tree.is_kind(current, "generic_type") {
            match tree.child_by_field(current, "type") {
                Some(t) => current = t,
                None => return None,
            }
        } else {
            return None;
        }
    }
}

/// The return facts of function node `i`: whether it returns a `Result`,
/// that `Result`'s error type segment, and the return kind.
fn return_facts(tree: &SyntaxTree, src: &[u8], i: usize) -> (r: (bool, Option<String>, ReturnKind))
    requires
        tree_ok(tree, src),
        i < tree.nodes.len(),
    ensures
        (r.0, opt_view(r.1), r.2) == return_spec(*tree, src@, i),
{
    let ty = match tree.child_by_field(i, "return_type") {
        Some(t) => t,
        None => return (false, None, ReturnKind::NoValue),
    };
    if tree.is_kind(ty, "unit_type") || tree.is_kind(ty, "never_type") {
        return (false, None, ReturnKind::NoValue);
    }
    if tree.is_kind(ty, "primitive_type") {
        let is_bool = match node_text(tree, src, ty) {
            Some(t) => str_eq(t.as_str(), "bool"),
            None => false,
        };
        return (false, None, if is_bool {
            ReturnKind::Bool
        } else {
            ReturnKind::Value
        });
    }
    let referent = if tree.is_kind(ty, "reference_type") {
        match tree.child_by_field(ty, "type") {
            Some(t) => t,
            None => ty,
        }
    } else {
        ty
    };
    if tree.is_kind(referent, "type_identifier") {
        if let Some(t) = node_text(tree, src, referent) {
            if str_eq(t.as_str(), "Self") {
                return (false, None, ReturnKind::SelfValue);
            }
        }
    }
    let base = type_segment(tree, src, ty);
    let is_result = match &base {
        Some(b) => str_eq(b.as_str(), "Result"),
        None => false,
    };
    if !is_result {
        return (false, None, ReturnKind::Value);
    }
    let args = if tree.is_kind(ty, "generic_type") {
        tree.child_by_field(ty, "type_arguments")
    } else {
        None
    };
    match args {
        None => (true, None, ReturnKind::Value),
        Some(a) => {
            let unit_ok = match tree.named_child(a, 0) {
                Some(first) => tree.is_kind(first, "unit_type"),
                None => false,
            };
            let error = match tree.named_child(a, 1) {
                Some(e) => type_segment(tree, src, e),
                None => None,
            };
            (true, error, if unit_ok {
                ReturnKind::ResultUnit
            } else {
                ReturnKind::Value
            })
        },
    }
}

/// `item` is the record of item node `i` of kind `kind`: its name, its
/// visibility, what its leading lines say, and, for a function, its
/// return facts.
pub open spec fn item_spec(tree: SyntaxTree, src: Seq<u8>, i: usize, kind: ItemKind, item: SourceItem) -> bool {
    let lead = leading_spec(tree, src, i);
    &&& item.node == i
    &&& item.kind == kind
    &&& item.start == tree.nodes[i as int].start
    &&& item.start_line == tree.nodes[i as int].row + 1
    &&& opt_view(item.name) == match field_child(tree, i as int, "name"@) {
        Some(n) => text_of(tree, src, n),
        None => None,
    }
    &&& item.visibility == visibility_spec(tree, src, i)
    &&& crate::text::views(item.doc_comments@) == lead.0
    &&& item.is_test_fn == (kind == ItemKind::Fn && lead.1)
    &&& item.has_summary_comment == lead.2
    &&& (item.returns_result, opt_view(item.result_error_type), item.return_kind) == if kind == ItemKind::Fn {
        return_spec(tree, src, i)
    } else {
        (false, None, ReturnKind::NoValue)
    }
}

/// The item nodes among `kids`, in order.
pub open spec fn item_nodes(tree: SyntaxTree, kids: Seq<usize>) -> Seq<usize>
    decreases kids.len(),
{
    if kids.len() == 0 {
        Seq::empty()
    } else {
        let rest = item_nodes(tree, kids.drop_last());
        if item_kind_spec(tree.nodes[kids.last() as int].kind@) is Some {
            rest.push(kids.last())
        } else {
            rest
        }
    }
}

/// The item record for item node `i` of kind `kind`.
fn item_at(tree: &SyntaxTree, src: &[u8], i: usize, kind: ItemKind) -> (r: SourceItem)
    requires
        tree_ok(tree, src),
        i < tree.nodes.len(),
    ensures
        r.node == i,
        r.kind == kind,
        r.start == tree.nodes[i as int].start,
        r.start_line == tree.nodes[i as int].row + 1,
        item_spec(*tree, src@, i, kind, r),
{
    let name = match tree.child_by_field(i, "name") {
        Some(n) => node_text(tree, src, n),
        None => None,
    };
    let (doc_comments, test_marker, has_summary_comment) = leading_facts(tree, src, i);
    let (returns_result, result_error_type, return_kind) = if kind == ItemKind::Fn {
        return_facts(tree, src, i)
    } else {
        (false, None, ReturnKind::NoValue)
    };
    SourceItem {
        node: i,
        kind,
        name,
        visibility: visibility_of(tree, src, i),
        doc_comments,
        start: tree.nodes[i].start,
        start_line: tree.nodes[i].row + 1,
        returns_result,
        result_error_type,
        return_kind,
        is_test_fn: kind == ItemKind::Fn && test_marker,
        has_summary_comment,
    }
}

/// `item` records the top-level item node `i`: its kind, start and line
/// come from the node.
pub open spec fn records_item(tree: SyntaxTree, i: int, item: SourceItem) -> bool {
    &&& item.node == i
    &&& 0 < i < tree.nodes.len()
    &&& item_kind_spec(tree.nodes[i].kind@) == Some(item.kind)
    &&& item.start == tree.nodes[i].start
    &&& item.start_line == tree.nodes[i].row + 1
}

/// The top-level items of a parsed file, in source order.
///
/// # Returns
///
/// One record per item node directly under the file root.
pub fn source_items(tree: &SyntaxTree, src: &[u8]) -> (r: Vec<SourceItem>)
    requires
        tree.wf(),
        tree.source_len == src@.len(),
    ensures
        forall|k: int| #![trigger r@[k]] 0 <= k < r.len() ==> records_item(*tree, r@[k].node as int, r@[k]),
        r.len() == item_nodes(*tree, named_children_spec(*tree, 0)).len(),
        forall|k: int|
            #![trigger r@[k]]
            0 <= k < r.len() ==> r@[k].node == item_nodes(*tree, named_children_spec(*tree, 0))[k] && item_spec(
                *tree,
                src@,
                r@[k].node,
                r@[k].kind,
                r@[k],
            ),
{
    let mut out: Vec<SourceItem> = Vec::new();
    let kids = tree.named_children(0);
    let mut k: usize = 0;
    assert(kids@.take(0) =~= Seq::<usize>::empty());
    while k < kids.len()
        invariant
            tree_ok(tree, src),
            k <= kids.len(),
            forall|j: int| #![trigger kids@[j]] 0 <= j < kids.len() ==> 0 < kids@[j] < tree.nodes.len(),
            forall|j: int| #![trigger out@[j]] 0 <= j < out.len() ==> records_item(*tree, out@[j].node as int, out@[j]),
            out.len() == item_nodes(*tree, kids@.take(k as int)).len(),
            forall|j: int|
                #![trigger out@[j]]
                0 <= j < out.len() ==> out@[j].node == item_nodes(*tree, kids@.take(k as int))[j] && item_spec(
                    *tree,
                    src@,
                    out@[j].node,
                    out@[j].kind,
                    out@[j],
                ),
        decreases kids.len() - k,
    {
        let c = kids[k];
        assert(kids@.take(k + 1).drop_last() =~= kids@.take(k as int));
        assert(kids@.take(k + 1).last() == c);
        if let Some(kind) = item_kind_of(tree, c) {
            out.push(item_at(tree, src, c, kind));
        }
        k += 1;
    }
    assert(kids@.take(k as int) =~= kids@);
    out
}

/// `item` is an enum named `s`.
pub open spec fn enum_named(item: SourceItem, s: Seq<char>) -> bool {
    item.kind == ItemKind::Enum && (item.name matches Some(n) && n@ == s)
}

/// The names of the named enums among `items`, in order.
pub open spec fn enum_names(items: Seq<SourceItem>) -> Seq<Seq<char>>
    decreases items.len(),
{
    if items.len() == 0 {
        Seq::empty()
    } else {
        let rest = enum_names(items.drop_last());
        let it = items.last();
        if it.kind == ItemKind::Enum && it.name is Some {
            rest.push(it.name.unwrap()@)
        } else {
            rest
        }
    }
}

/// `s` never decreases under the string order.
pub open spec fn sorted_strs(s: Seq<Seq<char>>) -> bool {
    forall|i: int, j: int| 0 <= i < j < s.len() ==> !str_lt(#[trigger] s[j], #[trigger] s[i])
}

/// Insert `n` into the sorted list `out`, after every name it does not
/// sort before.
fn insert_name(out: &mut Vec<String>, n: String)
    requires
        sorted_strs(views(old(out)@)),
    ensures
        sorted_strs(views(final(out)@)),
        views(final(out)@).to_multiset() == views(old(out)@).to_multiset().insert(n@),
{
    let ghost o = views(out@);
    let mut p: usize = 0;
    while p < out.len() && !str_less(n.as_str(), out[p].as_str())
        invariant
            p <= out.len(),
            views(out@) == o,
            forall|j: int| 0 <= j < p ==> !str_lt(n@, #[trigger] o[j]),
        decreases out.len() - p,
    {
        p += 1;
    }
    let ghost nv = n@;
    out.insert(p, n);
    proof {
        assert(views(out@) =~= o.insert(p as int, nv));
        broadcast use vstd::seq_lib::to_multiset_insert;
        assert(o.insert(p as int, nv).to_multiset() =~= o.to_multiset().insert(nv));
        let w = views(out@);
        assert forall|i: int, j: int| 0 <= i < j < w.len() implies !str_lt(#[trigger] w[j], #[trigger] w[i]) by {
            if j < p {
                assert(w[i] == o[i] && w[j] == o[j]);
            } else if j == p {
                assert(w[j] == nv);
                assert(w[i] == o[i]);
                lemma_str_total(nv, o[i]);
            } else if i == p {
                assert(w[i] == nv && w[j] == o[j - 1]);
                assert(str_lt(nv, o[p as int]));
                if p < j - 1 {
                    assert(!str_lt(o[j - 1], o[p as int]));
                    lemma_str_total(o[j - 1], o[p as int]);
                    if str_lt(o[j - 1], nv) {
                        if o[j - 1] == o[p as int] {
                            lemma_str_total(nv, o[p as int]);
                        } else {
                            lemma_str_transitive(o[p as int], o[j - 1], nv);
                            lemma_str_total(nv, o[p as int]);
                        }
                    }
                } else {
                    lemma_str_total(nv, o[j - 1]);
                }
            } else if i < p {
                assert(w[i] == o[i] && w[j] == o[j - 1]);
            } else {
                assert(w[i] == o[i - 1] && w[j] == o[j - 1]);
            }
        }
    }
}

/// The names of the file's top-level enums, sorted under the string order
/// so that membership can be searched by halves.
pub fn top_level_enum_names(items: &Vec<SourceItem>) -> (r: Vec<String>)
    ensures
        forall|s: Seq<char>|
            crate::text::views(r@).contains(s) <==> exists|k: int| 0 <= k < items.len() && enum_named(#[trigger] items@[k], s),
        sorted_strs(crate::text::views(r@)),
        crate::text::views(r@).to_multiset() == enum_names(items@).to_multiset(),
{
    let mut out: Vec<String> = Vec::new();
    let mut k: usize = 0;
    proof {
        assert(views(out@) =~= Seq::<Seq<char>>::empty());
        assert(items@.take(0) =~= Seq::<SourceItem>::empty());
        assert(enum_names(items@.take(0)) =~= Seq::<Seq<char>>::empty());
    }
    while k < items.len()
        invariant
            k <= items.len(),
            sorted_strs(views(out@)),
            views(out@).to_multiset() == enum_names(items@.take(k as int)).to_multiset(),
        decreases items.len() - k,
    {
        proof {
            assert(items@.take(k + 1).drop_last() =~= items@.take(k as int));
            assert(items@.take(k + 1).last() == items@[k as int]);
        }
        if items[k].kind == ItemKind::Enum {
            if let Some(n) = &items[k].name {
                let c = crate::text::copy_string(n);
                insert_name(&mut out, c);
                proof {
                    broadcast use vstd::seq_lib::to_multiset_build;
                    assert(enum_names(items@.take(k + 1)) == enum_names(items@.take(k as int)).push(n@));
                }
            }
        }
        k += 1;
    }
    proof {
        assert(items@.take(k as int) =~= items@);
        broadcast use vstd::seq_lib::to_multiset_contains;
        assert forall|s: Seq<char>|
            views(out@).contains(s) <==> exists|j: int| 0 <= j < items.len() && enum_named(#[trigger] items@[j], s) by {
            lemma_enum_names_contains(items@, s);
            assert(views(out@).contains(s) <==> views(out@).to_multiset().contains(s));
            assert(enum_names(items@).contains(s) <==> enum_names(items@).to_multiset().contains(s));
        }
    }
    out
}

/// A name is among the enum names exactly when some item is an enum of
/// that name.
proof fn lemma_enum_names_contains(items: Seq<SourceItem>, s: Seq<char>)
    ensures
        enum_names(items).contains(s) <==> exists|k: int| 0 <= k < items.len() && enum_named(#[trigger] items[k], s),
    decreases items.len(),
{
    if items.len() > 0 {
        let pre = items.drop_last();
        lemma_enum_names_contains(pre, s);
        let rest = enum_names(pre);
        let it = items.last();
        if exists|k: int| 0 <= k < items.len() && enum_named(#[trigger] items[k], s) {
            let k = choose|k: int| 0 <= k < items.len() && enum_named(#[trigger] items[k], s);
            if k < items.len() - 1 {
                assert(enum_named(pre[k], s));
                let idx = choose|idx: int| 0 <= idx < rest.len() && rest[idx] == s;
                if it.kind == ItemKind::Enum && it.name is Some {
                    assert(rest.push(it.name.unwrap()@)[idx] == s);
                }
            } else {
                assert(rest.push(it.name.unwrap()@)[rest.len() as int] == s);
            }
        }
        if enum_names(items).contains(s) {
            let idx = choose|idx: int| 0 <= idx < enum_names(items).len() && enum_names(items)[idx] == s;
            if idx < rest.len() {
                assert(rest[idx] == s);
                let k = choose|k: int| 0 <= k < pre.len() && enum_named(#[trigger] pre[k], s);
                assert(enum_named(items[k], s));
            } else {
                assert(enum_named(items[items.len() - 1], s));
            }
        }
    }
}

} // verus!
