//! tree-sitter parsing into the plain syntax-tree model.
//!
//! [`parse_rust`] and [`parse_csharp`] run the tree-sitter grammar over a
//! source and copy the resulting tree into a [`SyntaxTree`] with a verified
//! cursor walk. The tree-sitter calls sit behind small wrappers; they promise
//! nothing about the tree's shape, so the copy checks every link it builds.
use crate::syntax::{nodes_wf, SyntaxNode, SyntaxTree};
use vstd::prelude::*;
use vstd::string::StringSliceAdditionalSpecFns;

verus! {

#[verifier::external_type_specification]
#[verifier::external_body]
pub struct ExTsParser(tree_sitter::Parser);

#[verifier::external_type_specification]
#[verifier::external_body]
pub struct ExTsTree(tree_sitter::Tree);

#[verifier::external_type_specification]
#[verifier::external_body]
pub struct ExTsLanguage(tree_sitter::Language);

#[verifier::external_type_specification]
#[verifier::external_body]
pub struct ExTsNode<'a>(tree_sitter::Node<'a>);

#[verifier::external_type_specification]
#[verifier::external_body]
pub struct ExTsTreeCursor<'a>(tree_sitter::TreeCursor<'a>);

/// The Rust grammar: `tree_sitter_rust::LANGUAGE`, converted with
/// `Language::from`. Nothing is claimed of the value.
#[verifier::external_body]
fn rust_language() -> tree_sitter::Language {
    tree_sitter_rust::LANGUAGE.into()
}

/// The C# grammar: `tree_sitter_c_sharp::LANGUAGE`, converted with
/// `Language::from`. Nothing is claimed of the value.
#[verifier::external_body]
fn csharp_language() -> tree_sitter::Language {
    tree_sitter_c_sharp::LANGUAGE.into()
}

/// A fresh parser: `tree_sitter::Parser::new`. Nothing is claimed of it.
#[verifier::external_body]
fn new_parser() -> tree_sitter::Parser {
    tree_sitter::Parser::new()
}

/// `tree_sitter::Parser::set_language`; true when the grammar was accepted.
/// Nothing is claimed of when that happens.
#[verifier::external_body]
fn set_parser_language(parser: &mut tree_sitter::Parser, language: &tree_sitter::Language) -> bool {
    parser.set_language(language).is_ok()
}

/// `tree_sitter::Parser::parse` over the whole text, without an earlier
/// tree. Nothing is claimed of the tree it returns.
#[verifier::external_body]
fn parse_text(parser: &mut tree_sitter::Parser, text: &str) -> Option<tree_sitter::Tree> {
    parser.parse(text, None)
}

/// `tree_sitter::Tree::root_node`. Nothing is claimed of the node.
#[verifier::external_body]
fn tree_root<'t>(tree: &'t tree_sitter::Tree) -> tree_sitter::Node<'t> {
    tree.root_node()
}

/// `tree_sitter::Node::walk`: a cursor rooted at the node.
#[verifier::external_body]
fn node_cursor<'t>(node: &tree_sitter::Node<'t>) -> tree_sitter::TreeCursor<'t> {
    node.walk()
}

/// `tree_sitter::Node::descendant_count`: the node and all its descendants.
/// Nothing is claimed of the count; the walk below only uses it as a budget.
#[verifier::external_body]
fn node_descendant_count(node: &tree_sitter::Node) -> usize {
    node.descendant_count()
}

/// `tree_sitter::Node::kind`, copied into a `String`.
#[verifier::external_body]
fn node_kind(node: &tree_sitter::Node) -> String {
    node.kind().to_string()
}

/// `tree_sitter::Node::is_named`.
#[verifier::external_body]
fn node_is_named(node: &tree_sitter::Node) -> bool {
    node.is_named()
}

/// `tree_sitter::Node::is_error`.
#[verifier::external_body]
fn node_is_error(node: &tree_sitter::Node) -> bool {
    node.is_error()
}

/// `tree_sitter::Node::is_missing`.
#[verifier::external_body]
fn node_is_missing(node: &tree_sitter::Node) -> bool {
    node.is_missing()
}

/// `tree_sitter::Node::start_byte`.
#[verifier::external_body]
fn node_start_byte(node: &tree_sitter::Node) -> usize {
    node.start_byte()
}

/// `tree_sitter::Node::end_byte`.
#[verifier::external_body]
fn node_end_byte(node: &tree_sitter::Node) -> usize {
    node.end_byte()
}

/// `tree_sitter::Node::start_position`, its row.
#[verifier::external_body]
fn node_start_row(node: &tree_sitter::Node) -> usize {
    node.start_position().row
}

/// `tree_sitter::Node::end_position`, its row.
#[verifier::external_body]
fn node_end_row(node: &tree_sitter::Node) -> usize {
    node.end_position().row
}

/// `tree_sitter::Node::is_extra`.
#[verifier::external_body]
fn node_is_extra(node: &tree_sitter::Node) -> bool {
    node.is_extra()
}

/// `tree_sitter::TreeCursor::node`: the node under the cursor.
#[verifier::external_body]
fn cursor_node<'t>(cursor: &tree_sitter::TreeCursor<'t>) -> tree_sitter::Node<'t> {
    cursor.node()
}

/// `tree_sitter::TreeCursor::field_name`, copied into a `String`.
#[verifier::external_body]
fn cursor_field_name(cursor: &tree_sitter::TreeCursor) -> Option<String> {
    cursor.field_name().map(|name| name.to_string())
}

/// `tree_sitter::TreeCursor::goto_first_child`.
#[verifier::external_body]
fn cursor_first_child(cursor: &mut tree_sitter::TreeCursor) -> bool {
    cursor.goto_first_child()
}

/// `tree_sitter::TreeCursor::goto_next_sibling`.
#[verifier::external_body]
fn cursor_next_sibling(cursor: &mut tree_sitter::TreeCursor) -> bool {
    cursor.goto_next_sibling()
}

/// `tree_sitter::TreeCursor::goto_parent`.
#[verifier::external_body]
fn cursor_parent(cursor: &mut tree_sitter::TreeCursor) -> bool {
    cursor.goto_parent()
}

/// Record for the node under `cursor`, linked to `parent`.
fn record(cursor: &tree_sitter::TreeCursor, parent: Option<usize>) -> (r: SyntaxNode)
    ensures
        r.parent == parent,
{
    let node = cursor_node(cursor);
    SyntaxNode {
        kind: node_kind(&node),
        named: node_is_named(&node),
        field: cursor_field_name(cursor),
        start: node_start_byte(&node),
        end: node_end_byte(&node),
        row: node_start_row(&node),
        end_row: node_end_row(&node),
        error: node_is_error(&node) || node_is_missing(&node),
        extra: node_is_extra(&node),
        parent,
    }
}

/// Copy a tree-sitter tree into the plain model with one cursor walk.
///
/// Returns `None` when the walk outruns the tree's own descendant count or
/// a node's span falls outside `source_len`; the copy never trusts the
/// outside tree's shape.
fn copy_tree(tree: &tree_sitter::Tree, source_len: usize) -> (r: Option<SyntaxTree>)
    ensures
        r matches Some(t) ==> t.wf() && t.source_len == source_len,
{
    let root = tree_root(tree);
    let count = node_descendant_count(&root);
    if count > usize::MAX / 2 - 2 {
        return None;
    }
    let mut fuel: usize = count * 2 + 2;
    let mut cursor = node_cursor(&root);
    let first = record(&cursor, None);
    if !(first.start <= first.end && first.end <= source_len && first.row < usize::MAX && first.end_row < usize::MAX) {
        return None;
    }
    let mut nodes: Vec<SyntaxNode> = Vec::new();
    let mut ends: Vec<usize> = Vec::new();
    nodes.push(first);
    ends.push(1);
    // `path` holds the indices of the open ancestors of the cursor, root first.
    let mut path: Vec<usize> = Vec::new();
    path.push(0);
    let mut try_child = true;
    loop
        invariant
            nodes.len() > 0,
            nodes_wf(nodes@, ends@, source_len as int),
            path.len() > 0,
            forall|k: int| #![trigger path@[k]] 0 <= k < path.len() ==> path@[k] < nodes.len(),
        decreases fuel,
    {
        if fuel == 0 {
            return None;
        }
        fuel -= 1;
        let top = path[path.len() - 1];
        if try_child && cursor_first_child(&mut cursor) {
            let rec = record(&cursor, Some(top));
            if !(rec.start <= rec.end && rec.end <= source_len && rec.row < usize::MAX && rec.end_row < usize::MAX) {
                return None;
            }
            let idx = nodes.len();
            if idx >= usize::MAX - 1 {
                return None;
            }
            nodes.push(rec);
            ends.push(idx + 1);
            assert(nodes_wf(nodes@, ends@, source_len as int));
            path.push(idx);
            continue;
        }
        // Leaving `top`: its subtree ends at the current length.
        let len = nodes.len();
        ends.set(top, len);
        assert(nodes_wf(nodes@, ends@, source_len as int));
        if path.len() == 1 {
            break;
        }
        path.pop();
        let parent = path[path.len() - 1];
        if cursor_next_sibling(&mut cursor) {
            let rec = record(&cursor, Some(parent));
            if !(rec.start <= rec.end && rec.end <= source_len && rec.row < usize::MAX && rec.end_row < usize::MAX) {
                return None;
            }
            let idx = nodes.len();
            if idx >= usize::MAX - 1 {
                return None;
            }
            nodes.push(rec);
            ends.push(idx + 1);
            assert(nodes_wf(nodes@, ends@, source_len as int));
            path.push(idx);
            try_child = true;
        } else if cursor_parent(&mut cursor) {
            try_child = false;
        } else {
            return None;
        }
    }
    Some(SyntaxTree { nodes, ends, source_len })
}

/// Parse `source` with `language` and copy the tree into the plain model.
fn parse_with(language: tree_sitter::Language, source: &str) -> (r: Option<SyntaxTree>)
    ensures
        r matches Some(t) ==> t.wf() && t.source_len == source.spec_bytes().len(),
{
    let mut parser = new_parser();
    if !set_parser_language(&mut parser, &language) {
        return None;
    }
    match parse_text(&mut parser, source) {
        Some(tree) => copy_tree(&tree, source.as_bytes().len()),
        None => None,
    }
}

/// Parse Rust source into the plain syntax-tree model.
///
/// # Returns
///
/// `None` when the parser yields no tree or its tree does not copy soundly.
pub fn parse_rust(source: &str) -> (r: Option<SyntaxTree>)
    ensures
        r matches Some(t) ==> t.wf() && t.source_len == source.spec_bytes().len(),
{
    parse_with(rust_language(), source)
}

/// Parse C# source into the plain syntax-tree model.
///
/// # Returns
///
/// `None` when the parser yields no tree or its tree does not copy soundly.
pub fn parse_csharp(source: &str) -> (r: Option<SyntaxTree>)
    ensures
        r matches Some(t) ==> t.wf() && t.source_len == source.spec_bytes().len(),
{
    parse_with(csharp_language(), source)
}

} // verus!
