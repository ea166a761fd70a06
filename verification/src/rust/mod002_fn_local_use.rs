//! `MOD002`: keep imports at module scope so dependencies are easy to
//! find.
//!
//! The rule fires on every `use` declaration lexically inside a function
//! (nested blocks, closures and inner functions included). A `use` is
//! exempt only when the `use` item itself carries a `#[cfg(..)]`
//! attribute; an enclosing `#[cfg]`, or `#[cfg_attr]`, never exempts it.
use crate::codes::CODE_MOD002;
use crate::diagnostic::{Diagnostic, Severity};
use crate::syntax::{
    field_child, named_children_spec, node_text, prev_named, span_text, tree_ok, SyntaxTree,
};
use crate::text::{owned, str_eq};
use vstd::prelude::*;

verus! {

/// Some ancestor of node `i` is a function item.
pub open spec fn has_fn_ancestor(tree: SyntaxTree, i: int) -> bool
    decreases i,
{
    if i < 0 || i >= tree.nodes.len() {
        false
    } else {
        match tree.nodes[i].parent {
            None => false,
            Some(p) => if p >= i {
                false
            } else {
                tree.nodes[p as int].kind@ == "function_item"@ || has_fn_ancestor(tree, p as int)
            },
        }
    }
}

/// The first entry of `kids` whose node kind is `k`.
pub open spec fn first_of_kind(tree: SyntaxTree, kids: Seq<usize>, k: Seq<char>) -> Option<usize>
    decreases kids.len(),
{
    if kids.len() == 0 {
        None
    } else if kids[0] < tree.nodes.len() && tree.nodes[kids[0] as int].kind@ == k {
        Some(kids[0])
    } else {
        first_of_kind(tree, kids.drop_first(), k)
    }
}

/// Path node `d` of an attribute starts with the segment `cfg`: a plain
/// identifier `cfg`, or a scoped path whose `path` part reads `cfg`.
pub open spec fn path_is_cfg(tree: SyntaxTree, src: Seq<u8>, d: usize) -> bool {
    let first = match field_child(tree, d as int, "path"@) {
        Some(f) => f,
        None => d as int,
    };
    &&& (tree.nodes[d as int].kind@ == "identifier"@ || tree.nodes[d as int].kind@ == "scoped_identifier"@)
    &&& span_text(src, tree.nodes[first].start as int, tree.nodes[first].end as int) == Some("cfg"@)
}

/// Some path under the attribute node `a` starts with `cfg`.
pub open spec fn any_cfg_path(tree: SyntaxTree, src: Seq<u8>, a: usize) -> bool {
    exists|k: int|
        0 <= k < named_children_spec(tree, a).len() && path_is_cfg(
            tree,
            src,
            #[trigger] named_children_spec(tree, a)[k],
        )
}

/// The attribute item `j` is a `#[cfg(..)]`.
pub open spec fn attr_is_cfg(tree: SyntaxTree, src: Seq<u8>, j: usize) -> bool {
    match first_of_kind(tree, named_children_spec(tree, j), "attribute"@) {
        Some(a) => any_cfg_path(tree, src, a),
        None => false,
    }
}

/// The contiguous attribute items ending at `a`, walking back through
/// named siblings, include a `#[cfg(..)]`.
pub open spec fn cfg_guard_from(tree: SyntaxTree, src: Seq<u8>, a: Option<usize>) -> bool
    decreases (match a {
        Some(j) => j + 1,
        None => 0,
    }),
{
    match a {
        None => false,
        Some(j) => if j >= tree.nodes.len() || tree.nodes[j as int].kind@ != "attribute_item"@ {
            false
        } else if attr_is_cfg(tree, src, j) {
            true
        } else {
            match prev_named(tree, j) {
                Some(s) => if s < j {
                    cfg_guard_from(tree, src, Some(s))
                } else {
                    false
                },
                None => false,
            }
        },
    }
}

/// Node `i` is a function-local `use` without its own `#[cfg]`.
pub open spec fn flagged(tree: SyntaxTree, src: Seq<u8>, i: int) -> bool {
    &&& tree.nodes[i].kind@ == "use_declaration"@
    &&& has_fn_ancestor(tree, i)
    &&& !cfg_guard_from(tree, src, prev_named(tree, i as usize))
}

/// The flagged nodes among `0..n`, in document order.
pub open spec fn flagged_upto(tree: SyntaxTree, src: Seq<u8>, n: int) -> Seq<int>
    decreases n,
{
    if n <= 0 {
        Seq::empty()
    } else if flagged(tree, src, n - 1) {
        flagged_upto(tree, src, n - 1).push(n - 1)
    } else {
        flagged_upto(tree, src, n - 1)
    }
}

/// The MOD002 message.
pub open spec fn local_use_message() -> Seq<char> {
    "function-local `use` lacks its own `#[cfg]`.\n- Hoist it to module scope so dependencies are easy to find.\n- Keep it local only if it needs conditional compilation, with `#[cfg]` on the `use`."@
}

/// `d` is the finding for the local `use` node `i`.
pub open spec fn finding_for(d: Diagnostic, tree: SyntaxTree, i: int) -> bool {
    &&& d.code@ == CODE_MOD002@
    &&& d.severity == Severity::Error
    &&& d.title is None
    &&& d.message@ == local_use_message()
    &&& d.line == tree.nodes[i].row + 1
    &&& d.item_kind@ == "use"@
    &&& d.item_name is None
}

fn in_function(tree: &SyntaxTree, i: usize) -> (r: bool)
    requires
        tree.wf(),
        i < tree.nodes.len(),
    ensures
        r == has_fn_ancestor(*tree, i as int),
{
    let mut current = i;
    loop
        invariant
            tree.wf(),
            current < tree.nodes.len(),
            has_fn_ancestor(*tree, i as int) == has_fn_ancestor(*tree, current as int),
        decreases current,
    {
        match tree.nodes[current].parent {
            None => return false,
            Some(p) => {
                if tree.is_kind(p, "function_item") {
                    return true;
                }
                current = p;
            },
        }
    }
}

fn first_attribute(tree: &SyntaxTree, kids: &Vec<usize>) -> (r: Option<usize>)
    ensures
        r == first_of_kind(*tree, kids@, "attribute"@),
        r matches Some(a) ==> a < tree.nodes.len(),
{
    let mut k: usize = 0;
    assert(kids@.skip(0) =~= kids@);
    while k < kids.len()
        invariant
            k <= kids.len(),
            first_of_kind(*tree, kids@, "attribute"@) == first_of_kind(*tree, kids@.skip(k as int), "attribute"@),
        decreases kids.len() - k,
    {
        let c = kids[k];
        assert(kids@.skip(k as int)[0] == c);
        if c < tree.nodes.len() && tree.is_kind(c, "attribute") {
            return Some(c);
        }
        assert(kids@.skip(k as int).drop_first() =~= kids@.skip(k + 1));
        k += 1;
    }
    None
}

fn path_cfg(tree: &SyntaxTree, src: &[u8], d: usize) -> (r: bool)
    requires
        tree_ok(tree, src),
        d < tree.nodes.len(),
    ensures
        r == path_is_cfg(*tree, src@, d),
{
    if !(tree.is_kind(d, "identifier") || tree.is_kind(d, "scoped_identifier")) {
        return false;
    }
    let first = match tree.child_by_field(d, "path") {
        Some(f) => f,
        None => d,
    };
    proof {
        reveal_strlit("cfg");
    }
    match node_text(tree, src, first) {
        Some(t) => {
            let r = str_eq(t.as_str(), "cfg");
            r
        },
        None => false,
    }
}

fn attribute_cfg(tree: &SyntaxTree, src: &[u8], j: usize) -> (r: bool)
    requires
        tree_ok(tree, src),
        j < tree.nodes.len(),
    ensures
        r == attr_is_cfg(*tree, src@, j),
{
    let kids = tree.named_children(j);
    let a = match first_attribute(tree, &kids) {
        Some(a) => a,
        None => return false,
    };
    let paths = tree.named_children(a);
    let mut k: usize = 0;
    while k < paths.len()
        invariant
            tree_ok(tree, src),
            a < tree.nodes.len(),
            j < tree.nodes.len(),
            first_of_kind(*tree, named_children_spec(*tree, j), "attribute"@) == Some(a),
            paths@ == named_children_spec(*tree, a),
            forall|m: int| #![trigger paths@[m]] 0 <= m < paths.len() ==> a < paths@[m] < tree.nodes.len(),
            k <= paths.len(),
            forall|m: int| 0 <= m < k ==> !path_is_cfg(*tree, src@, #[trigger] paths@[m]),
        decreases paths.len() - k,
    {
        if path_cfg(tree, src, paths[k]) {
            proof {
                let kk = k as int;
                assert(0 <= kk < named_children_spec(*tree, a).len());
                assert(path_is_cfg(*tree, src@, named_children_spec(*tree, a)[kk]));
                assert(any_cfg_path(*tree, src@, a));
            }
            return true;
        }
        k += 1;
    }
    false
}

fn cfg_guarded(tree: &SyntaxTree, src: &[u8], i: usize) -> (r: bool)
    requires
        tree_ok(tree, src),
        i < tree.nodes.len(),
    ensures
        r == cfg_guard_from(*tree, src@, prev_named(*tree, i)),
{
    let mut current = tree.prev_named_sibling(i);
    loop
        invariant
            tree_ok(tree, src),
            current matches Some(a) ==> a < tree.nodes.len(),
            cfg_guard_from(*tree, src@, prev_named(*tree, i)) == cfg_guard_from(*tree, src@, current),
        decreases match current {
            Some(a) => a + 1,
            None => 0,
        },
    {
        let a = match current {
            Some(a) => a,
            None => return false,
        };
        if !tree.is_kind(a, "attribute_item") {
            return false;
        }
        if attribute_cfg(tree, src, a) {
            return true;
        }
        current = tree.prev_named_sibling(a);
    }
}

/// Report every function-local `use` that lacks its own `#[cfg]`;
/// test functions get no exemption.
///
/// # Arguments
///
/// - `tree` - the parsed file.
/// - `src` - the file's bytes.
///
/// # Returns
///
/// One MOD002 error per flagged `use`, in document order.
pub fn check(tree: &SyntaxTree, src: &[u8]) -> (r: Vec<Diagnostic>)
    requires
        tree.wf(),
        tree.source_len == src@.len(),
    ensures
        r.len() == flagged_upto(*tree, src@, tree.nodes.len() as int).len(),
        forall|j: int|
            #![trigger r@[j]]
            0 <= j < r.len() ==> finding_for(r@[j], *tree, flagged_upto(*tree, src@, tree.nodes.len() as int)[j]),
{
    let n = tree.nodes.len();
    let mut out: Vec<Diagnostic> = Vec::new();
    let mut i: usize = 0;
    while i < n
        invariant
            tree_ok(tree, src),
            n == tree.nodes.len(),
            i <= n,
            out.len() == flagged_upto(*tree, src@, i as int).len(),
            forall|j: int|
                #![trigger out@[j]]
                0 <= j < out.len() ==> finding_for(out@[j], *tree, flagged_upto(*tree, src@, i as int)[j]),
        decreases n - i,
    {
        let ghost before = flagged_upto(*tree, src@, i as int);
        let hit = tree.is_kind(i, "use_declaration") && in_function(tree, i) && !cfg_guarded(tree, src, i);
        if hit {
            let d = Diagnostic {
                severity: Severity::Error,
                code: CODE_MOD002,
                title: None,
                message: owned(
                    "function-local `use` lacks its own `#[cfg]`.\n- Hoist it to module scope so dependencies are easy to find.\n- Keep it local only if it needs conditional compilation, with `#[cfg]` on the `use`.",
                ),
                line: tree.nodes[i].row + 1,
                item_kind: owned("use"),
                item_name: None,
            };
            out.push(d);
            proof {
                let after = flagged_upto(*tree, src@, i + 1);
                assert(after == before.push(i as int));
                assert forall|j: int| 0 <= j < out.len() implies finding_for(#[trigger] out@[j], *tree, after[j]) by {
                    if j < out.len() - 1 {
                        assert(after[j] == before[j]);
                    }
                }
            }
        }
        i += 1;
    }
    out
}

} // verus!
