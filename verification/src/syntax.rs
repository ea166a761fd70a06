//! The plain syntax-tree model the rules read.
//!
//! A [`SyntaxTree`] stores its nodes in preorder: the root first, every
//! node before its descendants, and each node's children in source order.
//! A node holds its grammar kind, its field name under its parent, its byte
//! span and starting row, and links to its parent and children. Text is read
//! from the source bytes on demand with [`node_text`].
use crate::text::str_eq;
use vstd::prelude::*;
use vstd::utf8::*;

verus! {

/// One node of a parsed file.
#[derive(Debug, Clone)]
pub struct SyntaxNode {
    /// The grammar kind, such as `function_item`.
    pub kind: String,
    /// Named nodes stand for grammar rules; anonymous ones for tokens.
    pub named: bool,
    /// The field this node fills in its parent, such as `name`.
    pub field: Option<String>,
    /// First byte of the node's span.
    pub start: usize,
    /// One past the last byte of the node's span.
    pub end: usize,
    /// Zero-based row of the node's first byte.
    pub row: usize,
    /// Zero-based row of the node's end.
    pub end_row: usize,
    /// The parser inserted or could not place this node.
    pub error: bool,
    /// Extra material, such as a comment, that may stand anywhere.
    pub extra: bool,
    /// Index of the parent node; `None` only for the root.
    pub parent: Option<usize>,
}

/// A parsed file: its nodes in preorder, the root at index 0.
///
/// `ends[i]` is one past the last descendant of node `i`, so node `i`'s
/// subtree occupies indices `i..ends[i]`. Its first child is `i + 1` when
/// that index lies inside the subtree, and each child's next sibling starts
/// at the child's own `ends` entry.
#[derive(Debug, Clone)]
pub struct SyntaxTree {
    pub nodes: Vec<SyntaxNode>,
    pub ends: Vec<usize>,
    /// Length in bytes of the source the tree was parsed from.
    pub source_len: usize,
}

/// The characters a byte span decodes to, when the span is valid UTF-8.
pub open spec fn span_text(src: Seq<u8>, start: int, end: int) -> Option<Seq<char>> {
    let bytes = src.subrange(start, end);
    if valid_utf8(bytes) {
        Some(decode_utf8(bytes))
    } else {
        None
    }
}

/// Decode `src[start..end]` as UTF-8.
///
/// Calls `std::str::from_utf8` on the byte range; the contract claims it
/// succeeds exactly on valid UTF-8 and yields the decoded characters, as its
/// documentation states.
#[verifier::external_body]
pub(crate) fn utf8_span(src: &[u8], start: usize, end: usize) -> (r: Option<String>)
    requires
        start <= end <= src@.len(),
    ensures
        r is Some <==> span_text(src@, start as int, end as int) is Some,
        r matches Some(s) ==> Some(s@) == span_text(src@, start as int, end as int),
{
    std::str::from_utf8(&src[start..end]).ok().map(|s| s.to_string())
}

/// Structural soundness of a node list: parents precede their children,
/// subtree ends stay in range, and spans lie inside the source.
pub open spec fn nodes_wf(nodes: Seq<SyntaxNode>, ends: Seq<usize>, source_len: int) -> bool {
    &&& nodes.len() == ends.len()
    &&& forall|i: int|
        #![trigger nodes[i]]
        #![trigger ends[i]]
        0 <= i < nodes.len() ==> {
            &&& i < ends[i] <= nodes.len()
            &&& nodes[i].start <= nodes[i].end <= source_len
            &&& nodes[i].row < usize::MAX
            &&& nodes[i].end_row < usize::MAX
            &&& (i == 0 <==> nodes[i].parent is None)
            &&& (nodes[i].parent matches Some(p) ==> p < i)
        }
}

/// The first child of a node, from child `c` up to `stop`, that fills
/// field `f`; each child's next sibling starts at the child's `ends` entry.
pub open spec fn field_child_from(tree: SyntaxTree, c: int, stop: int, f: Seq<char>) -> Option<int>
    decreases stop - c,
{
    if c < 0 || c >= stop || c >= tree.nodes.len() || c >= tree.ends.len() {
        None
    } else if tree.nodes[c].field matches Some(name) && name@ == f {
        Some(c)
    } else if tree.ends[c] <= c || tree.ends[c] >= stop {
        None
    } else {
        field_child_from(tree, tree.ends[c] as int, stop, f)
    }
}

/// The first child of node `i` that fills field `f`.
pub open spec fn field_child(tree: SyntaxTree, i: int, f: Seq<char>) -> Option<int> {
    field_child_from(tree, i + 1, tree.ends[i] as int, f)
}

/// The children of a node, from child `c` up to `stop`, in source order.
pub open spec fn children_from(tree: SyntaxTree, c: usize, stop: usize) -> Seq<usize>
    decreases stop - c,
{
    if c >= stop || c >= tree.nodes.len() || c >= tree.ends.len() {
        Seq::empty()
    } else if tree.ends[c as int] <= c || tree.ends[c as int] >= stop {
        seq![c]
    } else {
        seq![c] + children_from(tree, tree.ends[c as int], stop)
    }
}

/// The named children of a node, from child `c` up to `stop`, in source
/// order.
pub open spec fn named_from(tree: SyntaxTree, c: usize, stop: usize) -> Seq<usize>
    decreases stop - c,
{
    if c >= stop || c >= tree.nodes.len() || c >= tree.ends.len() {
        Seq::empty()
    } else {
        let here = if tree.nodes[c as int].named {
            seq![c]
        } else {
            Seq::<usize>::empty()
        };
        if tree.ends[c as int] <= c || tree.ends[c as int] >= stop {
            here
        } else {
            here + named_from(tree, tree.ends[c as int], stop)
        }
    }
}

/// The children of node `i`, in source order.
pub open spec fn children_spec(tree: SyntaxTree, i: usize) -> Seq<usize> {
    children_from(tree, (i + 1) as usize, tree.ends[i as int])
}

/// The named children of node `i`, in source order.
pub open spec fn named_children_spec(tree: SyntaxTree, i: usize) -> Seq<usize> {
    named_from(tree, (i + 1) as usize, tree.ends[i as int])
}

/// The last entry of `kids` before the first one at or after `i`, or `best`.
pub open spec fn last_before(kids: Seq<usize>, i: usize, best: Option<usize>) -> Option<usize>
    decreases kids.len(),
{
    if kids.len() == 0 || kids[0] >= i {
        best
    } else {
        last_before(kids.drop_first(), i, Some(kids[0]))
    }
}

/// The named sibling just before node `i`: the last named child of its
/// parent that precedes it.
pub open spec fn prev_named(tree: SyntaxTree, i: usize) -> Option<usize> {
    match tree.nodes[i as int].parent {
        None => None,
        Some(p) => last_before(named_children_spec(tree, p), i, None),
    }
}

impl SyntaxTree {
    /// Structural well-formedness of the whole tree.
    pub open spec fn wf(&self) -> bool {
        &&& self.nodes.len() > 0
        &&& nodes_wf(self.nodes@, self.ends@, self.source_len as int)
    }

    /// True when node `i` has kind `k`.
    pub fn is_kind(&self, i: usize, k: &str) -> (r: bool)
        requires
            i < self.nodes.len(),
        ensures
            r == (self.nodes[i as int].kind@ == k@),
    {
        str_eq(self.nodes[i].kind.as_str(), k)
    }

    /// True when node `i` fills field `f` of its parent.
    pub fn has_field(&self, i: usize, f: &str) -> (r: bool)
        requires
            i < self.nodes.len(),
        ensures
            r == (self.nodes[i as int].field matches Some(name) && name@ == f@),
    {
        match &self.nodes[i].field {
            Some(name) => str_eq(name.as_str(), f),
            None => false,
        }
    }

    /// The children of node `i`, in source order.
    pub fn children(&self, i: usize) -> (r: Vec<usize>)
        requires
            self.wf(),
            i < self.nodes.len(),
        ensures
            forall|k: int| #![trigger r@[k]] 0 <= k < r.len() ==> i < r@[k] < self.nodes.len(),
            r@ == children_spec(*self, i),
    {
        let mut out: Vec<usize> = Vec::new();
        let mut c = i + 1;
        let stop = self.ends[i];
        while c < stop
            invariant
                self.wf(),
                i < self.nodes.len(),
                stop == self.ends[i as int],
                stop <= self.nodes.len(),
                i < c,
                forall|k: int| #![trigger out@[k]] 0 <= k < out.len() ==> i < out@[k] < self.nodes.len(),
                children_spec(*self, i) == out@ + children_from(*self, c, stop),
            decreases self.nodes.len() - c,
        {
            let ghost before = out@;
            out.push(c);
            let next = self.ends[c];
            proof {
                if next >= stop {
                    assert(children_from(*self, next, stop) =~= Seq::<usize>::empty());
                }
                assert(before + children_from(*self, c, stop) =~= out@ + children_from(*self, next, stop));
            }
            c = next;
        }
        assert(out@ + children_from(*self, c, stop) =~= out@);
        out
    }

    /// The named children of node `i`, in source order.
    pub fn named_children(&self, i: usize) -> (r: Vec<usize>)
        requires
            self.wf(),
            i < self.nodes.len(),
        ensures
            forall|k: int|
                #![trigger r@[k]]
                0 <= k < r.len() ==> i < r@[k] < self.nodes.len() && self.nodes[r@[k] as int].named,
            r@ == named_children_spec(*self, i),
    {
        let mut out: Vec<usize> = Vec::new();
        let mut c = i + 1;
        let stop = self.ends[i];
        while c < stop
            invariant
                self.wf(),
                i < self.nodes.len(),
                stop == self.ends[i as int],
                stop <= self.nodes.len(),
                i < c,
                forall|k: int|
                    #![trigger out@[k]]
                    0 <= k < out.len() ==> i < out@[k] < self.nodes.len()
                        && self.nodes[out@[k] as int].named,
                named_children_spec(*self, i) == out@ + named_from(*self, c, stop),
            decreases self.nodes.len() - c,
        {
            let ghost before = out@;
            if self.nodes[c].named {
                out.push(c);
            }
            let next = self.ends[c];
            proof {
                if next >= stop {
                    assert(named_from(*self, next, stop) =~= Seq::<usize>::empty());
                }
                assert(before + named_from(*self, c, stop) =~= out@ + named_from(*self, next, stop));
            }
            c = next;
        }
        assert(out@ + named_from(*self, c, stop) =~= out@);
        out
    }

    /// The `n`-th named child of node `i`.
    pub fn named_child(&self, i: usize, n: usize) -> (r: Option<usize>)
        requires
            self.wf(),
            i < self.nodes.len(),
        ensures
            r matches Some(c) ==> i < c < self.nodes.len() && self.nodes[c as int].named,
            r == (if n < named_children_spec(*self, i).len() {
                Some(named_children_spec(*self, i)[n as int])
            } else {
                None
            }),
    {
        let kids = self.named_children(i);
        if n < kids.len() {
            Some(kids[n])
        } else {
            None
        }
    }

    /// The first child of node `i` that fills field `f`.
    pub fn child_by_field(&self, i: usize, f: &str) -> (r: Option<usize>)
        requires
            self.wf(),
            i < self.nodes.len(),
        ensures
            r matches Some(c) ==> {
                &&& i < c < self.nodes.len()
                &&& self.nodes[c as int].field matches Some(name) && name@ == f@
            },
            r matches Some(c) ==> field_child(*self, i as int, f@) == Some(c as int),
            r is None ==> field_child(*self, i as int, f@) is None,
    {
        let mut c = i + 1;
        let stop = self.ends[i];
        while c < stop
            invariant
                self.wf(),
                i < self.nodes.len(),
                stop == self.ends[i as int],
                stop <= self.nodes.len(),
                i < c,
                field_child(*self, i as int, f@) == field_child_from(*self, c as int, stop as int, f@),
            decreases self.nodes.len() - c,
        {
            if self.has_field(c, f) {
                return Some(c);
            }
            c = self.ends[c];
        }
        None
    }

    /// The named sibling just before node `i`, if any.
    pub fn prev_named_sibling(&self, i: usize) -> (r: Option<usize>)
        requires
            self.wf(),
            i < self.nodes.len(),
        ensures
            r matches Some(s) ==> s < i && self.nodes[s as int].named,
            r == prev_named(*self, i),
    {
        match self.nodes[i].parent {
            None => None,
            Some(p) => {
                let kids = self.named_children(p);
                let mut best: Option<usize> = None;
                let mut k: usize = 0;
                assert(kids@.skip(0) =~= kids@);
                while k < kids.len()
                    invariant
                        self.wf(),
                        p < self.nodes.len(),
                        i < self.nodes.len(),
                        self.nodes[i as int].parent == Some(p),
                        kids@ == named_children_spec(*self, p),
                        forall|j: int|
                            #![trigger kids@[j]]
                            0 <= j < kids.len() ==> p < kids@[j] < self.nodes.len() && self.nodes[kids@[j] as int].named,
                        k <= kids.len(),
                        best matches Some(s) ==> s < i && self.nodes[s as int].named,
                        last_before(kids@, i, None) == last_before(kids@.skip(k as int), i, best),
                    decreases kids.len() - k,
                {
                    let c = kids[k];
                    assert(kids@.skip(k as int)[0] == c);
                    if c >= i {
                        return best;
                    }
                    assert(kids@.skip(k as int).drop_first() =~= kids@.skip(k + 1));
                    best = Some(c);
                    k += 1;
                }
                best
            },
        }
    }
}

/// The tree is well formed and was parsed from `src`.
pub open spec fn tree_ok(tree: &SyntaxTree, src: &[u8]) -> bool {
    tree.wf() && tree.source_len == src@.len()
}

/// The source text under node `i`, when its span is valid UTF-8.
pub fn node_text(tree: &SyntaxTree, src: &[u8], i: usize) -> (r: Option<String>)
    requires
        tree.wf(),
        i < tree.nodes.len(),
        tree.source_len == src@.len(),
    ensures
        r matches Some(s) ==> Some(s@) == span_text(
            src@,
            tree.nodes[i as int].start as int,
            tree.nodes[i as int].end as int,
        ),
        r is None ==> span_text(src@, tree.nodes[i as int].start as int, tree.nodes[i as int].end as int) is None,
        opt_view(r) == text_of(*tree, src@, i as int),
{
    utf8_span(src, tree.nodes[i].start, tree.nodes[i].end)
}

/// The source text under node `i`, when its span is valid UTF-8.
pub open spec fn text_of(tree: SyntaxTree, src: Seq<u8>, i: int) -> Option<Seq<char>> {
    span_text(src, tree.nodes[i].start as int, tree.nodes[i].end as int)
}

/// The characters of an optional string.
pub open spec fn opt_view(s: Option<String>) -> Option<Seq<char>> {
    match s {
        Some(t) => Some(t@),
        None => None,
    }
}

/// Node `i` has grammar kind `k`.
pub open spec fn kind_is(tree: SyntaxTree, i: int, k: Seq<char>) -> bool {
    tree.nodes[i].kind@ == k
}

/// The first named child of node `i`.
pub open spec fn first_named(tree: SyntaxTree, i: usize) -> Option<usize> {
    let kids = named_children_spec(tree, i);
    if kids.len() > 0 {
        Some(kids[0])
    } else {
        None
    }
}

/// The first of `kids` of kind `k`.
pub open spec fn first_of_kind(tree: SyntaxTree, kids: Seq<usize>, k: Seq<char>) -> Option<usize>
    decreases kids.len(),
{
    if kids.len() == 0 {
        None
    } else if kind_is(tree, kids[0] as int, k) {
        Some(kids[0])
    } else {
        first_of_kind(tree, kids.drop_first(), k)
    }
}

/// Some of `kids` is an anonymous token of kind `k`.
pub open spec fn has_token(tree: SyntaxTree, kids: Seq<usize>, k: Seq<char>) -> bool {
    exists|j: int| 0 <= j < kids.len() && !tree.nodes[kids[j] as int].named && #[trigger] kind_is(tree, kids[j] as int, k)
}

/// Some node reached from node `i` through named children, `i` included,
/// satisfies `p`.
pub open spec fn subtree_any(tree: SyntaxTree, i: int, p: spec_fn(int) -> bool) -> bool
    decreases tree.nodes.len() - i, named_children_spec(tree, i as usize).len() + 1,
{
    p(i) || kids_any(tree, named_children_spec(tree, i as usize), i, p)
}

/// Some node under one of `kids` (children of node `i`) satisfies `p`.
pub open spec fn kids_any(tree: SyntaxTree, kids: Seq<usize>, i: int, p: spec_fn(int) -> bool) -> bool
    decreases tree.nodes.len() - i, kids.len(),
{
    if kids.len() == 0 {
        false
    } else {
        (0 <= i < kids[0] < tree.nodes.len() && subtree_any(tree, kids[0] as int, p)) || kids_any(
            tree,
            kids.drop_first(),
            i,
            p,
        )
    }
}

/// Some node of the tree is an error or a missing node.
pub open spec fn has_error(tree: SyntaxTree) -> bool {
    exists|i: int| 0 <= i < tree.nodes.len() && #[trigger] tree.nodes[i].error
}

/// True when some node is an error or missing node.
pub fn tree_has_error(tree: &SyntaxTree) -> (r: bool)
    ensures
        r == has_error(*tree),
{
    let n = tree.nodes.len();
    let mut i: usize = 0;
    while i < n
        invariant
            n == tree.nodes.len(),
            i <= n,
            forall|j: int| 0 <= j < i ==> !(#[trigger] tree.nodes[j].error),
        decreases n - i,
    {
        if tree.nodes[i].error {
            return true;
        }
        i += 1;
    }
    false
}

} // verus!
