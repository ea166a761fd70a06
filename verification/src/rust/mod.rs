//! The Rust lint rules: DOC*, TEST*, LEN* and MOD*, one module per rule,
//! named by lint code, plus the item facts and doc-section readers they
//! share.
//!
//! [`mod001_module_size`] and [`len001_method_length`] are file-level and
//! take a configured budget; [`mod003_qualified_path`] walks the whole
//! tree once per file.
pub mod doc002_missing_errors_section;
pub mod doc003_vague_errors;
pub mod doc008_error_variant_order;
pub mod doc009_missing_module_docs;
pub mod doc010_section_order;
pub mod doc011_missing_returns;
pub mod items;
pub mod len001_method_length;
pub mod mod001_module_size;
pub mod mod002_fn_local_use;
pub mod mod003_qualified_path;
pub mod mod004_sole_caller;
pub mod perf001_allocation_hints;
pub mod scope;
pub mod sections;
pub mod test002_test_summary;

use crate::text::occurs_at;
use crate::csharp::doc_tags::{ascii_lower, lemma_occurrence_bounds, lower_ascii, next_occurrence, occurrence_from};
use crate::diagnostic::Diagnostic;
use crate::rust::items::{item_nodes, item_spec, source_items, top_level_enum_names, ItemKind, SourceItem};
use crate::rust::mod003_qualified_path::{file_hints, RootPolicy};
use crate::syntax::{named_children_spec, SyntaxTree};
use crate::text::{alphanumeric, chars_of, is_alphanumeric};
use vstd::prelude::*;

verus! {

/// A character that may not frame a whole word: alphanumeric or `_`.
pub open spec fn word_char(c: char) -> bool {
    alphanumeric(c) || c == '_'
}

/// The whole-word search from index `start`: each occurrence in turn is
/// accepted when no word character touches it, and the search resumes
/// after a rejected occurrence.
pub open spec fn word_from(h: Seq<char>, needle: Seq<char>, start: int) -> bool
    decreases h.len() - start,
{
    if needle.len() == 0 {
        false
    } else {
        match occurrence_from(h, needle, start) {
            None => false,
            Some(abs) => {
                let after = abs + needle.len();
                let before_ok = abs == 0 || !word_char(h[abs - 1]);
                let after_ok = after >= h.len() || !word_char(h[after]);
                if before_ok && after_ok {
                    true
                } else if start <= abs && after <= h.len() {
                    word_from(h, needle, after)
                } else {
                    false
                }
            },
        }
    }
}

/// `needle` stands in `h` at `p` as a whole word: no word character
/// touches it on either side.
pub open spec fn word_at(h: Seq<char>, needle: Seq<char>, p: int) -> bool {
    &&& occurs_at(h, needle, p)
    &&& (p == 0 || !word_char(h[p - 1]))
    &&& (p + needle.len() >= h.len() || !word_char(h[p + needle.len()]))
}

/// Every character of `s` is a word character.
pub open spec fn all_word_chars(s: Seq<char>) -> bool {
    forall|k: int| 0 <= k < s.len() ==> #[trigger] word_char(s[k])
}

proof fn lemma_no_occurrence_before(h: Seq<char>, needle: Seq<char>, i: int, p: int)
    requires
        0 <= i <= p,
        occurs_at(h, needle, p),
    ensures
        occurrence_from(h, needle, i) matches Some(j) && j <= p,
    decreases p - i,
{
    if !occurs_at(h, needle, i) {
        lemma_no_occurrence_before(h, needle, i + 1, p);
    }
}

/// For a needle of word characters, the whole-word search from `start`
/// succeeds exactly when the needle stands somewhere from `start` on as a
/// whole word: the occurrences it skips after a rejected one overlap that
/// one, so a word character touches them too.
pub proof fn lemma_word_from_exists(h: Seq<char>, needle: Seq<char>, start: int)
    requires
        needle.len() > 0,
        0 <= start,
        all_word_chars(needle),
    ensures
        word_from(h, needle, start) <==> exists|p: int| start <= p && #[trigger] word_at(h, needle, p),
    decreases h.len() - start,
{
    lemma_occurrence_bounds(h, needle, start);
    match occurrence_from(h, needle, start) {
        None => {
            if exists|p: int| start <= p && #[trigger] word_at(h, needle, p) {
                let p = choose|p: int| start <= p && #[trigger] word_at(h, needle, p);
                lemma_no_occurrence_before(h, needle, start, p);
            }
        },
        Some(abs) => {
            let n = needle.len();
            let after = abs + n;
            let before_ok = abs == 0 || !word_char(h[abs - 1]);
            let after_ok = after >= h.len() || !word_char(h[after]);
            if before_ok && after_ok {
                assert(word_at(h, needle, abs));
            } else {
                lemma_word_from_exists(h, needle, after);
                if exists|p: int| start <= p && #[trigger] word_at(h, needle, p) {
                    let p = choose|p: int| start <= p && #[trigger] word_at(h, needle, p);
                    lemma_no_occurrence_before(h, needle, start, p);
                    if p < after {
                        assert(p != abs);
                        assert(abs < p);
                        assert(h.subrange(abs, abs + n)[p - 1 - abs] == h[p - 1]);
                        assert(word_char(needle[p - 1 - abs]));
                        assert(false);
                    }
                    assert(word_at(h, needle, p) && after <= p);
                }
            }
        },
    }
}

/// A whole-word match, for a needle whose lowercase is made of word
/// characters, is a whole-word occurrence of the lowercased needle in the
/// lowercased text.
pub proof fn lemma_contains_word_exists(haystack: Seq<char>, needle: Seq<char>)
    requires
        needle.len() > 0,
        all_word_chars(lowered(needle)),
    ensures
        contains_word_spec(haystack, needle) <==> exists|p: int| #[trigger] word_at(lowered(haystack), lowered(needle), p),
{
    lemma_word_from_exists(lowered(haystack), lowered(needle), 0);
    if exists|p: int| #[trigger] word_at(lowered(haystack), lowered(needle), p) {
        let p = choose|p: int| #[trigger] word_at(lowered(haystack), lowered(needle), p);
        assert(0 <= p);
    }
}

/// `s` with its ASCII letters lowercased.
pub open spec fn lowered(s: Seq<char>) -> Seq<char> {
    s.map_values(|c: char| ascii_lower(c))
}

/// `needle` occurs in `haystack` as a whole word, both ASCII-lowercased.
pub open spec fn contains_word_spec(haystack: Seq<char>, needle: Seq<char>) -> bool {
    word_from(lowered(haystack), lowered(needle), 0)
}

/// The characters of `s`, ASCII-lowercased.
fn lowered_chars(s: &str) -> (r: Vec<char>)
    ensures
        r@ == lowered(s@),
{
    let raw = chars_of(s);
    let mut out: Vec<char> = Vec::new();
    let mut k: usize = 0;
    while k < raw.len()
        invariant
            k <= raw.len(),
            out@ == raw@.take(k as int).map_values(|c: char| ascii_lower(c)),
        decreases raw.len() - k,
    {
        out.push(lower_ascii(raw[k]));
        assert(out@ =~= raw@.take(k + 1).map_values(|c: char| ascii_lower(c)));
        k += 1;
    }
    assert(raw@.take(raw.len() as int) =~= raw@);
    out
}

/// Case-insensitive whole-word match of `needle` in `haystack`: a word
/// boundary is any character that is neither alphanumeric nor `_`, or
/// the start or end of the text. So `name` matches in `` `name` `` but
/// not in `filename`.
pub fn contains_word(haystack: &str, needle: &str) -> (r: bool)
    requires
        needle@.len() > 0,
    ensures
        r == contains_word_spec(haystack@, needle@),
{
    let h = lowered_chars(haystack);
    let nd = lowered_chars(needle);
    let ghost hs = h@;
    let m = nd.len();
    let mut start: usize = 0;
    loop
        invariant
            hs == h@,
            nd@ == lowered(needle@),
            hs == lowered(haystack@),
            m == nd.len(),
            m > 0,
            start <= h.len() + m,
            contains_word_spec(haystack@, needle@) == word_from(hs, nd@, start as int),
        decreases h.len() + m - start,
    {
        let abs = match next_occurrence(&h, &nd, start) {
            Some(a) => a,
            None => {
                return false;
            },
        };
        proof {
            lemma_occurrence_bounds(hs, nd@, start as int);
        }
        let after = abs + m;
        let before_ok = abs == 0 || !(is_alphanumeric(h[abs - 1]) || h[abs - 1] == '_');
        let after_ok = after >= h.len() || !(is_alphanumeric(h[after]) || h[after] == '_');
        if before_ok && after_ok {
            return true;
        }
        start = after;
    }
}

/// Kinds whose items need doc comments: everything but modules, imports,
/// impls, macros, extern crates and uncategorized items.
pub open spec fn documentable(kind: ItemKind) -> bool {
    kind == ItemKind::Fn || kind == ItemKind::Struct || kind == ItemKind::Enum || kind == ItemKind::Union || kind
        == ItemKind::Type || kind == ItemKind::Trait || kind == ItemKind::Const || kind == ItemKind::Static
}

/// True when items of `kind` need doc comments. `Mod` is left out: its
/// `//!` docs often live in a file a single-file check does not read.
pub fn is_documentable(kind: ItemKind) -> (r: bool)
    ensures
        r == documentable(kind),
{
    kind == ItemKind::Fn || kind == ItemKind::Struct || kind == ItemKind::Enum || kind == ItemKind::Union || kind
        == ItemKind::Type || kind == ItemKind::Trait || kind == ItemKind::Const || kind == ItemKind::Static
}

/// `ds` is what the item rules report for `item`, in code order: DOC002,
/// DOC003, DOC008 (against the file's enums `enums`), DOC010, DOC011 and
/// TEST002.
pub open spec fn item_reports(item: SourceItem, enums: Seq<Seq<char>>, ds: Seq<Diagnostic>) -> bool {
    exists|p: Seq<Seq<Diagnostic>>|
        #![trigger doc002_missing_errors_section::reports(item, p[0])]
        {
            &&& p.len() == 6
            &&& ds == p[0] + p[1] + p[2] + p[3] + p[4] + p[5]
            &&& doc002_missing_errors_section::reports(item, p[0])
            &&& doc003_vague_errors::reports(item, p[1])
            &&& doc008_error_variant_order::reports(item, enums, p[2])
            &&& doc010_section_order::reports(item, p[3])
            &&& doc011_missing_returns::reports(item, p[4])
            &&& test002_test_summary::reports(item, p[5])
        }
}

/// `ds` is what the item rules report for `items`, item after item.
pub open spec fn items_reports(items: Seq<SourceItem>, enums: Seq<Seq<char>>, ds: Seq<Diagnostic>) -> bool
    decreases items.len(),
{
    if items.len() == 0 {
        ds.len() == 0
    } else {
        exists|k: int|
            0 <= k <= ds.len() && items_reports(items.drop_last(), enums, ds.take(k)) && #[trigger] item_reports(
                items.last(),
                enums,
                ds.skip(k),
            )
    }
}

/// `items` are the records of the file's top-level items, in source order.
pub open spec fn items_of(tree: SyntaxTree, src: Seq<u8>, items: Seq<SourceItem>) -> bool {
    &&& items.len() == item_nodes(tree, named_children_spec(tree, 0)).len()
    &&& forall|k: int|
        #![trigger items[k]]
        0 <= k < items.len() ==> items[k].node == item_nodes(tree, named_children_spec(tree, 0))[k] && item_spec(
            tree,
            src,
            items[k].node,
            items[k].kind,
            items[k],
        )
}

/// `r` is what every Rust rule run over a file reports: the file-level
/// DOC009 finding, then the item rules item by item in source order, then
/// the MOD003 hints of the whole file.
pub open spec fn run_all_reports(tree: SyntaxTree, src: Seq<u8>, r: Seq<Diagnostic>) -> bool {
    exists|items: Seq<SourceItem>, enums: Seq<Seq<char>>, n: int, m: int|
        #![trigger items_of(tree, src, items), items_reports(items, enums, r.subrange(n, m))]
        {
            &&& items_of(tree, src, items)
            &&& enums.to_multiset() == crate::rust::items::enum_names(items).to_multiset()
            &&& 0 <= n <= m <= r.len()
            &&& doc009_missing_module_docs::reports(tree, src, r.take(n))
            &&& items_reports(items, enums, r.subrange(n, m))
            &&& file_hints(tree, src, RootPolicy::Declared, r.skip(m))
        }
}

/// Run every Rust rule present here over a parsed file.
///
/// File-level diagnostics precede item diagnostics, which follow source
/// order and then rule code order; the whole-file MOD003 hints come last.
///
/// # Arguments
///
/// - `tree` - the parsed file.
/// - `src` - the file's bytes.
///
/// # Returns
///
/// Every finding, empty only when the file and every item pass every rule.
pub fn run_all(tree: &SyntaxTree, src: &[u8]) -> (r: Vec<Diagnostic>)
    requires
        tree.wf(),
        tree.source_len == src@.len(),
    ensures
        run_all_reports(*tree, src@, r@),
{
    let mut out = doc009_missing_module_docs::check(tree, src);
    let ghost head = out@;
    let ghost n = out@.len() as int;
    let items = source_items(tree, src);
    let enums = top_level_enum_names(&items);
    let ghost e = crate::text::views(enums@);
    let mut i: usize = 0;
    proof {
        assert(out@.skip(n) =~= Seq::<Diagnostic>::empty());
        assert(items@.take(0).len() == 0);
    }
    while i < items.len()
        invariant
            i <= items.len(),
            e == crate::text::views(enums@),
            n == head.len(),
            n <= out@.len(),
            out@.take(n) == head,
            items_reports(items@.take(i as int), e, out@.skip(n)),
        decreases items.len() - i,
    {
        let ghost before = out@;
        let item = &items[i];
        let mut d = doc002_missing_errors_section::check(item);
        let ghost p0 = d@;
        let mut x = doc003_vague_errors::check(item);
        let ghost p1 = x@;
        d.append(&mut x);
        let mut x = doc008_error_variant_order::check(item, &enums);
        let ghost p2 = x@;
        d.append(&mut x);
        let mut x = doc010_section_order::check(item);
        let ghost p3 = x@;
        d.append(&mut x);
        let mut x = doc011_missing_returns::check(item);
        let ghost p4 = x@;
        d.append(&mut x);
        let mut x = test002_test_summary::check(item);
        let ghost p5 = x@;
        d.append(&mut x);
        let ghost total = d@;
        out.append(&mut d);
        proof {
            let p = seq![p0, p1, p2, p3, p4, p5];
            assert(total == p[0] + p[1] + p[2] + p[3] + p[4] + p[5]);
            assert(doc002_missing_errors_section::reports(items@[i as int], p[0]));
            assert(item_reports(items@[i as int], e, total));
            let t = items@.take(i + 1);
            assert(t.drop_last() =~= items@.take(i as int));
            assert(t.last() == items@[i as int]);
            let k = before.len() - n;
            assert(out@.skip(n).take(k) =~= before.skip(n));
            assert(out@.skip(n).skip(k) =~= total);
            assert(out@.take(n) =~= head);
            assert(items_reports(t, e, out@.skip(n)));
        }
        i += 1;
    }
    let ghost m = out@.len() as int;
    let mut hints = mod003_qualified_path::check(tree, src);
    let ghost h = hints@;
    let ghost mid = out@;
    out.append(&mut hints);
    proof {
        assert(items@.take(i as int) =~= items@);
        assert(out@.take(n) =~= head);
        assert(out@.subrange(n, m) =~= mid.skip(n));
        assert(out@.skip(m) =~= h);
        assert(items_of(*tree, src@, items@));
        assert(items_reports(items@, e, out@.subrange(n, m)));
    }
    out
}

} // verus!
