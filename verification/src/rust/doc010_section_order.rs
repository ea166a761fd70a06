//! `DOC010`: a public item's doc sections are out of canonical order.
//!
//! The canonical order is `# Arguments`, `# Returns`, `# Examples`,
//! `# Errors`, `# Panics`, `# Safety`, `# Remarks`. Unknown headers never
//! participate and repeated headers of one section are allowed.
use crate::codes::CODE_SECTION_ORDER;
use crate::diagnostic::{Diagnostic, Severity};
use crate::order::{first_drop, lemma_no_drop_iff_ordered, non_decreasing, recognized_from};
use crate::rust::items::{SourceItem, VisibilityTier};
use crate::rust::sections::{is_arguments_header, item_diagnostic, item_finding};
use crate::text::{eq_ignore_case, owned, push_str, str_eq_ignore_case, trim, trim_spec, views};
use vstd::prelude::*;

verus! {

/// The canonical rank of a doc line's section header, when the whole
/// trimmed line is a recognized header.
pub open spec fn rank_spec(line: Seq<char>) -> Option<u8> {
    let t = trim_spec(line);
    if is_arguments_header(t) {
        Some(1)
    } else if eq_ignore_case(t, "# returns"@) || eq_ignore_case(t, "# return"@) {
        Some(2)
    } else if eq_ignore_case(t, "# examples"@) || eq_ignore_case(t, "# example"@) {
        Some(3)
    } else if eq_ignore_case(t, "# errors"@) {
        Some(4)
    } else if eq_ignore_case(t, "# panics"@) {
        Some(5)
    } else if eq_ignore_case(t, "# safety"@) {
        Some(6)
    } else if eq_ignore_case(t, "# remarks"@) || eq_ignore_case(t, "# notes"@) || eq_ignore_case(t, "# note"@) {
        Some(7)
    } else {
        None
    }
}

/// The canonical rank of `line`'s header.
pub fn section_rank(line: &str) -> (r: Option<u8>)
    ensures
        r == rank_spec(line@),
{
    let t = trim(line);
    let s = t.as_str();
    if str_eq_ignore_case(s, "# Arguments") || str_eq_ignore_case(s, "# Argument") || str_eq_ignore_case(
        s,
        "# Parameters",
    ) || str_eq_ignore_case(s, "# Parameter") || str_eq_ignore_case(s, "# Params") || str_eq_ignore_case(
        s,
        "# Param",
    ) {
        Some(1)
    } else if str_eq_ignore_case(s, "# returns") || str_eq_ignore_case(s, "# return") {
        Some(2)
    } else if str_eq_ignore_case(s, "# examples") || str_eq_ignore_case(s, "# example") {
        Some(3)
    } else if str_eq_ignore_case(s, "# errors") {
        Some(4)
    } else if str_eq_ignore_case(s, "# panics") {
        Some(5)
    } else if str_eq_ignore_case(s, "# safety") {
        Some(6)
    } else if str_eq_ignore_case(s, "# remarks") || str_eq_ignore_case(s, "# notes") || str_eq_ignore_case(
        s,
        "# note",
    ) {
        Some(7)
    } else {
        None
    }
}

/// The canonical header name of a rank.
pub open spec fn canonical_header_spec(rank: u8) -> Seq<char> {
    if rank == 1 {
        "# Arguments"@
    } else if rank == 2 {
        "# Returns"@
    } else if rank == 3 {
        "# Examples"@
    } else if rank == 4 {
        "# Errors"@
    } else if rank == 5 {
        "# Panics"@
    } else if rank == 6 {
        "# Safety"@
    } else {
        "# Remarks"@
    }
}

/// The canonical header name of `rank`.
pub fn canonical_header(rank: u8) -> (r: &'static str)
    ensures
        r@ == canonical_header_spec(rank),
{
    if rank == 1 {
        "# Arguments"
    } else if rank == 2 {
        "# Returns"
    } else if rank == 3 {
        "# Examples"
    } else if rank == 4 {
        "# Errors"
    } else if rank == 5 {
        "# Panics"
    } else if rank == 6 {
        "# Safety"
    } else {
        "# Remarks"
    }
}

/// The first adjacent pair of recognized headers, from line `i` on, whose
/// rank decreases, given the rank `prev` of the last header before `i`:
/// the earlier rank, then the later one.
pub open spec fn first_violation(docs: Seq<Seq<char>>, i: int, prev: Option<u8>) -> Option<(u8, u8)>
    decreases docs.len() - i,
{
    if i < 0 || i >= docs.len() {
        None
    } else {
        match rank_spec(docs[i]) {
            None => first_violation(docs, i + 1, prev),
            Some(r) => match prev {
                Some(p) => if r < p {
                    Some((p, r))
                } else {
                    first_violation(docs, i + 1, Some(r))
                },
                None => first_violation(docs, i + 1, Some(r)),
            },
        }
    }
}

/// The canonical rank of each doc line's section header, line by line.
pub open spec fn section_ranks(docs: Seq<Seq<char>>) -> Seq<Option<u8>> {
    docs.map_values(|l: Seq<char>| rank_spec(l))
}

proof fn lemma_violation_is_first_drop(docs: Seq<Seq<char>>, i: int, prev: Option<u8>)
    requires
        0 <= i,
    ensures
        first_violation(docs, i, prev) == first_drop(section_ranks(docs), i, prev),
    decreases docs.len() - i,
{
    if i < docs.len() {
        match rank_spec(docs[i]) {
            None => lemma_violation_is_first_drop(docs, i + 1, prev),
            Some(r) => lemma_violation_is_first_drop(docs, i + 1, Some(r)),
        }
    }
}

/// A doc comment has an out-of-order pair of sections exactly when the
/// ranks of its recognized headers, read line by line, decrease
/// somewhere; unknown headers never participate and repeated headers of
/// one section pass.
pub proof fn lemma_violation_iff_out_of_order(docs: Seq<Seq<char>>)
    ensures
        first_violation(docs, 0, None) is Some <==> !non_decreasing(recognized_from(section_ranks(docs), 0)),
{
    lemma_violation_is_first_drop(docs, 0, None);
    lemma_no_drop_iff_ordered(section_ranks(docs), 0, None);
    assert(Seq::<u8>::empty() + recognized_from(section_ranks(docs), 0) =~= recognized_from(section_ranks(docs), 0));
}

/// The canonical section order, as the DOC010 message lists it.
pub const CANONICAL_ORDER: &'static str = "`# Arguments`, `# Returns`, `# Examples`, `# Errors`, `# Panics`, `# Safety`, `# Remarks`";

/// The DOC010 message naming the offending pair.
pub open spec fn order_message(earlier: u8, later: u8) -> Seq<char> {
    "sections out of canonical order: found `"@ + canonical_header_spec(earlier) + "` before `"@
        + canonical_header_spec(later)
        + "`.\n\nWhy: A consistent section order is easier for the reader to review.\n\nSuggestions:\n- Move the sections into canonical order: "@ + CANONICAL_ORDER@ + "."@
}

/// `r` is exactly the rule's report: the count its condition gives, and
/// the finding's fields when there is one.
pub open spec fn reports(item: SourceItem, r: Seq<Diagnostic>) -> bool {
    &&& r.len() == (if item.visibility == Some(VisibilityTier::Pub) && first_violation(
        views(item.doc_comments@),
        0,
        None,
    ) is Some {
        1int
    } else {
        0int
    })
    &&& r.len() == 1 ==> (first_violation(views(item.doc_comments@), 0, None) matches Some(pair) && item_finding(
        r[0],
        item,
        CODE_SECTION_ORDER@,
        Severity::Error,
        Some("doc sections out of canonical order"@),
        order_message(pair.0, pair.1),
    ))
}

/// Report a public item whose recognized doc section headers decrease in
/// canonical rank, naming the first offending adjacent pair.
///
/// # Arguments
///
/// - `item` - the item whose doc comments are checked.
///
/// # Returns
///
/// One DOC010 error for an out-of-order item, else nothing.
pub fn check(item: &SourceItem) -> (r: Vec<Diagnostic>)
    ensures
        reports(*item, r@),
{
    let mut out: Vec<Diagnostic> = Vec::new();
    if item.visibility != Some(VisibilityTier::Pub) {
        return out;
    }
    let ghost docs = views(item.doc_comments@);
    let n = item.doc_comments.len();
    let mut prev: Option<u8> = None;
    let mut i: usize = 0;
    while i < n
        invariant
            n == item.doc_comments.len(),
            docs == views(item.doc_comments@),
            i <= n,
            out.len() == 0,
            item.visibility == Some(VisibilityTier::Pub),
            first_violation(docs, 0, None) == first_violation(docs, i as int, prev),
        decreases n - i,
    {
        assert(docs[i as int] == item.doc_comments@[i as int]@);
        match section_rank(item.doc_comments[i].as_str()) {
            None => {},
            Some(r) => {
                if let Some(p) = prev {
                    if r < p {
                        let mut message = owned("sections out of canonical order: found `");
                        push_str(&mut message, canonical_header(p));
                        push_str(&mut message, "` before `");
                        push_str(&mut message, canonical_header(r));
                        push_str(
                            &mut message,
                            "`.\n\nWhy: A consistent section order is easier for the reader to review.\n\nSuggestions:\n- Move the sections into canonical order: ",
                        );
                        push_str(&mut message, CANONICAL_ORDER);
                        push_str(&mut message, ".");
                        out.push(
                            item_diagnostic(
                                item,
                                CODE_SECTION_ORDER,
                                Severity::Error,
                                Some("doc sections out of canonical order"),
                                message,
                            ),
                        );
                        return out;
                    }
                }
                prev = Some(r);
            },
        }
        i += 1;
    }
    out
}

/// The canonical section headers, in canonical order.
pub open spec fn canonical_headers() -> Seq<Seq<char>> {
    seq!["# Arguments"@, "# Returns"@, "# Examples"@, "# Errors"@, "# Panics"@, "# Safety"@, "# Remarks"@]
}

proof fn lemma_trim_plain(s: Seq<char>)
    requires
        s.len() > 0,
        !crate::text::is_white_space(s[0]),
        !crate::text::is_white_space(s[s.len() - 1]),
    ensures
        trim_spec(s) == s,
{
    assert(crate::text::first_solid(s, 0) == 0);
    assert(crate::text::last_solid_end(s, 0, s.len() as int) == s.len());
    assert(s.subrange(0, s.len() as int) =~= s);
}

proof fn lemma_differs_at(a: Seq<char>, b: Seq<char>, i: int)
    requires
        0 <= i < a.len(),
        crate::text::lower_code(a[i]) != crate::text::lower_code(b[i]),
    ensures
        !eq_ignore_case(a, b),
{
}

proof fn lemma_same_up_to_case(a: Seq<char>, b: Seq<char>)
    requires
        a.len() == b.len(),
        forall|i: int| 0 <= i < a.len() ==> crate::text::lower_code(#[trigger] a[i]) == crate::text::lower_code(b[i]),
    ensures
        eq_ignore_case(a, b),
{
}

/// The rank of each canonical header.
proof fn lemma_canonical_ranks()
    ensures
        forall|k: int| 0 <= k < 7 ==> rank_spec(#[trigger] canonical_headers()[k]) == Some((k + 1) as u8),
{
    reveal_strlit("# Arguments");
    reveal_strlit("# Argument");
    reveal_strlit("# Parameters");
    reveal_strlit("# Parameter");
    reveal_strlit("# Params");
    reveal_strlit("# Param");
    reveal_strlit("# returns");
    reveal_strlit("# return");
    reveal_strlit("# examples");
    reveal_strlit("# example");
    reveal_strlit("# errors");
    reveal_strlit("# panics");
    reveal_strlit("# safety");
    reveal_strlit("# remarks");
    reveal_strlit("# notes");
    reveal_strlit("# note");
    reveal_strlit("# Returns");
    reveal_strlit("# Examples");
    reveal_strlit("# Errors");
    reveal_strlit("# Panics");
    reveal_strlit("# Safety");
    reveal_strlit("# Remarks");
    let h = canonical_headers();
    assert forall|k: int| 0 <= k < 7 implies !crate::text::is_white_space(#[trigger] h[k][0])
        && !crate::text::is_white_space(h[k][h[k].len() - 1]) && h[k].len() > 0 by {}
    assert forall|k: int| 0 <= k < 7 implies trim_spec(#[trigger] h[k]) == h[k] by {
        lemma_trim_plain(h[k]);
    }
    lemma_same_up_to_case(h[0], "# Arguments"@);
    lemma_same_up_to_case(h[1], "# returns"@);
    lemma_differs_at(h[2], "# Argument"@, 2);
    lemma_same_up_to_case(h[2], "# examples"@);
    lemma_differs_at(h[3], "# Params"@, 2);
    lemma_differs_at(h[3], "# return"@, 2);
    lemma_same_up_to_case(h[3], "# errors"@);
    lemma_differs_at(h[4], "# Params"@, 4);
    lemma_differs_at(h[4], "# return"@, 2);
    lemma_differs_at(h[4], "# errors"@, 2);
    lemma_same_up_to_case(h[4], "# panics"@);
    lemma_differs_at(h[5], "# Params"@, 2);
    lemma_differs_at(h[5], "# return"@, 2);
    lemma_differs_at(h[5], "# errors"@, 2);
    lemma_differs_at(h[5], "# panics"@, 2);
    lemma_same_up_to_case(h[5], "# safety"@);
    lemma_differs_at(h[6], "# returns"@, 4);
    lemma_differs_at(h[6], "# example"@, 2);
    lemma_same_up_to_case(h[6], "# remarks"@);
    assert(rank_spec(h[0]) == Some(1u8));
    assert(rank_spec(h[1]) == Some(2u8));
    assert(rank_spec(h[2]) == Some(3u8));
    assert(rank_spec(h[3]) == Some(4u8));
    assert(rank_spec(h[4]) == Some(5u8));
    assert(rank_spec(h[5]) == Some(6u8));
    assert(rank_spec(h[6]) == Some(7u8));
}

/// Every canonical header is recognized, and ranks strictly increase along
/// the canonical order.
pub proof fn lemma_canonical_ranks_increase()
    ensures
        forall|k: int| 0 <= k < 7 ==> (#[trigger] rank_spec(canonical_headers()[k])) is Some,
        forall|i: int, j: int|
            0 <= i < j < 7 ==> rank_spec(#[trigger] canonical_headers()[i])->0 < rank_spec(
                #[trigger] canonical_headers()[j],
            )->0,
{
    lemma_canonical_ranks();
}

/// For canonical sections A before B, a public item whose docs give B's
/// header and then A's gets exactly one DOC010 error, naming `B` before
/// `A`; in canonical order the same two headers give no finding.
pub proof fn lemma_swapped_sections_reported(item: SourceItem, r: Seq<Diagnostic>, i: int, j: int)
    requires
        0 <= i < j < 7,
        item.visibility == Some(VisibilityTier::Pub),
        reports(item, r),
    ensures
        views(item.doc_comments@) == seq![canonical_headers()[j], canonical_headers()[i]] ==> {
            &&& r.len() == 1
            &&& item_finding(
                r[0],
                item,
                CODE_SECTION_ORDER@,
                Severity::Error,
                Some("doc sections out of canonical order"@),
                "sections out of canonical order: found `"@ + canonical_headers()[j] + "` before `"@
                    + canonical_headers()[i] + "`.\n\nWhy: A consistent section order is easier for the reader to review.\n\nSuggestions:\n- Move the sections into canonical order: "@
                    + CANONICAL_ORDER@ + "."@,
            )
        },
        views(item.doc_comments@) == seq![canonical_headers()[i], canonical_headers()[j]] ==> r.len() == 0,
{
    lemma_canonical_ranks();
    let h = canonical_headers();
    reveal_strlit("# Arguments");
    reveal_strlit("# Returns");
    reveal_strlit("# Examples");
    reveal_strlit("# Errors");
    reveal_strlit("# Panics");
    reveal_strlit("# Safety");
    reveal_strlit("# Remarks");
    let d = views(item.doc_comments@);
    if d == seq![h[j], h[i]] {
        assert(d[0] == h[j] && d[1] == h[i]);
        assert(rank_spec(h[j]) == Some((j + 1) as u8));
        assert(rank_spec(h[i]) == Some((i + 1) as u8));
        assert(first_violation(d, 2, Some((i + 1) as u8)) is None);
        assert(first_violation(d, 1, Some((j + 1) as u8)) == Some(((j + 1) as u8, (i + 1) as u8)));
        assert(first_violation(d, 0, None) == Some(((j + 1) as u8, (i + 1) as u8)));
        assert(canonical_header_spec((j + 1) as u8) == h[j]);
        assert(canonical_header_spec((i + 1) as u8) == h[i]);
    }
    if d == seq![h[i], h[j]] {
        assert(d[0] == h[i] && d[1] == h[j]);
        assert(first_violation(d, 2, Some((j + 1) as u8)) is None);
        assert(first_violation(d, 1, Some((i + 1) as u8)) is None);
        assert(first_violation(d, 0, None) is None);
    }
}

} // verus!
