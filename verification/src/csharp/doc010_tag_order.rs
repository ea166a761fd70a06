//! `DOC010`: a non-private declaration's XML doc tags leave the canonical
//! order `inheritdoc`, `summary`, `typeparam`, `param`, `returns`,
//! `value`, `exception`, `remarks`, `example`, `seealso`.
//!
//! Only the tag that opens a doc line counts; tags outside the vocabulary
//! are transparent, and repeated tags of one rank pass.
use crate::codes::CODE_SECTION_ORDER;
use crate::csharp::declarations::{decl_diagnostic, decl_finding, Declaration};
use crate::csharp::doc_tags::{canonical_tag, canonical_tag_spec, tag_rank, tag_rank_spec};
use crate::diagnostic::{Diagnostic, Severity};
use crate::order::{first_drop, lemma_no_drop_iff_ordered, non_decreasing, recognized_from};
use crate::text::{owned, push_str, views};
use vstd::prelude::*;

verus! {

/// The canonical tag order, as the message lists it.
pub const CANONICAL_ORDER: &'static str =
    "`inheritdoc`, `summary`, `typeparam`, `param`, `returns`, `value`, `exception`, `remarks`, `example`, `seealso`";

/// The first adjacent decrease among the ranks of the recognized tags
/// opening `docs[i..]`, given the rank `prev` seen before: the earlier,
/// higher rank and the later, lower one.
pub open spec fn order_break(docs: Seq<Seq<char>>, i: int, prev: Option<u8>) -> Option<(u8, u8)>
    decreases docs.len() - i,
{
    if i < 0 || i >= docs.len() {
        None
    } else {
        match tag_rank_spec(docs[i]) {
            None => order_break(docs, i + 1, prev),
            Some(r) => match prev {
                Some(b) => if r < b {
                    Some((b, r))
                } else {
                    order_break(docs, i + 1, Some(r))
                },
                None => order_break(docs, i + 1, Some(r)),
            },
        }
    }
}

/// The canonical rank of each doc line's opening tag, line by line.
pub open spec fn tag_ranks(docs: Seq<Seq<char>>) -> Seq<Option<u8>> {
    docs.map_values(|l: Seq<char>| tag_rank_spec(l))
}

proof fn lemma_break_is_first_drop(docs: Seq<Seq<char>>, i: int, prev: Option<u8>)
    requires
        0 <= i,
    ensures
        order_break(docs, i, prev) == first_drop(tag_ranks(docs), i, prev),
    decreases docs.len() - i,
{
    if i < docs.len() {
        match tag_rank_spec(docs[i]) {
            None => lemma_break_is_first_drop(docs, i + 1, prev),
            Some(r) => lemma_break_is_first_drop(docs, i + 1, Some(r)),
        }
    }
}

/// DOC010 fires on exactly the non-private declarations whose recognized
/// doc tags, read line by line, decrease in canonical rank somewhere;
/// unknown tags are transparent and repeated tags of one rank pass.
pub proof fn lemma_fires_iff_out_of_order(decl: Declaration)
    ensures
        fires(decl) <==> decl.non_private && !non_decreasing(
            recognized_from(tag_ranks(views(decl.docs@)), 0),
        ),
{
    lemma_break_is_first_drop(views(decl.docs@), 0, None);
    lemma_no_drop_iff_ordered(tag_ranks(views(decl.docs@)), 0, None);
    assert(Seq::<u8>::empty() + recognized_from(tag_ranks(views(decl.docs@)), 0) =~= recognized_from(
        tag_ranks(views(decl.docs@)),
        0,
    ));
}

/// DOC010 applies to `decl`.
pub open spec fn fires(decl: Declaration) -> bool {
    decl.non_private && order_break(views(decl.docs@), 0, None) is Some
}

/// The DOC010 message for the tag of rank `later` found before the tag
/// of rank `earlier`.
pub open spec fn message(later: u8, earlier: u8) -> Seq<char> {
    "XML doc tags out of canonical order: found `<"@ + canonical_tag_spec(later) + ">` before `<"@
        + canonical_tag_spec(earlier)
        + ">`.\n\nWhy: A consistent tag order is easier for the reader to review.\n\nSuggestions:\n- Move the tags into canonical order: "@
        + CANONICAL_ORDER@ + "."@
}

/// `d` is the DOC010 finding on `decl`.
pub open spec fn expected(d: Diagnostic, decl: Declaration) -> bool {
    match order_break(views(decl.docs@), 0, None) {
        Some((b, r)) => decl_finding(
            d,
            decl,
            CODE_SECTION_ORDER@,
            Severity::Error,
            "XML doc tags out of canonical order"@,
            message(b, r),
        ),
        None => false,
    }
}

/// Report the first out-of-order pair of doc tags of a non-private
/// declaration.
///
/// # Returns
///
/// One DOC010 error naming the first adjacent decrease, else nothing.
pub fn check(decl: &Declaration) -> (r: Vec<Diagnostic>)
    ensures
        r.len() == (if fires(*decl) {
            1int
        } else {
            0int
        }),
        r.len() == 1 ==> expected(r@[0], *decl),
{
    let mut out: Vec<Diagnostic> = Vec::new();
    if !decl.non_private {
        return out;
    }
    let ghost docs = views(decl.docs@);
    let mut previous: Option<u8> = None;
    let mut i: usize = 0;
    while i < decl.docs.len()
        invariant
            docs == views(decl.docs@),
            i <= decl.docs.len(),
            decl.non_private,
            out.len() == 0,
            order_break(docs, 0, None) == order_break(docs, i as int, previous),
        decreases decl.docs.len() - i,
    {
        match tag_rank(decl.docs[i].as_str()) {
            None => {},
            Some(rank) => {
                match previous {
                    Some(before) => {
                        if rank < before {
                            let mut message = owned("XML doc tags out of canonical order: found `<");
                            push_str(&mut message, canonical_tag(before));
                            push_str(&mut message, ">` before `<");
                            push_str(&mut message, canonical_tag(rank));
                            push_str(
                                &mut message,
                                ">`.\n\nWhy: A consistent tag order is easier for the reader to review.\n\nSuggestions:\n- Move the tags into canonical order: ",
                            );
                            push_str(&mut message, CANONICAL_ORDER);
                            push_str(&mut message, ".");
                            out.push(
                                decl_diagnostic(
                                    decl,
                                    CODE_SECTION_ORDER,
                                    Severity::Error,
                                    "XML doc tags out of canonical order",
                                    message,
                                ),
                            );
                            return out;
                        }
                    },
                    None => {},
                }
                previous = Some(rank);
            },
        }
        i += 1;
    }
    out
}

} // verus!
