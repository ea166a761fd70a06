//! Canonical-order facts shared by the Rust and C# DOC010 rules: the
//! ranks of the recognized lines of a doc comment, and the first place
//! where they decrease.
use vstd::prelude::*;

verus! {

/// The ranks of the recognized lines from index `i` on, in order; lines
/// without a rank are left out.
pub open spec fn recognized_from(ranks: Seq<Option<u8>>, i: int) -> Seq<u8>
    decreases ranks.len() - i,
{
    if i < 0 || i >= ranks.len() {
        Seq::empty()
    } else {
        match ranks[i] {
            Some(r) => seq![r] + recognized_from(ranks, i + 1),
            None => recognized_from(ranks, i + 1),
        }
    }
}

/// `rs` never decreases.
pub open spec fn non_decreasing(rs: Seq<u8>) -> bool {
    forall|a: int, b: int| 0 <= a <= b < rs.len() ==> rs[a] <= rs[b]
}

/// The first adjacent decrease among the ranks from index `i` on, given
/// the rank `prev` seen before: the earlier rank and the later one.
pub open spec fn first_drop(ranks: Seq<Option<u8>>, i: int, prev: Option<u8>) -> Option<(u8, u8)>
    decreases ranks.len() - i,
{
    if i < 0 || i >= ranks.len() {
        None
    } else {
        match ranks[i] {
            None => first_drop(ranks, i + 1, prev),
            Some(r) => match prev {
                Some(b) => if r < b {
                    Some((b, r))
                } else {
                    first_drop(ranks, i + 1, Some(r))
                },
                None => first_drop(ranks, i + 1, Some(r)),
            },
        }
    }
}

/// The rank seen before, as a sequence of at most one rank.
pub open spec fn prefix_of(prev: Option<u8>) -> Seq<u8> {
    match prev {
        Some(b) => seq![b],
        None => Seq::empty(),
    }
}

/// No decrease is found exactly when the recognized ranks, after the
/// rank seen before, never decrease.
pub proof fn lemma_no_drop_iff_ordered(ranks: Seq<Option<u8>>, i: int, prev: Option<u8>)
    requires
        0 <= i,
    ensures
        first_drop(ranks, i, prev) is None <==> non_decreasing(prefix_of(prev) + recognized_from(ranks, i)),
    decreases ranks.len() - i,
{
    if i >= ranks.len() {
        assert(prefix_of(prev) + recognized_from(ranks, i) =~= prefix_of(prev));
    } else {
        let rest = recognized_from(ranks, i + 1);
        match ranks[i] {
            None => {
                lemma_no_drop_iff_ordered(ranks, i + 1, prev);
            },
            Some(r) => {
                lemma_no_drop_iff_ordered(ranks, i + 1, Some(r));
                let whole = prefix_of(prev) + recognized_from(ranks, i);
                let tail = seq![r] + rest;
                assert(recognized_from(ranks, i) == tail);
                match prev {
                    None => {
                        assert(whole =~= prefix_of(Some(r)) + rest);
                    },
                    Some(b) => {
                        assert(whole =~= seq![b] + tail);
                        assert(whole[0] == b && whole[1] == r);
                        if r >= b {
                            assert(prefix_of(Some(r)) + rest =~= tail);
                            if non_decreasing(tail) {
                                assert forall|a: int, c: int| 0 <= a <= c < whole.len() implies whole[a]
                                    <= whole[c] by {
                                    if a == 0 && c > 0 {
                                        assert(whole[c] == tail[c - 1]);
                                        assert(tail[0] <= tail[c - 1]);
                                    } else if a > 0 {
                                        assert(whole[a] == tail[a - 1]);
                                        assert(whole[c] == tail[c - 1]);
                                    }
                                }
                            }
                            if non_decreasing(whole) {
                                assert forall|a: int, c: int| 0 <= a <= c < tail.len() implies tail[a]
                                    <= tail[c] by {
                                    assert(whole[a + 1] == tail[a]);
                                    assert(whole[c + 1] == tail[c]);
                                }
                            }
                        }
                    },
                }
            },
        }
    }
}

} // verus!
