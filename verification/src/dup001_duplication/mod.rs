//! `DUP001`: repeated source sequences that include changed lines.
//!
//! Windows of the minimum number of meaningful lines seed groups of equal
//! normalized text, bucketed by a rolling fingerprint; every fingerprint
//! hit is checked against the lines themselves. A group grows one
//! meaningful line at a time while enough non-overlapping sites keep an
//! eligible query occurrence. Extended spans keep internal blank and
//! punctuation lines but begin and end on meaningful lines. No syntax or
//! semantic equivalence is inferred.
pub mod groups;
pub mod sorting;
pub mod source;

use crate::dup001_duplication::groups::{
    anchors_packing, consolidate, lemma_anchors_packing_iff, packed, packing_in, packs_through, pick_before, pick_from,
    select_sites, shaped, sorted_contains, Group,
};
use crate::dup001_duplication::source::{fingerprint_of, increasing, intern_ids, lemma_fingerprint_weight, lemma_pieces_len, lemma_weight_equal, line_pieces, meaningful_line, query_ends, split_lines, texts, Lines};
use crate::codes::CODE_DUPLICATION;
use crate::diagnostic::{Diagnostic, Severity};
use crate::dup001_duplication::sorting::{insertion_sorted, lemma_first_greater, lemma_insertion_step};
use crate::lex::{lemma_str_total, lemma_str_transitive, str_less, str_lt};
use crate::text::{chars_of, decimal, decimal_string, owned, push_str};
use vstd::prelude::*;

verus! {

/// The DUP001 thresholds.
#[derive(Debug, Clone, Copy)]
pub struct DuplicationConfig {
    /// The fewest meaningful lines a repeated sequence spans.
    pub min_meaningful_lines: usize,
    /// The fewest non-overlapping sites a sequence must repeat at.
    pub min_occurrences: usize,
    /// Compare lines as written, without trimming spaces, tabs and line
    /// endings.
    pub exact_whitespace: bool,
}

impl Default for DuplicationConfig {
    /// Five meaningful lines at three sites, whitespace-normalized.
    fn default() -> (r: Self)
        ensures
            r.min_meaningful_lines == 5,
            r.min_occurrences == 3,
            !r.exact_whitespace,
    {
        DuplicationConfig { min_meaningful_lines: 5, min_occurrences: 3, exact_whitespace: false }
    }
}

/// The lines a finding may be reported for: 1-based inclusive line
/// ranges, in order.
pub struct ChangedLines {
    ranges: Vec<(usize, usize)>,
}

impl ChangedLines {
    /// Line numbers start at 1.
    #[verifier::type_invariant]
    spec fn one_based(self) -> bool {
        forall|i: int| 0 <= i < self.ranges@.len() ==> #[trigger] self.ranges@[i].0 >= 1
    }

    /// The ranges, in order.
    pub closed spec fn spans(self) -> Seq<(usize, usize)> {
        self.ranges@
    }

    /// The given 1-based inclusive ranges.
    pub fn new(ranges: Vec<(usize, usize)>) -> (r: Self)
        requires
            forall|i: int| 0 <= i < ranges@.len() ==> #[trigger] ranges@[i].0 >= 1,
        ensures
            r.spans() == ranges@,
    {
        ChangedLines { ranges }
    }

    /// Every line of `source`.
    pub fn all(source: &str) -> (r: Self)
        ensures
            line_pieces(source@).len() == 0 ==> r.spans().len() == 0,
            line_pieces(source@).len() > 0 ==> r.spans() == seq![(1usize, line_pieces(source@).len() as usize)],
    {
        let chars = chars_of(source);
        let count = split_lines(&chars).len();
        assert(line_pieces(source@).len() == count);
        let mut ranges: Vec<(usize, usize)> = Vec::new();
        if count > 0 {
            ranges.push((1, count));
        }
        ChangedLines { ranges }
    }

    /// True when no line is eligible.
    pub fn is_empty(&self) -> (r: bool)
        ensures
            r == (self.spans().len() == 0),
    {
        self.ranges.len() == 0
    }

    /// The ranges, in order; each starts at line 1 or later.
    pub fn ranges(&self) -> (r: &Vec<(usize, usize)>)
        ensures
            r@ == self.spans(),
            forall|i: int| 0 <= i < r@.len() ==> #[trigger] r@[i].0 >= 1,
    {
        proof {
            use_type_invariant(self);
        }
        &self.ranges
    }
}

/// The span of `len` lines at `s` runs from the `k`-th meaningful line to
/// the `(k + m - 1)`-th, for some `k`: it begins and ends on meaningful
/// lines and holds `m` of them.
pub open spec fn aligned(lines: Lines, s: int, len: int, m: int) -> bool {
    exists|k: int|
        0 <= k && k + m <= lines.meaningful@.len() && #[trigger] lines.meaningful@[k] == s && lines.meaningful@[k + m - 1] == s
            + len - 1
}

/// `g` lists real repeats in `lines`: increasing starts whose spans lie in
/// the buffer, hold equal lines, and each run over `g.meaningful`
/// meaningful lines from the first to the last.
#[verifier::opaque]
pub open spec fn repeats(lines: Lines, g: Group) -> bool {
    &&& shaped(g)
    &&& g.length > 0
    &&& g.meaningful >= 1
    &&& forall|j: int| 0 <= j < g.starts@.len() ==> #[trigger] g.starts@[j] + g.length <= lines.n()
    &&& forall|j: int|
        0 <= j < g.starts@.len() ==> lines.span(#[trigger] g.starts@[j] as int, g.length as int) == lines.span(
            g.starts@[0] as int,
            g.length as int,
        )
    &&& forall|j: int|
        0 <= j < g.starts@.len() ==> aligned(lines, #[trigger] g.starts@[j] as int, g.length as int, g.meaningful as int)
}

/// One past the start of window `k - 1`: every seeded start lies below.
pub open spec fn seeded_below(lines: Lines, k: int) -> int {
    if k <= 0 {
        0
    } else {
        lines.meaningful@[k - 1] + 1
    }
}

/// The seeding state after the first `k` windows: valid groups in order of
/// their first window, and every window so far in some group.
pub open spec fn seeded(lines: Lines, minimum: int, groups: Seq<Group>, k: int) -> bool {
    &&& forall|g: int|
        0 <= g < groups.len() ==> repeats(lines, #[trigger] groups[g]) && groups[g].meaningful == minimum && groups[g].starts@.len()
            > 0
    &&& forall|g: int, j: int|
        0 <= g < groups.len() && 0 <= j < groups[g].starts@.len() ==> #[trigger] groups[g].starts@[j] < seeded_below(lines, k)
    &&& forall|g1: int, g2: int| 0 <= g1 < g2 < groups.len() ==> (#[trigger] groups[g1]).starts@[0] < (#[trigger] groups[g2]).starts@[0]
    &&& forall|kk: int|
        #![trigger lines.meaningful@[kk]]
        0 <= kk < k ==> exists|g: int|
            #![trigger groups[g]]
            0 <= g < groups.len() && groups[g].starts@.contains(lines.meaningful@[kk])
}

/// A group's bucket key: the fingerprint of its first span under `mask`,
/// and its length.
pub open spec fn key_of(lines: Lines, g: Group, mask: u64) -> (u64, usize) {
    (fingerprint_of(lines.ids@, g.starts@[0] as int, g.length as int) & mask, g.length)
}

/// Every group is listed in the bucket `bkt` names for it, under its key,
/// and no two buckets share a key.
pub open spec fn bucketed(
    lines: Lines,
    mask: u64,
    groups: Seq<Group>,
    buckets: Seq<((u64, usize), Vec<usize>)>,
    bkt: Seq<int>,
) -> bool {
    &&& groups.len() <= usize::MAX
    &&& bkt.len() == groups.len()
    &&& forall|g: int|
        0 <= g < groups.len() ==> 0 <= #[trigger] bkt[g] < buckets.len() && buckets[bkt[g]].0 == key_of(lines, groups[g], mask)
            && buckets[bkt[g]].1@.contains(g as usize)
    &&& forall|b1: int, b2: int| 0 <= b1 < b2 < buckets.len() ==> #[trigger] buckets[b1].0 != #[trigger] buckets[b2].0
}

/// No two groups hold the same lines: equal windows always share a group,
/// whatever their fingerprints.
pub open spec fn distinct_texts(lines: Lines, groups: Seq<Group>) -> bool {
    forall|g1: int, g2: int|
        0 <= g1 < g2 < groups.len() ==> !(#[trigger] groups[g1].length == #[trigger] groups[g2].length && lines.span(
            groups[g1].starts@[0] as int,
            groups[g1].length as int,
        ) == lines.span(groups[g2].starts@[0] as int, groups[g2].length as int))
}

/// Equal line runs are equal identity runs.
proof fn lemma_lines_to_ids(lines: Lines, a: int, b: int, t: int)
    requires
        lines.wf(),
        0 <= a,
        0 <= b,
        0 <= t,
        a + t <= lines.n(),
        b + t <= lines.n(),
        lines.span(a, t) == lines.span(b, t),
    ensures
        lines.ids@.subrange(a, a + t) == lines.ids@.subrange(b, b + t),
{
    assert forall|j: int| 0 <= j < t implies #[trigger] lines.ids@.subrange(a, a + t)[j] == lines.ids@.subrange(b, b + t)[j] by {
        assert(lines.lines().len() == lines.n());
        assert(lines.span(a, t)[j] == lines.span(b, t)[j]);
        assert(lines.lines()[a + j] == lines.lines()[b + j]);
        assert(lines.ids@[a + j] == lines.ids@[b + j]);
    }
    assert(lines.ids@.len() == lines.n());
    assert(lines.ids@.subrange(a, a + t) =~= lines.ids@.subrange(b, b + t));
}

/// Spans of equal lines have equal fingerprints.
proof fn lemma_same_fingerprint(lines: Lines, a: int, b: int, t: int)
    requires
        lines.wf(),
        0 <= a,
        0 <= b,
        0 <= t,
        a + t <= lines.n(),
        b + t <= lines.n(),
        lines.span(a, t) == lines.span(b, t),
    ensures
        fingerprint_of(lines.ids@, a, t) == fingerprint_of(lines.ids@, b, t),
{
    lemma_lines_to_ids(lines, a, b, t);
    lemma_weight_equal(lines.ids@, a, b, t);
    lemma_fingerprint_weight(lines.ids@, a, t);
    lemma_fingerprint_weight(lines.ids@, b, t);
}

/// A table from window keys to bucket positions.
pub type KeyTable = ahash::AHashMap<(u64, usize), usize>;

/// What a table of window keys holds: each key with its bucket position.
pub uninterp spec fn key_table(m: KeyTable) -> Map<(u64, usize), usize>;

/// `ahash::AHashMap::new`: a table that holds nothing.
#[verifier::external_body]
fn new_key_table() -> (r: KeyTable)
    ensures
        key_table(r).dom() == Set::<(u64, usize)>::empty(),
{
    ahash::AHashMap::new()
}

/// `ahash::AHashMap::get`: the position stored for `key`, if any.
#[verifier::external_body]
fn key_table_get(m: &KeyTable, key: (u64, usize)) -> (r: Option<usize>)
    ensures
        r == (if key_table(*m).contains_key(key) {
            Some(key_table(*m)[key])
        } else {
            None
        }),
{
    m.get(&key).copied()
}

/// `ahash::AHashMap::insert`: the table afterwards stores `v` for `key`
/// and keeps every other entry.
#[verifier::external_body]
fn key_table_insert(m: &mut KeyTable, key: (u64, usize), v: usize)
    ensures
        key_table(*old(m)).insert(key, v) == key_table(*final(m)),
{
    m.insert(key, v);
}

/// `t` finds each bucket's key at the bucket's position, and holds no
/// other key.
pub open spec fn indexed(t: Map<(u64, usize), usize>, buckets: Seq<((u64, usize), Vec<usize>)>) -> bool {
    &&& forall|b: int| 0 <= b < buckets.len() ==> t.contains_key(#[trigger] buckets[b].0) && t[buckets[b].0] == b
    &&& forall|key: (u64, usize)| #[trigger] t.contains_key(key) ==> t[key] < buckets.len() && buckets[t[key] as int].0 == key
}

/// The bucket for `key`, added when missing.
fn bucket_for(index: &mut KeyTable, buckets: &mut Vec<((u64, usize), Vec<usize>)>, key: (u64, usize)) -> (b: usize)
    requires
        indexed(key_table(*old(index)), old(buckets)@),
    ensures
        indexed(key_table(*final(index)), final(buckets)@),
        b < final(buckets).len(),
        final(buckets)@[b as int].0 == key,
        b < old(buckets).len() ==> final(buckets)@ == old(buckets)@,
        b == old(buckets).len() ==> {
            &&& final(buckets).len() == old(buckets).len() + 1
            &&& final(buckets)@.take(old(buckets).len() as int) == old(buckets)@
            &&& final(buckets)@[b as int].1@.len() == 0
            &&& forall|bb: int| 0 <= bb < old(buckets).len() ==> #[trigger] old(buckets)@[bb].0 != key
        },
        b <= old(buckets).len(),
{
    match key_table_get(index, key) {
        Some(b) => b,
        None => {
            let ghost before = buckets@;
            let ghost t0 = key_table(*index);
            buckets.push((key, Vec::new()));
            let b = buckets.len() - 1;
            key_table_insert(index, key, b);
            proof {
                assert(buckets@.take(before.len() as int) =~= before);
                assert forall|bb: int| 0 <= bb < before.len() implies #[trigger] before[bb].0 != key by {
                    assert(t0.contains_key(before[bb].0));
                }
                assert forall|c: int| 0 <= c < buckets@.len() implies key_table(*index).contains_key(
                    #[trigger] buckets@[c].0,
                ) && key_table(*index)[buckets@[c].0] == c by {
                    if c < before.len() {
                        assert(buckets@[c] == before[c]);
                        assert(t0.contains_key(before[c].0));
                    }
                }
                assert forall|k2: (u64, usize)| #[trigger] key_table(*index).contains_key(k2) implies key_table(
                    *index,
                )[k2] < buckets@.len() && buckets@[key_table(*index)[k2] as int].0 == k2 by {
                    if k2 != key {
                        assert(t0.contains_key(k2));
                        assert(buckets@[t0[k2] as int] == before[t0[k2] as int]);
                    }
                }
            }
            b
        },
    }
}

/// The group among `indices` of `length` lines whose first span equals the
/// span of `length` lines at `start`.
fn group_in_bucket(lines: &Lines, groups: &Vec<Group>, indices: &Vec<usize>, start: usize, length: usize) -> (r: Option<usize>)
    requires
        lines.wf(),
        start + length <= lines.n(),
        forall|g: int| 0 <= g < groups.len() ==> repeats(*lines, #[trigger] groups@[g]),
    ensures
        r matches Some(gi) ==> gi < groups.len() && groups@[gi as int].length == length && lines.span(
            groups@[gi as int].starts@[0] as int,
            length as int,
        ) == lines.span(start as int, length as int),
        r is None ==> forall|t: int|
            0 <= t < indices.len() ==> !(#[trigger] indices@[t] < groups.len() && groups@[indices@[t] as int].length == length
                && lines.span(groups@[indices@[t] as int].starts@[0] as int, length as int) == lines.span(
                start as int,
                length as int,
            )),
{
    let mut t: usize = 0;
    while t < indices.len()
        invariant
            lines.wf(),
            start + length <= lines.n(),
            forall|g: int| 0 <= g < groups.len() ==> repeats(*lines, #[trigger] groups@[g]),
            t <= indices.len(),
            forall|tt: int|
                0 <= tt < t ==> !(#[trigger] indices@[tt] < groups.len() && groups@[indices@[tt] as int].length == length
                    && lines.span(groups@[indices@[tt] as int].starts@[0] as int, length as int) == lines.span(
                    start as int,
                    length as int,
                )),
        decreases indices.len() - t,
    {
        let gi = indices[t];
        if gi < groups.len() && groups[gi].length == length {
            proof {
                reveal(repeats);
                assert(groups@[gi as int].starts@[0] + groups@[gi as int].length <= lines.n());
            }
            if lines.equal(groups[gi].starts[0], start, length) {
                return Some(gi);
            }
        }
        t += 1;
    }
    None
}

/// Window `k` of `minimum` meaningful lines spans `start..start + length`.
pub open spec fn is_window(lines: Lines, minimum: int, k: int, start: int, length: int) -> bool {
    &&& 0 <= k
    &&& k + minimum <= lines.meaningful@.len()
    &&& start == lines.meaningful@[k]
    &&& start + length == lines.meaningful@[k + minimum - 1] + 1
    &&& length > 0
}

/// Adding a later window with the same lines keeps a group's repeats.
proof fn lemma_join_repeats(lines: Lines, og: Group, ng: Group, start: usize)
    requires
        repeats(lines, og),
        ng.starts@ == og.starts@.push(start),
        ng.length == og.length,
        ng.meaningful == og.meaningful,
        forall|j: int| 0 <= j < og.starts@.len() ==> #[trigger] og.starts@[j] < start,
        start + og.length <= lines.n(),
        lines.span(start as int, og.length as int) == lines.span(og.starts@[0] as int, og.length as int),
        aligned(lines, start as int, og.length as int, og.meaningful as int),
    ensures
        repeats(lines, ng),
{
    reveal(repeats);
    assert forall|i: int, j: int| 0 <= i < j < ng.starts@.len() implies ng.starts@[i] < ng.starts@[j] by {
        if j == ng.starts@.len() - 1 {
            assert(ng.starts@[i] == og.starts@[i]);
        } else {
            assert(ng.starts@[i] == og.starts@[i] && ng.starts@[j] == og.starts@[j]);
        }
    }
    assert forall|j: int| 0 <= j < ng.starts@.len() implies {
        &&& #[trigger] ng.starts@[j] + ng.length <= lines.n()
        &&& lines.span(ng.starts@[j] as int, ng.length as int) == lines.span(ng.starts@[0] as int, ng.length as int)
        &&& aligned(lines, ng.starts@[j] as int, ng.length as int, ng.meaningful as int)
    } by {
        if j < og.starts@.len() {
            assert(ng.starts@[j] == og.starts@[j]);
        }
    }
}

/// Window `k` joins the group `gi`, whose first span holds the same lines.
#[verifier::spinoff_prover]
#[verifier::rlimit(40)]
fn join_group(
    lines: &Lines,
    minimum: usize,
    k: usize,
    start: usize,
    length: usize,
    gi: usize,
    groups: &mut Vec<Group>,
    mask: u64,
    buckets: &Vec<((u64, usize), Vec<usize>)>,
    bkt: Ghost<Seq<int>>,
)
    requires
        lines.wf(),
        1 <= minimum,
        is_window(*lines, minimum as int, k as int, start as int, length as int),
        seeded(*lines, minimum as int, old(groups)@, k as int),
        bucketed(*lines, mask, old(groups)@, buckets@, bkt@),
        distinct_texts(*lines, old(groups)@),
        gi < old(groups).len(),
        old(groups)@[gi as int].length == length,
        lines.span(old(groups)@[gi as int].starts@[0] as int, length as int) == lines.span(start as int, length as int),
    ensures
        seeded(*lines, minimum as int, final(groups)@, k + 1),
        bucketed(*lines, mask, final(groups)@, buckets@, bkt@),
        distinct_texts(*lines, final(groups)@),
{
    let ghost before = groups@;
    proof {
        if k > 0 {
            assert(lines.meaningful@[k - 1] < lines.meaningful@[k as int]);
        }
        assert(aligned(*lines, start as int, length as int, minimum as int));
    }
    groups[gi].starts.push(start);
    proof {
        assert(groups@[gi as int].starts@ == before[gi as int].starts@.push(start));
        assert(forall|j: int| 0 <= j < before[gi as int].starts@.len() ==> #[trigger] before[gi as int].starts@[j] < seeded_below(*lines, k as int));
        lemma_join_repeats(*lines, before[gi as int], groups@[gi as int], start);
        assert forall|g: int| 0 <= g < groups.len() implies repeats(*lines, #[trigger] groups@[g]) && groups@[g].meaningful
            == minimum && groups@[g].starts@.len() > 0 by {
            if g != gi {
                assert(groups@[g] == before[g]);
            }
        }
        assert forall|g: int, j: int|
            0 <= g < groups.len() && 0 <= j < groups@[g].starts@.len() implies #[trigger] groups@[g].starts@[j]
            < seeded_below(*lines, k + 1) by {
            if g != gi || j < before[g].starts@.len() {
                assert(groups@[g].starts@[j] == before[g].starts@[j]);
            }
        }
        assert forall|g1: int, g2: int| 0 <= g1 < g2 < groups.len() implies (#[trigger] groups@[g1]).starts@[0]
            < (#[trigger] groups@[g2]).starts@[0] by {
            assert(groups@[g1].starts@[0] == before[g1].starts@[0]);
            assert(groups@[g2].starts@[0] == before[g2].starts@[0]);
        }
        assert forall|kk: int|
            #![trigger lines.meaningful@[kk]]
            0 <= kk < k + 1 implies exists|g: int|
                #![trigger groups@[g]]
                0 <= g < groups.len() && groups@[g].starts@.contains(lines.meaningful@[kk]) by {
            let m = lines.meaningful@[kk];
            if kk < k {
                let g = choose|g: int| #![trigger before[g]] 0 <= g < before.len() && before[g].starts@.contains(m);
                let j = choose|j: int| 0 <= j < before[g].starts@.len() && before[g].starts@[j] == m;
                assert(groups@[g].starts@[j] == m);
            } else {
                assert(groups@[gi as int].starts@[groups@[gi as int].starts@.len() - 1] == m);
            }
        }
    }
    proof {
        assert forall|g: int| 0 <= g < groups.len() implies #[trigger] groups@[g].starts@[0] == before[g].starts@[0]
            && groups@[g].length == before[g].length by {
            if g != gi {
                assert(groups@[g] == before[g]);
            }
        }
        assert forall|g: int| 0 <= g < groups.len() implies 0 <= #[trigger] bkt@[g] < buckets@.len() && buckets@[bkt@[g]].0
            == key_of(*lines, groups@[g], mask) && buckets@[bkt@[g]].1@.contains(g as usize) by {
            assert(key_of(*lines, groups@[g], mask) == key_of(*lines, before[g], mask));
        }
        assert forall|g1: int, g2: int| 0 <= g1 < g2 < groups.len() implies !(#[trigger] groups@[g1].length == #[trigger] groups@[g2].length
            && lines.span(groups@[g1].starts@[0] as int, groups@[g1].length as int) == lines.span(
            groups@[g2].starts@[0] as int,
            groups@[g2].length as int,
        )) by {
            assert(groups@[g1].starts@[0] == before[g1].starts@[0] && groups@[g1].length == before[g1].length);
            assert(groups@[g2].starts@[0] == before[g2].starts@[0] && groups@[g2].length == before[g2].length);
        }
    }
}

/// Opening a group for a window whose lines no listed group holds keeps
/// the buckets consistent and the texts distinct.
#[verifier::spinoff_prover]
proof fn lemma_open_bucketed(
    lines: Lines,
    mask: u64,
    before: Seq<Group>,
    after: Seq<Group>,
    before_b: Seq<((u64, usize), Vec<usize>)>,
    after_b: Seq<((u64, usize), Vec<usize>)>,
    bkt: Seq<int>,
    b: int,
    start: int,
    length: int,
)
    requires
        lines.wf(),
        forall|g: int| 0 <= g < before.len() ==> repeats(lines, #[trigger] before[g]) && before[g].starts@.len() > 0,
        bucketed(lines, mask, before, before_b, bkt),
        distinct_texts(lines, before),
        0 <= b < before_b.len(),
        0 <= start,
        0 < length,
        start + length <= lines.n(),
        before_b[b].0 == (fingerprint_of(lines.ids@, start, length) & mask, length as usize),
        forall|t: int|
            0 <= t < before_b[b].1.len() ==> !(#[trigger] before_b[b].1@[t] < before.len() && before[before_b[b].1@[t] as int].length
                == length && lines.span(before[before_b[b].1@[t] as int].starts@[0] as int, length) == lines.span(start, length)),
        after.len() == before.len() + 1,
        after.len() <= usize::MAX,
        after.take(before.len() as int) == before,
        after.last().starts@ == seq![start as usize],
        after.last().length == length,
        after_b.len() == before_b.len(),
        forall|bb: int| 0 <= bb < before_b.len() && bb != b ==> #[trigger] after_b[bb] == before_b[bb],
        after_b[b].0 == before_b[b].0,
        after_b[b].1@ == before_b[b].1@.push(before.len() as usize),
    ensures
        bucketed(lines, mask, after, after_b, bkt.push(b)),
{
    let nb = bkt.push(b);
    let n = before.len() as int;
    assert forall|g: int| 0 <= g < after.len() implies 0 <= #[trigger] nb[g] < after_b.len() && after_b[nb[g]].0 == key_of(
        lines,
        after[g],
        mask,
    ) && after_b[nb[g]].1@.contains(g as usize) by {
        if g < n {
            assert(after[g] == before[g]);
            assert(nb[g] == bkt[g]);
            assert(before_b[bkt[g]].1@.contains(g as usize));
            if bkt[g] == b {
                let t = choose|t: int| 0 <= t < before_b[b].1@.len() && before_b[b].1@[t] == g as usize;
                assert(after_b[b].1@[t] == g as usize);
            } else {
                assert(after_b[bkt[g]] == before_b[bkt[g]]);
            }
        } else {
            assert(after_b[b].1@[after_b[b].1@.len() - 1] == g as usize);
            assert(after[g].starts@[0] == start);
        }
    }
    assert forall|b1: int, b2: int| 0 <= b1 < b2 < after_b.len() implies #[trigger] after_b[b1].0 != #[trigger] after_b[b2].0 by {
        assert(after_b[b1].0 == before_b[b1].0 && after_b[b2].0 == before_b[b2].0);
    }
}

/// A group's spans lie in the buffer.
proof fn lemma_first_in_buffer(lines: Lines, g: Group)
    requires
        repeats(lines, g),
    ensures
        g.starts@.len() > 0,
        g.starts@[0] + g.length <= lines.n(),
{
    reveal(repeats);
}

/// A group missing from the window's bucket does not hold the window's
/// lines.
#[verifier::spinoff_prover]
proof fn lemma_not_listed(
    lines: Lines,
    mask: u64,
    before: Seq<Group>,
    before_b: Seq<((u64, usize), Vec<usize>)>,
    bkt: Seq<int>,
    b: int,
    start: int,
    length: int,
    g1: int,
)
    requires
        lines.wf(),
        0 <= g1 < before.len(),
        repeats(lines, before[g1]),
        bucketed(lines, mask, before, before_b, bkt),
        0 <= b < before_b.len(),
        0 <= start,
        0 < length,
        start + length <= lines.n(),
        before_b[b].0 == (fingerprint_of(lines.ids@, start, length) & mask, length as usize),
        forall|t: int|
            0 <= t < before_b[b].1.len() ==> !(#[trigger] before_b[b].1@[t] < before.len() && before[before_b[b].1@[t] as int].length
                == length && lines.span(before[before_b[b].1@[t] as int].starts@[0] as int, length) == lines.span(start, length)),
    ensures
        !(before[g1].length == length && lines.span(before[g1].starts@[0] as int, length) == lines.span(start, length)),
{
    let h = before[g1];
    if h.length == length && lines.span(h.starts@[0] as int, length) == lines.span(start, length) {
        lemma_first_in_buffer(lines, h);
        lemma_same_fingerprint(lines, h.starts@[0] as int, start, length);
        assert(key_of(lines, h, mask) == before_b[b].0);
        let bg = bkt[g1];
        assert(before_b[bg].0 == key_of(lines, h, mask));
        if bg != b {
            if bg < b {
                assert(before_b[bg].0 != before_b[b].0);
            } else {
                assert(before_b[b].0 != before_b[bg].0);
            }
        }
        assert(before_b[b].1@.contains(g1 as usize));
        let t = choose|t: int| 0 <= t < before_b[b].1@.len() && before_b[b].1@[t] == g1 as usize;
        assert(before_b[b].1@[t] < before.len());
        assert(before[before_b[b].1@[t] as int] == h);
        assert(false);
    }
}

/// Opening a group for a window whose lines no listed group holds keeps
/// the texts distinct.
#[verifier::spinoff_prover]
proof fn lemma_open_distinct(
    lines: Lines,
    mask: u64,
    before: Seq<Group>,
    after: Seq<Group>,
    before_b: Seq<((u64, usize), Vec<usize>)>,
    after_b: Seq<((u64, usize), Vec<usize>)>,
    bkt: Seq<int>,
    b: int,
    start: int,
    length: int,
)
    requires
        lines.wf(),
        forall|g: int| 0 <= g < before.len() ==> repeats(lines, #[trigger] before[g]) && before[g].starts@.len() > 0,
        bucketed(lines, mask, before, before_b, bkt),
        distinct_texts(lines, before),
        0 <= b < before_b.len(),
        0 <= start,
        0 < length,
        start + length <= lines.n(),
        before_b[b].0 == (fingerprint_of(lines.ids@, start, length) & mask, length as usize),
        forall|t: int|
            0 <= t < before_b[b].1.len() ==> !(#[trigger] before_b[b].1@[t] < before.len() && before[before_b[b].1@[t] as int].length
                == length && lines.span(before[before_b[b].1@[t] as int].starts@[0] as int, length) == lines.span(start, length)),
        after.len() == before.len() + 1,
        after.take(before.len() as int) == before,
        after.last().starts@ == seq![start as usize],
        after.last().length == length,
        after_b.len() == before_b.len(),
        forall|bb: int| 0 <= bb < before_b.len() && bb != b ==> #[trigger] after_b[bb] == before_b[bb],
        after_b[b].0 == before_b[b].0,
        after_b[b].1@ == before_b[b].1@.push(before.len() as usize),
    ensures
        distinct_texts(lines, after),
{
    let n = before.len() as int;
    assert forall|g1: int, g2: int| 0 <= g1 < g2 < after.len() implies !(#[trigger] after[g1].length == #[trigger] after[g2].length
        && lines.span(after[g1].starts@[0] as int, after[g1].length as int) == lines.span(
        after[g2].starts@[0] as int,
        after[g2].length as int,
    )) by {
        assert(after[g1] == before[g1]);
        if g2 < n {
            assert(after[g2] == before[g2]);
        } else {
            lemma_not_listed(lines, mask, before, before_b, bkt, b, start, length, g1);
        }
    }
}

/// Window `k` opens a new group.
#[verifier::spinoff_prover]
fn open_group(
    lines: &Lines,
    minimum: usize,
    k: usize,
    start: usize,
    length: usize,
    groups: &mut Vec<Group>,
    mask: u64,
    b: usize,
    buckets: &mut Vec<((u64, usize), Vec<usize>)>,
    bkt: Ghost<Seq<int>>,
)
    requires
        lines.wf(),
        1 <= minimum,
        is_window(*lines, minimum as int, k as int, start as int, length as int),
        seeded(*lines, minimum as int, old(groups)@, k as int),
        bucketed(*lines, mask, old(groups)@, old(buckets)@, bkt@),
        distinct_texts(*lines, old(groups)@),
        b < old(buckets).len(),
        old(buckets)@[b as int].0 == (fingerprint_of(lines.ids@, start as int, length as int) & mask, length),
        forall|t: int|
            0 <= t < old(buckets)@[b as int].1.len() ==> !(#[trigger] old(buckets)@[b as int].1@[t] < old(groups).len()
                && old(groups)@[old(buckets)@[b as int].1@[t] as int].length == length && lines.span(
                old(groups)@[old(buckets)@[b as int].1@[t] as int].starts@[0] as int,
                length as int,
            ) == lines.span(start as int, length as int)),
    ensures
        seeded(*lines, minimum as int, final(groups)@, k + 1),
        bucketed(*lines, mask, final(groups)@, final(buckets)@, bkt@.push(b as int)),
        distinct_texts(*lines, final(groups)@),
        final(buckets).len() == old(buckets).len(),
        forall|c: int| 0 <= c < old(buckets).len() ==> (#[trigger] final(buckets)@[c]).0 == old(buckets)@[c].0,
{
    let ghost before = groups@;
    proof {
        if k > 0 {
            assert(lines.meaningful@[k - 1] < lines.meaningful@[k as int]);
        }
        assert(aligned(*lines, start as int, length as int, minimum as int));
    }
    let ghost before_b = buckets@;
    let mut starts: Vec<usize> = Vec::new();
    starts.push(start);
    groups.push(Group { starts, length, meaningful: minimum });
    let last = groups.len() - 1;
    buckets[b].1.push(last);
    proof {
        assert(groups@.take(before.len() as int) =~= before);
        assert(groups@.len() == groups.len());
        lemma_open_bucketed(*lines, mask, before, groups@, before_b, buckets@, bkt@, b as int, start as int, length as int);
        lemma_open_distinct(*lines, mask, before, groups@, before_b, buckets@, bkt@, b as int, start as int, length as int);
    }
    proof {
        let ng = groups@[last as int];
        assert(ng.starts@ =~= seq![start]);
        assert(repeats(*lines, ng)) by {
            reveal(repeats);
        }
        assert forall|g: int| 0 <= g < groups.len() implies repeats(*lines, #[trigger] groups@[g]) && groups@[g].meaningful
            == minimum && groups@[g].starts@.len() > 0 by {
            if g < before.len() {
                assert(groups@[g] == before[g]);
            }
        }
        assert forall|g: int, j: int|
            0 <= g < groups.len() && 0 <= j < groups@[g].starts@.len() implies #[trigger] groups@[g].starts@[j]
            < seeded_below(*lines, k + 1) by {
            if g < before.len() {
                assert(groups@[g] == before[g]);
            }
        }
        assert forall|g1: int, g2: int| 0 <= g1 < g2 < groups.len() implies (#[trigger] groups@[g1]).starts@[0]
            < (#[trigger] groups@[g2]).starts@[0] by {
            assert(groups@[g1] == before[g1]);
            if g2 < before.len() {
                assert(groups@[g2] == before[g2]);
            } else {
                assert(before[g1].starts@[0] < seeded_below(*lines, k as int));
            }
        }
        assert forall|kk: int|
            #![trigger lines.meaningful@[kk]]
            0 <= kk < k + 1 implies exists|g: int|
                #![trigger groups@[g]]
                0 <= g < groups.len() && groups@[g].starts@.contains(lines.meaningful@[kk]) by {
            let m = lines.meaningful@[kk];
            if kk < k {
                let g = choose|g: int| #![trigger before[g]] 0 <= g < before.len() && before[g].starts@.contains(m);
                assert(groups@[g] == before[g]);
            } else {
                assert(groups@[last as int].starts@[0] == m);
            }
        }
    }
}

/// Add window `k` to the group of its text, or start a group for it.
fn add_window(
    lines: &Lines,
    minimum: usize,
    fingerprint_mask: u64,
    k: usize,
    groups: &mut Vec<Group>,
    index: &mut KeyTable,
    buckets: &mut Vec<((u64, usize), Vec<usize>)>,
    bkt: Ghost<Seq<int>>,
) -> (nb: Ghost<Seq<int>>)
    requires
        indexed(key_table(*old(index)), old(buckets)@),
        lines.wf(),
        1 <= minimum,
        k + minimum <= lines.meaningful.len(),
        seeded(*lines, minimum as int, old(groups)@, k as int),
        bucketed(*lines, fingerprint_mask, old(groups)@, old(buckets)@, bkt@),
        distinct_texts(*lines, old(groups)@),
    ensures
        indexed(key_table(*final(index)), final(buckets)@),
        seeded(*lines, minimum as int, final(groups)@, k + 1),
        bucketed(*lines, fingerprint_mask, final(groups)@, final(buckets)@, nb@),
        distinct_texts(*lines, final(groups)@),
{
    let start = lines.meaningful[k];
    let end = lines.meaningful[k + minimum - 1] + 1;
    proof {
        if minimum > 1 {
            assert(lines.meaningful@[k as int] < lines.meaningful@[k + minimum - 1]);
        }
    }
    let length = end - start;
    let key = (lines.fingerprint(start, end) & fingerprint_mask, length);
    let ghost before_b = buckets@;
    let b = bucket_for(index, buckets, key);
    proof {
        if b == before_b.len() {
            assert forall|g: int| 0 <= g < groups.len() implies 0 <= #[trigger] bkt@[g] < buckets@.len() && buckets@[bkt@[g]].0
                == key_of(*lines, groups@[g], fingerprint_mask) && buckets@[bkt@[g]].1@.contains(g as usize) by {
                assert(buckets@[bkt@[g]] == buckets@.take(before_b.len() as int)[bkt@[g]]);
            }
            assert forall|b1: int, b2: int| 0 <= b1 < b2 < buckets@.len() implies #[trigger] buckets@[b1].0
                != #[trigger] buckets@[b2].0 by {
                assert(buckets@[b1] == buckets@.take(before_b.len() as int)[b1]);
                if b2 < before_b.len() {
                    assert(buckets@[b2] == buckets@.take(before_b.len() as int)[b2]);
                }
            }
        }
    }
    match group_in_bucket(lines, groups, &buckets[b].1, start, length) {
        Some(gi) => {
            join_group(lines, minimum, k, start, length, gi, groups, fingerprint_mask, buckets, bkt);
            bkt
        },
        None => {
            let ghost mid = buckets@;
            open_group(lines, minimum, k, start, length, groups, fingerprint_mask, b, buckets, bkt);
            proof {
                assert forall|c: int| 0 <= c < buckets@.len() implies key_table(*index).contains_key(
                    #[trigger] buckets@[c].0,
                ) && key_table(*index)[buckets@[c].0] == c by {
                    assert(buckets@[c].0 == mid[c].0);
                }
                assert forall|k2: (u64, usize)| #[trigger] key_table(*index).contains_key(k2) implies key_table(
                    *index,
                )[k2] < buckets@.len() && buckets@[key_table(*index)[k2] as int].0 == k2 by {
                    assert(buckets@[key_table(*index)[k2] as int].0 == mid[key_table(*index)[k2] as int].0);
                }
            }
            Ghost(bkt@.push(b as int))
        },
    }
}

/// The seeding contract: the windows of `minimum` meaningful lines grouped
/// by text, every window in a group, no two groups with one text, in order
/// of their first windows.
pub open spec fn seeds_ok(lines: Lines, minimum: int, r: Seq<Group>) -> bool {
    &&& forall|g: int| 0 <= g < r.len() ==> repeats(lines, #[trigger] r[g]) && r[g].meaningful == minimum
    &&& forall|g1: int, g2: int| 0 <= g1 < g2 < r.len() ==> (#[trigger] r[g1]).starts@[0] < (#[trigger] r[g2]).starts@[0]
    &&& distinct_texts(lines, r)
    &&& forall|k: int| 0 <= k <= lines.meaningful.len() - minimum ==> window_in(r, #[trigger] lines.meaningful@[k])
}

/// `x` starts a window of `minimum` meaningful lines, `len` lines long,
/// holding `text`.
pub open spec fn window_with(lines: Lines, minimum: int, x: usize, len: int, text: Seq<Seq<char>>) -> bool {
    exists|k: int|
        0 <= k && k + minimum <= lines.meaningful@.len() && #[trigger] lines.meaningful@[k] == x && lines.meaningful@[k
            + minimum - 1] == x + len - 1 && lines.span(x as int, len) == text
}

/// What a seed group says of its start `j`: a window of `minimum`
/// meaningful lines holding the group's text.
proof fn lemma_seed_start(lines: Lines, minimum: int, g: Group, j: int)
    requires
        lines.wf(),
        repeats(lines, g),
        g.meaningful == minimum,
        0 <= j < g.starts@.len(),
    ensures
        window_with(lines, minimum, g.starts@[j], g.length as int, lines.span(g.starts@[0] as int, g.length as int)),
{
    reveal(repeats);
    assert(aligned(lines, g.starts@[j] as int, g.length as int, g.meaningful as int));
    let k = choose|k: int|
        0 <= k && k + minimum <= lines.meaningful@.len() && #[trigger] lines.meaningful@[k] == g.starts@[j] as int
            && lines.meaningful@[k + minimum - 1] == g.starts@[j] + g.length - 1;
    assert(lines.span(g.starts@[j] as int, g.length as int) == lines.span(g.starts@[0] as int, g.length as int));
}

/// One window has one length: the windows at `x` agree.
proof fn lemma_window_len(lines: Lines, minimum: int, x: usize, l1: int, t1: Seq<Seq<char>>, l2: int, t2: Seq<Seq<char>>)
    requires
        lines.wf(),
        minimum >= 1,
        window_with(lines, minimum, x, l1, t1),
        window_with(lines, minimum, x, l2, t2),
    ensures
        l1 == l2,
{
    let k1 = choose|k: int|
        0 <= k && k + minimum <= lines.meaningful@.len() && #[trigger] lines.meaningful@[k] == x && lines.meaningful@[k
            + minimum - 1] == x + l1 - 1 && lines.span(x as int, l1) == t1;
    let k2 = choose|k: int|
        0 <= k && k + minimum <= lines.meaningful@.len() && #[trigger] lines.meaningful@[k] == x && lines.meaningful@[k
            + minimum - 1] == x + l2 - 1 && lines.span(x as int, l2) == t2;
    if k1 < k2 {
        assert(lines.meaningful@[k1] < lines.meaningful@[k2]);
    } else if k2 < k1 {
        assert(lines.meaningful@[k2] < lines.meaningful@[k1]);
    }
}

/// A seed group holds exactly the windows with its text.
proof fn lemma_seed_members(lines: Lines, minimum: int, r: Seq<Group>, i: int, x: usize)
    requires
        lines.wf(),
        minimum >= 1,
        seeds_ok(lines, minimum, r),
        0 <= i < r.len(),
    ensures
        r[i].starts@.contains(x) <==> window_with(
            lines,
            minimum,
            x,
            r[i].length as int,
            lines.span(r[i].starts@[0] as int, r[i].length as int),
        ),
{
    let g = r[i];
    let len = g.length as int;
    let text = lines.span(g.starts@[0] as int, len);
    if g.starts@.contains(x) {
        let j = choose|j: int| 0 <= j < g.starts@.len() && g.starts@[j] == x;
        lemma_seed_start(lines, minimum, g, j);
    }
    if window_with(lines, minimum, x, len, text) {
        let k = choose|k: int|
            0 <= k && k + minimum <= lines.meaningful@.len() && #[trigger] lines.meaningful@[k] == x && lines.meaningful@[k
                + minimum - 1] == x + len - 1 && lines.span(x as int, len) == text;
        assert(0 <= k <= lines.meaningful.len() - minimum);
        let h = choose|h: int| 0 <= h < r.len() && r[h].starts@.contains(lines.meaningful@[k]);
        let o = r[h];
        let jo = choose|j: int| 0 <= j < o.starts@.len() && o.starts@[j] == x;
        lemma_seed_start(lines, minimum, o, jo);
        lemma_window_len(lines, minimum, x, len, text, o.length as int, lines.span(o.starts@[0] as int, o.length as int));
        let ko = choose|k: int|
            0 <= k && k + minimum <= lines.meaningful@.len() && #[trigger] lines.meaningful@[k] == x && lines.meaningful@[k
                + minimum - 1] == x + o.length - 1 && lines.span(x as int, o.length as int) == lines.span(
                o.starts@[0] as int,
                o.length as int,
            );
        assert(lines.span(o.starts@[0] as int, len) == text);
        if h < i {
            assert(!(r[h].length == r[i].length && lines.span(r[h].starts@[0] as int, r[h].length as int) == lines.span(
                r[i].starts@[0] as int,
                r[i].length as int,
            )));
        } else if i < h {
            assert(!(r[i].length == r[h].length && lines.span(r[i].starts@[0] as int, r[i].length as int) == lines.span(
                r[h].starts@[0] as int,
                r[h].length as int,
            )));
        }
    }
}

/// Two increasing sequences with the same members are equal.
proof fn lemma_increasing_same_members(a: Seq<usize>, b: Seq<usize>)
    requires
        increasing(a),
        increasing(b),
        forall|x: usize| a.contains(x) <==> b.contains(x),
    ensures
        a == b,
    decreases a.len(),
{
    if a.len() == 0 {
        if b.len() > 0 {
            assert(b.contains(b[0]));
        }
        assert(a =~= b);
    } else {
        assert(a.contains(a[0]));
        assert(b.contains(a[0]));
        assert(b.len() > 0);
        assert(b.contains(b[0]));
        assert(a.contains(b[0]));
        let ia = choose|q: int| 0 <= q < a.len() && a[q] == b[0];
        let ib = choose|q: int| 0 <= q < b.len() && b[q] == a[0];
        if ia > 0 {
            assert(a[0] < a[ia]);
        }
        if ib > 0 {
            assert(b[0] < b[ib]);
        }
        assert(a[0] == b[0]);
        let a2 = a.drop_first();
        let b2 = b.drop_first();
        assert forall|x: usize| a2.contains(x) <==> b2.contains(x) by {
            if a2.contains(x) {
                let q = choose|q: int| 0 <= q < a2.len() && a2[q] == x;
                assert(a[q + 1] == x);
                assert(a[0] < a[q + 1]);
                assert(b.contains(x));
                let p = choose|p: int| 0 <= p < b.len() && b[p] == x;
                assert(p != 0);
                assert(b2[p - 1] == x);
            }
            if b2.contains(x) {
                let q = choose|q: int| 0 <= q < b2.len() && b2[q] == x;
                assert(b[q + 1] == x);
                assert(b[0] < b[q + 1]);
                assert(a.contains(x));
                let p = choose|p: int| 0 <= p < a.len() && a[p] == x;
                assert(p != 0);
                assert(a2[p - 1] == x);
            }
        }
        lemma_increasing_same_members(a2, b2);
        assert(a =~= seq![a[0]] + a2);
        assert(b =~= seq![b[0]] + b2);
    }
}

/// The group of seeding `b` that holds the first window of group `i` of
/// seeding `a` is its twin: same starts, length and meaningful lines.
#[verifier::spinoff_prover]
#[verifier::rlimit(40)]
proof fn lemma_seed_twin(lines: Lines, minimum: int, a: Seq<Group>, b: Seq<Group>, i: int) -> (j: int)
    requires
        lines.wf(),
        minimum >= 1,
        seeds_ok(lines, minimum, a),
        seeds_ok(lines, minimum, b),
        0 <= i < a.len(),
    ensures
        0 <= j < b.len(),
        group_view(b[j]) == group_view(a[i]),
{
    let g = a[i];
    assert(repeats(lines, g));
    assert(increasing(g.starts@) && g.starts@.len() > 0) by {
        reveal(repeats);
    }
    let len = g.length as int;
    let x = g.starts@[0];
    lemma_seed_start(lines, minimum, g, 0);
    let k = choose|k: int|
        0 <= k && k + minimum <= lines.meaningful@.len() && #[trigger] lines.meaningful@[k] == x && lines.meaningful@[k
            + minimum - 1] == x + len - 1 && lines.span(x as int, len) == lines.span(x as int, len);
    assert(0 <= k <= lines.meaningful.len() - minimum);
    let h = choose|h: int| 0 <= h < b.len() && b[h].starts@.contains(lines.meaningful@[k]);
    let o = b[h];
    assert(repeats(lines, o));
    assert(increasing(o.starts@) && o.starts@.len() > 0) by {
        reveal(repeats);
    }
    let jo = choose|q: int| 0 <= q < o.starts@.len() && o.starts@[q] == x;
    lemma_seed_start(lines, minimum, o, jo);
    lemma_window_len(
        lines,
        minimum,
        x,
        len,
        lines.span(x as int, len),
        o.length as int,
        lines.span(o.starts@[0] as int, o.length as int),
    );
    let ko = choose|q: int|
        0 <= q && q + minimum <= lines.meaningful@.len() && #[trigger] lines.meaningful@[q] == x && lines.meaningful@[q
            + minimum - 1] == x + o.length - 1 && lines.span(x as int, o.length as int) == lines.span(
            o.starts@[0] as int,
            o.length as int,
        );
    assert(lines.span(o.starts@[0] as int, len) == lines.span(x as int, len));
    assert forall|y: usize| g.starts@.contains(y) <==> o.starts@.contains(y) by {
        lemma_seed_members(lines, minimum, a, i, y);
        lemma_seed_members(lines, minimum, b, h, y);
    }
    lemma_increasing_same_members(g.starts@, o.starts@);
    h
}

/// Seeding does not depend on the fingerprint mask: any two groupings
/// that meet the seeding contract, such as `seed_groups` under two masks,
/// hold the same groups in the same order.
pub proof fn lemma_seeds_unique(lines: Lines, minimum: int, a: Seq<Group>, b: Seq<Group>)
    requires
        lines.wf(),
        minimum >= 1,
        seeds_ok(lines, minimum, a),
        seeds_ok(lines, minimum, b),
    ensures
        group_views(a) == group_views(b),
{
    let ka = a.map_values(|g: Group| g.starts@[0]);
    let kb = b.map_values(|g: Group| g.starts@[0]);
    assert(increasing(ka)) by {
        assert forall|i: int, j: int| 0 <= i < j < ka.len() implies ka[i] < ka[j] by {
            assert(a[i].starts@[0] < a[j].starts@[0]);
        }
    }
    assert(increasing(kb)) by {
        assert forall|i: int, j: int| 0 <= i < j < kb.len() implies kb[i] < kb[j] by {
            assert(b[i].starts@[0] < b[j].starts@[0]);
        }
    }
    assert forall|x: usize| ka.contains(x) <==> kb.contains(x) by {
        if ka.contains(x) {
            let i = choose|i: int| 0 <= i < ka.len() && ka[i] == x;
            let j = lemma_seed_twin(lines, minimum, a, b, i);
            assert(kb[j] == x);
        }
        if kb.contains(x) {
            let j = choose|j: int| 0 <= j < kb.len() && kb[j] == x;
            let i = lemma_seed_twin(lines, minimum, b, a, j);
            assert(ka[i] == x);
        }
    }
    lemma_increasing_same_members(ka, kb);
    assert forall|i: int| 0 <= i < a.len() implies group_view(#[trigger] a[i]) == group_view(b[i]) by {
        let j = lemma_seed_twin(lines, minimum, a, b, i);
        assert(kb[j] == ka[i]);
        if j < i {
            assert(kb[j] < kb[i]);
        } else if i < j {
            assert(kb[i] < kb[j]);
        }
    }
    assert(group_views(a) =~= group_views(b));
}

/// Seed one group per window text: windows of `minimum` meaningful lines
/// are bucketed by fingerprint and length, and a window joins the group in
/// its bucket whose lines equal its own. Groups come in order of their
/// first window.
///
/// Fingerprints only choose buckets: whatever `fingerprint_mask` keeps of
/// them, every window lies in exactly the group of the windows with its
/// lines, and no two groups hold the same lines; by `lemma_seeds_unique`
/// the groups are the same under every mask.
pub fn seed_groups(lines: &Lines, minimum: usize, fingerprint_mask: u64) -> (r: Vec<Group>)
    requires
        lines.wf(),
        1 <= minimum <= lines.meaningful.len(),
    ensures
        forall|g: int| 0 <= g < r.len() ==> repeats(*lines, #[trigger] r@[g]) && r@[g].meaningful == minimum,
        forall|g1: int, g2: int| 0 <= g1 < g2 < r.len() ==> (#[trigger] r@[g1]).starts@[0] < (#[trigger] r@[g2]).starts@[0],
        distinct_texts(*lines, r@),
        forall|k: int|
            #![trigger lines.meaningful@[k]]
            0 <= k <= lines.meaningful.len() - minimum ==> exists|g: int|
                #![trigger r@[g]]
                0 <= g < r.len() && r@[g].starts@.contains(lines.meaningful@[k]),
        seeds_ok(*lines, minimum as int, r@),
{
    let count = lines.meaningful.len() - minimum + 1;
    let mut groups: Vec<Group> = Vec::new();
    let mut buckets: Vec<((u64, usize), Vec<usize>)> = Vec::new();
    let mut index = new_key_table();
    let mut bkt: Ghost<Seq<int>> = Ghost(Seq::empty());
    proof {
        assert forall|key: (u64, usize)| #[trigger] key_table(index).contains_key(key) implies false by {
            assert(key_table(index).dom().contains(key));
        }
    }
    let mut k: usize = 0;
    while k < count
        invariant
            lines.wf(),
            1 <= minimum <= lines.meaningful.len(),
            count == lines.meaningful.len() - minimum + 1,
            k <= count,
            seeded(*lines, minimum as int, groups@, k as int),
            bucketed(*lines, fingerprint_mask, groups@, buckets@, bkt@),
            distinct_texts(*lines, groups@),
            indexed(key_table(index), buckets@),
        decreases count - k,
    {
        bkt = add_window(lines, minimum, fingerprint_mask, k, &mut groups, &mut index, &mut buckets, bkt);
        k += 1;
    }
    assert forall|kk: int|
        #![trigger lines.meaningful@[kk]]
        0 <= kk <= lines.meaningful.len() - minimum implies exists|g: int|
            #![trigger groups@[g]]
            0 <= g < groups.len() && groups@[g].starts@.contains(lines.meaningful@[kk]) by {
        let m = lines.meaningful@[kk];
        assert(kk < count);
        assert(seeded(*lines, minimum as int, groups@, count as int));
    }
    groups
}

/// After its span of `len` lines at `s`, the next meaningful line comes
/// `t` lines on: lines `s + len .. s + len + t - 1` are not meaningful, and
/// line `s + len + t - 1` is.
pub open spec fn tail_of(lines: Lines, s: int, len: int, t: int) -> bool {
    &&& t >= 1
    &&& s + len + t <= lines.n()
    &&& meaningful_line(lines.lines()[s + len + t - 1])
    &&& forall|j: int| s + len <= j < s + len + t - 1 ==> !meaningful_line(#[trigger] lines.lines()[j])
}

/// The meaningful line right after the `k`-th, with none between, is the
/// `(k + 1)`-th.
proof fn lemma_next_meaningful_index(lines: Lines, k: int, next: int)
    requires
        lines.wf(),
        0 <= k < lines.meaningful@.len(),
        lines.meaningful@[k] < next < lines.n(),
        meaningful_line(lines.lines()[next]),
        forall|j: int| lines.meaningful@[k] < j < next ==> !meaningful_line(#[trigger] lines.lines()[j]),
    ensures
        k + 1 < lines.meaningful@.len(),
        lines.meaningful@[k + 1] == next,
{
    assert(lines.meaningful@.contains(next as usize));
    let q = choose|q: int| 0 <= q < lines.meaningful@.len() && lines.meaningful@[q] == next as usize;
    if q <= k {
        if q < k {
            assert(lines.meaningful@[q] < lines.meaningful@[k]);
        }
        assert(false);
    }
    if q > k + 1 {
        assert(lines.meaningful@[k] < lines.meaningful@[k + 1] < lines.meaningful@[q]);
        let m = lines.meaningful@[k + 1] as int;
        assert(meaningful_line(lines.lines()[m]));
        assert(false);
    }
}

/// The children of a group: each start whose tail matches a branch's,
/// extended by that tail, repeats as well.
proof fn lemma_child_repeats(lines: Lines, g: Group, child: Group, t: int)
    requires
        lines.wf(),
        repeats(lines, g),
        child.starts@.len() > 0,
        increasing(child.starts@),
        forall|j: int| 0 <= j < child.starts@.len() ==> g.starts@.contains(#[trigger] child.starts@[j]),
        child.length == g.length + t,
        child.meaningful == g.meaningful + 1,
        forall|j: int| 0 <= j < child.starts@.len() ==> tail_of(lines, #[trigger] child.starts@[j] as int, g.length as int, t),
        forall|j: int|
            0 <= j < child.starts@.len() ==> lines.lines().subrange(#[trigger] child.starts@[j] + g.length, child.starts@[j]
                + g.length + t) == lines.lines().subrange(child.starts@[0] + g.length, child.starts@[0] + g.length + t),
    ensures
        repeats(lines, child),
{
    reveal(repeats);
    let len = g.length as int;
    let s0 = child.starts@[0] as int;
    assert forall|j: int| 0 <= j < child.starts@.len() implies {
        &&& #[trigger] child.starts@[j] + child.length <= lines.n()
        &&& lines.span(child.starts@[j] as int, child.length as int) == lines.span(s0, child.length as int)
        &&& aligned(lines, child.starts@[j] as int, child.length as int, child.meaningful as int)
    } by {
        let s = child.starts@[j] as int;
        assert(g.starts@.contains(child.starts@[j]));
        let gj = choose|gj: int| 0 <= gj < g.starts@.len() && g.starts@[gj] == child.starts@[j];
        assert(g.starts@.contains(child.starts@[0]));
        let g0 = choose|g0: int| 0 <= g0 < g.starts@.len() && g.starts@[g0] == child.starts@[0];
        assert(lines.span(s, len) == lines.span(g.starts@[0] as int, len));
        assert(lines.span(s0, len) == lines.span(g.starts@[0] as int, len));
        assert(lines.span(s, child.length as int) =~= lines.span(s, len) + lines.lines().subrange(s + len, s + len + t));
        assert(lines.span(s0, child.length as int) =~= lines.span(s0, len) + lines.lines().subrange(s0 + len, s0 + len + t));
        assert(aligned(lines, s, len, g.meaningful as int));
        let k = choose|k: int|
            0 <= k && k + g.meaningful <= lines.meaningful@.len() && #[trigger] lines.meaningful@[k] == s && lines.meaningful@[k
                + g.meaningful - 1] == s + len - 1;
        let last = k + g.meaningful - 1;
        assert forall|i: int| lines.meaningful@[last] < i < s + len + t - 1 implies !meaningful_line(#[trigger] lines.lines()[i]) by {
            assert(s + len <= i);
        }
        lemma_next_meaningful_index(lines, last, s + len + t - 1);
        assert(lines.meaningful@[k] == s && lines.meaningful@[k + child.meaningful - 1] == s + child.length - 1);
    }
    assert forall|i: int, j: int| 0 <= i < j < child.starts@.len() implies child.starts@[i] < child.starts@[j] by {}
}

/// Equal identity runs are equal line runs.
proof fn lemma_ids_to_lines(lines: Lines, a: int, b: int, t: int)
    requires
        lines.wf(),
        0 <= a,
        0 <= b,
        0 <= t,
        a + t <= lines.n(),
        b + t <= lines.n(),
        lines.ids@.subrange(a, a + t) == lines.ids@.subrange(b, b + t),
    ensures
        lines.lines().subrange(a, a + t) == lines.lines().subrange(b, b + t),
{
    assert forall|j: int| 0 <= j < t implies #[trigger] lines.lines().subrange(a, a + t)[j] == lines.lines().subrange(b, b + t)[j] by {
        assert(lines.ids@.len() == lines.n());
        assert(lines.lines().len() == lines.n());
        assert(lines.ids@.subrange(a, a + t)[j] == lines.ids@.subrange(b, b + t)[j]);
        assert(lines.ids@.subrange(a, a + t)[j] == lines.ids@[a + j]);
        assert(lines.ids@[a + j] == lines.ids@[b + j]);
    }
    assert(lines.lines().len() == lines.n());
    assert(lines.lines().subrange(a, a + t) =~= lines.lines().subrange(b, b + t));
}

/// A copy of a list of line indices.
fn copy_indices(v: &Vec<usize>) -> (r: Vec<usize>)
    ensures
        r@ == v@,
{
    let mut out: Vec<usize> = Vec::new();
    let mut i: usize = 0;
    while i < v.len()
        invariant
            i <= v.len(),
            out@ == v@.take(i as int),
        decreases v.len() - i,
    {
        out.push(v[i]);
        assert(out@ =~= v@.take(i + 1));
        i += 1;
    }
    assert(v@.take(v.len() as int) =~= v@);
    out
}

/// Fewer starts of a group, in order, still repeat.
proof fn lemma_repeats_sublist(lines: Lines, g: Group, h: Group)
    requires
        repeats(lines, g),
        h.starts@.len() > 0,
        increasing(h.starts@),
        forall|j: int| 0 <= j < h.starts@.len() ==> g.starts@.contains(#[trigger] h.starts@[j]),
        h.length == g.length,
        h.meaningful == g.meaningful,
    ensures
        repeats(lines, h),
{
    reveal(repeats);
    assert forall|j: int| 0 <= j < h.starts@.len() implies {
        &&& #[trigger] h.starts@[j] + h.length <= lines.n()
        &&& lines.span(h.starts@[j] as int, h.length as int) == lines.span(h.starts@[0] as int, h.length as int)
        &&& aligned(lines, h.starts@[j] as int, h.length as int, h.meaningful as int)
    } by {
        assert(g.starts@.contains(h.starts@[j]));
        assert(g.starts@.contains(h.starts@[0]));
        let a = choose|a: int| 0 <= a < g.starts@.len() && g.starts@[a] == h.starts@[j];
        let b = choose|b: int| 0 <= b < g.starts@.len() && g.starts@[b] == h.starts@[0];
    }
    assert forall|i: int, j: int| 0 <= i < j < h.starts@.len() implies h.starts@[i] < h.starts@[j] by {}
}

/// Packed sites of a positive length are increasing.
proof fn lemma_packed_increasing(sites: Seq<usize>, len: int)
    requires
        packed(sites, len),
        len > 0,
    ensures
        increasing(sites),
{
    assert forall|a: int, b: int| 0 <= a < b < sites.len() implies sites[a] < sites[b] by {
        assert(sites[a] + len <= sites[b]);
    }
}

/// One branch of a group's extension: the starts `m` share the tail that
/// follows the first, ending at line `f.1`; all lie below `bound`.
pub open spec fn branch_ok(lines: Lines, g: Group, f: (usize, usize), m: Seq<usize>, bound: int) -> bool {
    let t = f.1 - f.0 + 1;
    &&& m.len() > 0
    &&& increasing(m)
    &&& f.0 == m[0] + g.length
    &&& f.0 <= f.1
    &&& forall|j: int| 0 <= j < m.len() ==> g.starts@.contains(#[trigger] m[j]) && m[j] < bound
    &&& forall|j: int| 0 <= j < m.len() ==> tail_of(lines, #[trigger] m[j] as int, g.length as int, t)
    &&& forall|j: int|
        0 <= j < m.len() ==> lines.lines().subrange(#[trigger] m[j] + g.length, m[j] + g.length + t) == lines.lines().subrange(
            m[0] + g.length,
            m[0] + g.length + t,
        )
}

/// Every branch is well formed.
pub open spec fn branches_ok(lines: Lines, g: Group, firsts: Seq<(usize, usize)>, members: Seq<Vec<usize>>, bound: int) -> bool {
    &&& firsts.len() == members.len()
    &&& forall|b: int| 0 <= b < members.len() ==> branch_ok(lines, g, #[trigger] firsts[b], members[b]@, bound)
}

/// Branch `b` is the first of `firsts` whose tail ids equal those of the
/// run from `start + length` to `n` inclusive.
pub open spec fn first_branch(lines: Lines, firsts: Seq<(usize, usize)>, start: int, length: int, n: int, b: int) -> bool {
    let e = start + length;
    &&& 0 <= b < firsts.len()
    &&& lines.ids@.subrange(firsts[b].0 as int, firsts[b].1 + 1) == lines.ids@.subrange(e, n + 1)
    &&& forall|c: int|
        0 <= c < b ==> lines.ids@.subrange((#[trigger] firsts[c]).0 as int, firsts[c].1 + 1) != lines.ids@.subrange(
            e,
            n + 1,
        )
}

/// The vectors of a list of branches, as sequences.
pub open spec fn member_views(m: Seq<Vec<usize>>) -> Seq<Seq<usize>> {
    m.map_values(|v: Vec<usize>| v@)
}

/// The branches after filing `start`, whose span of `length` lines is
/// followed by its next meaningful line `next`: under the first branch with
/// the same tail, else under a new branch keyed by that tail.
pub open spec fn add_spec(
    lines: Lines,
    firsts: Seq<(usize, usize)>,
    members: Seq<Seq<usize>>,
    start: usize,
    length: usize,
    next: usize,
) -> (Seq<(usize, usize)>, Seq<Seq<usize>>) {
    if exists|b: int| first_branch(lines, firsts, start as int, length as int, next as int, b) {
        let b = choose|b: int| first_branch(lines, firsts, start as int, length as int, next as int, b);
        (firsts, members.update(b, members[b].push(start)))
    } else {
        (firsts.push(((start + length) as usize, next)), members.push(seq![start]))
    }
}

/// The next meaningful line at or after line `j`.
pub open spec fn next_meaningful_from(lines: Lines, j: int) -> Option<usize>
    decreases lines.n() - j,
{
    if j < 0 || j >= lines.n() {
        None
    } else if meaningful_line(lines.lines()[j]) {
        Some(j as usize)
    } else {
        next_meaningful_from(lines, j + 1)
    }
}

proof fn lemma_next_meaningful(lines: Lines, start: int, from: int, r: Option<usize>)
    requires
        0 <= start <= from,
        match r {
            Some(i) => start <= i < lines.n() && meaningful_line(lines.lines()[i as int]) && forall|j: int|
                start <= j < i ==> !meaningful_line(#[trigger] lines.lines()[j]),
            None => forall|j: int| start <= j < lines.n() ==> !meaningful_line(#[trigger] lines.lines()[j]),
        },
        r matches Some(i) ==> from <= i,
    ensures
        r == next_meaningful_from(lines, from),
    decreases lines.n() - from,
{
    if from < lines.n() {
        if r != Some(from as usize) {
            if r is None {
                assert(!meaningful_line(lines.lines()[from]));
            } else {
                assert(!meaningful_line(lines.lines()[from]));
            }
            lemma_next_meaningful(lines, start, from + 1, r);
        }
    }
}

/// The branches of a group with `starts` and `length` after its first `k` starts: each start with a
/// later meaningful line filed by its tail.
pub open spec fn branches_fold(lines: Lines, starts: Seq<usize>, length: usize, k: int) -> (
    Seq<(usize, usize)>,
    Seq<Seq<usize>>,
)
    decreases k,
{
    if k <= 0 {
        (Seq::empty(), Seq::empty())
    } else {
        let prev = branches_fold(lines, starts, length, k - 1);
        let st = starts[k - 1];
        match next_meaningful_from(lines, st + length) {
            Some(n) => add_spec(lines, prev.0, prev.1, st, length, n),
            None => prev,
        }
    }
}

/// A group as plain values: its starts, its length, and its meaningful
/// line count.
pub open spec fn group_view(g: Group) -> (Seq<usize>, usize, usize) {
    (g.starts@, g.length, g.meaningful)
}

/// Enough non-overlapping sites of `starts` (spans of `len` lines) can be
/// packed around some start that begins an eligible occurrence.
pub open spec fn selectable(starts: Seq<usize>, len: int, query_end: Seq<usize>, minimum: int) -> bool {
    &&& starts.len() >= minimum
    &&& exists|k: int|
        0 <= k < starts.len() && #[trigger] query_end[starts[k] as int] >= starts[k] + len && pick_before(
            starts,
            len,
            0,
            0,
            starts[k] as int,
        ).len() + 1 + pick_from(starts, len, 0, starts[k] + len).len() >= minimum
}

/// The children kept among the first `k` branches of a group of `length`
/// lines and `meaningful` meaningful lines: each
/// branch's starts, extended by its tail and one more meaningful line,
/// when its sites can still be selected.
pub open spec fn kept_children(
    length: usize,
    meaningful: usize,
    firsts: Seq<(usize, usize)>,
    members: Seq<Seq<usize>>,
    query_end: Seq<usize>,
    minimum: int,
    k: int,
) -> Seq<(Seq<usize>, usize, usize)>
    decreases k,
{
    if k <= 0 {
        Seq::empty()
    } else {
        let prev = kept_children(length, meaningful, firsts, members, query_end, minimum, k - 1);
        let b = k - 1;
        let len = length + (firsts[b].1 - firsts[b].0 + 1);
        if selectable(members[b], len, query_end, minimum) {
            prev.push((members[b], len as usize, (meaningful + 1) as usize))
        } else {
            prev
        }
    }
}

/// Anchor `q` begins an eligible occurrence around which enough
/// non-overlapping sites of `starts` (spans of `len` lines) pack.
pub open spec fn packs_at(starts: Seq<usize>, len: int, query_end: Seq<usize>, minimum: int, q: int) -> bool {
    query_end[q] >= q + len && pick_before(starts, len, 0, 0, q).len() + 1 + pick_from(starts, len, 0, q + len).len()
        >= minimum
}

/// The first of `starts` from index `k` on that anchors a packing.
pub open spec fn first_anchor(starts: Seq<usize>, len: int, query_end: Seq<usize>, minimum: int, k: int) -> Option<usize>
    decreases starts.len() - k,
{
    if k < 0 || k >= starts.len() {
        None
    } else if packs_at(starts, len, query_end, minimum, starts[k] as int) {
        Some(starts[k])
    } else {
        first_anchor(starts, len, query_end, minimum, k + 1)
    }
}

/// The sites selected for a group with `starts` and `len`: those packed
/// around its first anchor, when it has at least `minimum` starts.
pub open spec fn select_spec(starts: Seq<usize>, len: int, query_end: Seq<usize>, minimum: int) -> Option<Seq<usize>> {
    if starts.len() < minimum {
        None
    } else {
        match first_anchor(starts, len, query_end, minimum, 0) {
            Some(a) => Some(pick_before(starts, len, 0, 0, a as int) + seq![a] + pick_from(starts, len, 0, a + len)),
            None => None,
        }
    }
}

proof fn lemma_first_anchor(starts: Seq<usize>, len: int, query_end: Seq<usize>, minimum: int, k: int, k0: int)
    requires
        0 <= k <= k0,
        forall|kk: int| k <= kk < k0 && kk < starts.len() ==> !packs_at(starts, len, query_end, minimum, #[trigger] starts[kk] as int),
        k0 < starts.len() ==> packs_at(starts, len, query_end, minimum, starts[k0] as int),
        k0 >= starts.len() ==> k0 == starts.len(),
    ensures
        first_anchor(starts, len, query_end, minimum, k) == if k0 < starts.len() {
            Some(starts[k0])
        } else {
            None
        },
    decreases k0 - k,
{
    if k < k0 {
        lemma_first_anchor(starts, len, query_end, minimum, k + 1, k0);
    }
}

/// What `select_sites` picks on `group`, as plain values.
proof fn lemma_select(group: Group, query_end: Seq<usize>, minimum: usize, r: Option<(usize, Vec<usize>)>)
    requires
        match r {
            None => group.starts.len() < minimum || forall|k: int|
                0 <= k < group.starts@.len() ==> !crate::dup001_duplication::groups::anchors_packing(group, query_end, minimum as int, #[trigger] group.starts@[k] as int),
            Some((a, sites)) => {
                &&& group.starts.len() >= minimum
                &&& exists|k: int|
                    0 <= k < group.starts@.len() && #[trigger] group.starts@[k] == a && forall|kk: int|
                        0 <= kk < k ==> !crate::dup001_duplication::groups::anchors_packing(group, query_end, minimum as int, #[trigger] group.starts@[kk] as int)
                &&& crate::dup001_duplication::groups::anchors_packing(group, query_end, minimum as int, a as int)
                &&& sites@ == crate::dup001_duplication::groups::sites_around(group, a as int)
            },
        },
    ensures
        match r {
            Some((_, sites)) => Some(sites@),
            None => None,
        } == select_spec(group.starts@, group.length as int, query_end, minimum as int),
{
    let (s, len) = (group.starts@, group.length as int);
    match r {
        None => {
            if group.starts.len() >= minimum {
                lemma_first_anchor(s, len, query_end, minimum as int, 0, s.len() as int);
            }
        },
        Some((a, sites)) => {
            let k = choose|k: int|
                0 <= k < group.starts@.len() && #[trigger] group.starts@[k] == a && forall|kk: int|
                    0 <= kk < k ==> !crate::dup001_duplication::groups::anchors_packing(group, query_end, minimum as int, #[trigger] group.starts@[kk] as int);
            assert forall|kk: int| 0 <= kk < k && kk < s.len() implies !packs_at(s, len, query_end, minimum as int, #[trigger] s[kk] as int) by {
                assert(!crate::dup001_duplication::groups::anchors_packing(group, query_end, minimum as int, group.starts@[kk] as int));
            }
            lemma_first_anchor(s, len, query_end, minimum as int, 0, k);
        },
    }
}

/// A selection `o` holds every one of `sites`.
pub open spec fn covers_all(o: Option<Seq<usize>>, sites: Seq<usize>) -> bool {
    match o {
        Some(longer) => forall|j: int| 0 <= j < sites.len() ==> longer.contains(#[trigger] sites[j]),
        None => false,
    }
}

/// The groups `extend` reports for a group with `starts`, `length` and
/// `meaningful` lines: its selected sites unless a kept child's selection
/// holds them all, then each kept child's reports in order.
pub open spec fn extend_spec(lines: Lines, starts: Seq<usize>, length: usize, meaningful: usize, minimum: int) -> Seq<
    (Seq<usize>, usize, usize),
>
    decreases lines.n() - length, 1int, 0int,
{
    match select_spec(starts, length as int, lines.query_end@, minimum) {
        None => Seq::empty(),
        Some(sites) => {
            let f = branches_fold(lines, starts, length, starts.len() as int);
            let kids = kept_children(length, meaningful, f.0, f.1, lines.query_end@, minimum, f.0.len() as int);
            let covered = exists|c: int|
                0 <= c < kids.len() && covers_all(
                    #[trigger] select_spec(kids[c].0, kids[c].1 as int, lines.query_end@, minimum),
                    sites,
                );
            (if covered {
                Seq::empty()
            } else {
                seq![(sites, length, meaningful)]
            }) + extend_kids(lines, kids, length, minimum)
        },
    }
}

/// The reports of `extend` on each of `kids`, children longer than `bound`.
pub open spec fn extend_kids(lines: Lines, kids: Seq<(Seq<usize>, usize, usize)>, bound: usize, minimum: int) -> Seq<
    (Seq<usize>, usize, usize),
>
    decreases lines.n() - bound, 0int, kids.len(),
{
    if kids.len() == 0 {
        Seq::empty()
    } else {
        (if bound < kids[0].1 <= lines.n() {
            extend_spec(lines, kids[0].0, kids[0].1, kids[0].2, minimum)
        } else {
            Seq::empty()
        }) + extend_kids(lines, kids.drop_first(), bound, minimum)
    }
}

/// The plain values of a list of groups.
pub open spec fn group_views(v: Seq<Group>) -> Seq<(Seq<usize>, usize, usize)> {
    v.map_values(|g: Group| group_view(g))
}

/// A table from branch tails (the ids of their lines) to branch positions.
pub type TailTable = ahash::AHashMap<Vec<usize>, usize>;

/// What a table of branch tails holds: each tail with its position.
pub uninterp spec fn tail_table(m: TailTable) -> Map<Seq<usize>, usize>;

/// `ahash::AHashMap::new`: a table that holds nothing.
#[verifier::external_body]
fn new_tail_table() -> (r: TailTable)
    ensures
        tail_table(r).dom() == Set::<Seq<usize>>::empty(),
{
    ahash::AHashMap::new()
}

/// `ahash::AHashMap::get`: the position stored for the tail `key`, if
/// any; a vector hashes and compares as its elements.
#[verifier::external_body]
fn tail_table_get(m: &TailTable, key: &Vec<usize>) -> (r: Option<usize>)
    ensures
        r == (if tail_table(*m).contains_key(key@) {
            Some(tail_table(*m)[key@])
        } else {
            None
        }),
{
    m.get(key).copied()
}

/// `ahash::AHashMap::insert`: the table afterwards stores `v` for the tail
/// `key` and keeps every other entry.
#[verifier::external_body]
fn tail_table_insert(m: &mut TailTable, key: Vec<usize>, v: usize)
    ensures
        tail_table(*old(m)).insert(key@, v) == tail_table(*final(m)),
{
    m.insert(key, v);
}

/// The ids of the lines of branch `f`.
pub open spec fn tail_ids(lines: Lines, f: (usize, usize)) -> Seq<usize> {
    lines.ids@.subrange(f.0 as int, f.1 + 1)
}

/// `t` finds each branch's tail at the branch's position, and holds no
/// other tail.
pub open spec fn tails_indexed(lines: Lines, t: Map<Seq<usize>, usize>, firsts: Seq<(usize, usize)>) -> bool {
    &&& forall|b: int| 0 <= b < firsts.len() ==> t.contains_key(tail_ids(lines, #[trigger] firsts[b])) && t[tail_ids(lines, firsts[b])] == b
    &&& forall|key: Seq<usize>| #[trigger] t.contains_key(key) ==> t[key] < firsts.len() && tail_ids(lines, firsts[t[key] as int]) == key
}

/// The ids of lines `end..=next`.
fn ids_between(lines: &Lines, end: usize, next: usize) -> (r: Vec<usize>)
    requires
        end <= next < lines.ids.len(),
    ensures
        r@ == lines.ids@.subrange(end as int, next + 1),
{
    let mut out: Vec<usize> = Vec::new();
    let mut k = end;
    while k <= next
        invariant
            end <= k <= next + 1,
            next < lines.ids.len(),
            out@ == lines.ids@.subrange(end as int, k as int),
        decreases next + 1 - k,
    {
        out.push(lines.ids[k]);
        assert(out@ =~= lines.ids@.subrange(end as int, k + 1));
        k += 1;
    }
    out
}

/// File the start `start`, whose next meaningful line after its span is
/// `next`, under the branch with its tail, or open a branch for it.
#[verifier::spinoff_prover]
fn add_to_branch(
    lines: &Lines,
    group: &Group,
    start: usize,
    next: usize,
    firsts: &mut Vec<(usize, usize)>,
    members: &mut Vec<Vec<usize>>,
    index: &mut TailTable,
)
    requires
        tails_indexed(*lines, tail_table(*old(index)), old(firsts)@),
        lines.wf(),
        group.length > 0,
        group.starts@.contains(start),
        start + group.length <= next < lines.n(),
        tail_of(*lines, start as int, group.length as int, next - start - group.length + 1),
        branches_ok(*lines, *group, old(firsts)@, old(members)@, start as int),
    ensures
        tails_indexed(*lines, tail_table(*final(index)), final(firsts)@),
        branches_ok(*lines, *group, final(firsts)@, final(members)@, start + 1),
        (exists|b: int| first_branch(*lines, old(firsts)@, start as int, group.length as int, next as int, b)) ==> {
            let b = choose|b: int| first_branch(*lines, old(firsts)@, start as int, group.length as int, next as int, b);
            &&& final(firsts)@ == old(firsts)@
            &&& final(members).len() == old(members).len()
            &&& final(members)@[b]@ == old(members)@[b]@.push(start)
            &&& forall|c: int| 0 <= c < old(members).len() && c != b ==> #[trigger] final(members)@[c] == old(members)@[c]
        },
        !(exists|b: int| first_branch(*lines, old(firsts)@, start as int, group.length as int, next as int, b)) ==> {
            &&& final(firsts)@ == old(firsts)@.push(((start + group.length) as usize, next))
            &&& final(members)@.drop_last() == old(members)@
            &&& final(members)@.last()@ == seq![start]
        },
        (final(firsts)@, member_views(final(members)@)) == add_spec(
            *lines,
            old(firsts)@,
            member_views(old(members)@),
            start,
            group.length,
            next,
        ),
{
    let end = start + group.length;
    let ghost t = next - end + 1;
    let ghost bf = firsts@;
    let ghost bm = members@;
    proof {
        assert(lines.ids.len() == lines.n());
    }
    let key = ids_between(lines, end, next);
    let b: usize = match tail_table_get(index, &key) {
        Some(b) => b,
        None => firsts.len(),
    };
    proof {
        assert forall|c: int|
            0 <= c < b implies lines.ids@.subrange((#[trigger] bf[c]).0 as int, bf[c].1 + 1) != lines.ids@.subrange(
            end as int,
            next + 1,
        ) by {
            if lines.ids@.subrange(bf[c].0 as int, bf[c].1 + 1) == lines.ids@.subrange(end as int, next + 1) {
                assert(tail_ids(*lines, bf[c]) == key@);
            }
        }
        if b < firsts.len() {
            assert(tail_ids(*lines, bf[b as int]) == key@);
        }
    }
    if b < firsts.len() {
        let ghost f = bf[b as int];
        let ghost m0 = bm[b as int]@;
        proof {
            assert(first_branch(*lines, bf, start as int, group.length as int, next as int, b as int));
            assert forall|b2: int| first_branch(*lines, bf, start as int, group.length as int, next as int, b2) implies b2 == b by {
                if b2 < b {
                    assert(lines.ids@.subrange(bf[b2].0 as int, bf[b2].1 + 1) != lines.ids@.subrange(end as int, next + 1));
                }
                if b2 > b {
                    assert(lines.ids@.subrange(bf[b as int].0 as int, bf[b as int].1 + 1) != lines.ids@.subrange(end as int, next + 1));
                }
            }
        }
        proof {
            assert(branch_ok(*lines, *group, f, m0, start as int));
            assert(lines.ids@.subrange(f.0 as int, f.1 + 1) == lines.ids@.subrange(end as int, next + 1));
            assert(lines.ids@.subrange(f.0 as int, f.1 + 1).len() == lines.ids@.subrange(end as int, next + 1).len());
            assert(f.1 - f.0 + 1 == t);
            lemma_ids_to_lines(*lines, end as int, f.0 as int, t);
        }
        members[b].push(start);
        proof {
            assert(f.1 - f.0 + 1 == t);
            let m1 = members@[b as int]@;
            assert(m1 == m0.push(start));
            assert(branch_ok(*lines, *group, firsts@[b as int], m1, start + 1)) by {
                assert forall|j: int| 0 <= j < m1.len() implies g_contains_below(*group, #[trigger] m1[j], start + 1) by {
                    if j < m0.len() {
                        assert(m1[j] == m0[j]);
                    }
                }
                assert forall|j: int| 0 <= j < m1.len() implies tail_of(*lines, #[trigger] m1[j] as int, group.length as int, f.1 - f.0 + 1) by {
                    if j < m0.len() {
                        assert(m1[j] == m0[j]);
                    }
                }
                assert forall|j: int| 0 <= j < m1.len() implies lines.lines().subrange(#[trigger] m1[j] + group.length, m1[j] + group.length + (f.1 - f.0 + 1)) == lines.lines().subrange(
                    m1[0] + group.length,
                    m1[0] + group.length + (f.1 - f.0 + 1),
                ) by {
                    if j < m0.len() {
                        assert(m1[j] == m0[j]);
                    }
                }
                assert forall|i: int, j: int| 0 <= i < j < m1.len() implies m1[i] < m1[j] by {
                    if j < m0.len() {
                        assert(m1[i] == m0[i] && m1[j] == m0[j]);
                    } else {
                        assert(m1[i] == m0[i]);
                    }
                }
            }
            assert forall|bb: int| 0 <= bb < members.len() implies branch_ok(*lines, *group, #[trigger] firsts@[bb], members@[bb]@, start + 1) by {
                if bb != b {
                    assert(members@[bb] == bm[bb]);
                    lemma_branch_bound(*lines, *group, bf[bb], bm[bb]@, start as int, start + 1);
                }
            }
            assert(member_views(members@) =~= member_views(bm).update(b as int, member_views(bm)[b as int].push(start)));
        }
    } else {
        let mut one: Vec<usize> = Vec::new();
        one.push(start);
        firsts.push((end, next));
        members.push(one);
        let ghost t0 = tail_table(*index);
        tail_table_insert(index, key, b);
        proof {
            assert(tail_ids(*lines, firsts@[b as int]) == lines.ids@.subrange(end as int, next + 1));
            assert forall|c: int| 0 <= c < firsts.len() implies tail_table(*index).contains_key(
                tail_ids(*lines, #[trigger] firsts@[c]),
            ) && tail_table(*index)[tail_ids(*lines, firsts@[c])] == c by {
                if c < bf.len() {
                    assert(firsts@[c] == bf[c]);
                    assert(t0.contains_key(tail_ids(*lines, bf[c])));
                }
            }
            assert forall|k2: Seq<usize>| #[trigger] tail_table(*index).contains_key(k2) implies tail_table(*index)[k2]
                < firsts.len() && tail_ids(*lines, firsts@[tail_table(*index)[k2] as int]) == k2 by {
                if k2 != lines.ids@.subrange(end as int, next + 1) {
                    assert(t0.contains_key(k2));
                    assert(firsts@[t0[k2] as int] == bf[t0[k2] as int]);
                }
            }
        }
        proof {
            assert(members@.drop_last() =~= bm);
            assert forall|b2: int| !first_branch(*lines, bf, start as int, group.length as int, next as int, b2) by {
                if 0 <= b2 < bf.len() {
                    assert(lines.ids@.subrange(bf[b2].0 as int, bf[b2].1 + 1) != lines.ids@.subrange(end as int, next + 1));
                }
            }
            let m1 = members@[b as int]@;
            assert(m1 =~= seq![start]);
            assert(member_views(members@) =~= member_views(bm).push(seq![start]));
            assert(lines.lines().subrange(start + group.length, start + group.length + t) == lines.lines().subrange(
                m1[0] + group.length,
                m1[0] + group.length + t,
            ));
            assert(branch_ok(*lines, *group, firsts@[b as int], m1, start + 1));
            assert forall|bb: int| 0 <= bb < members.len() implies branch_ok(*lines, *group, #[trigger] firsts@[bb], members@[bb]@, start + 1) by {
                if bb != b {
                    assert(members@[bb] == bm[bb]);
                    assert(firsts@[bb] == bf[bb]);
                    lemma_branch_bound(*lines, *group, bf[bb], bm[bb]@, start as int, start + 1);
                }
            }
        }
    }
}

/// The start `x` is one of the group's, below `bound`.
pub open spec fn g_contains_below(g: Group, x: usize, bound: int) -> bool {
    g.starts@.contains(x) && x < bound
}

/// A branch below one bound is below any larger one.
proof fn lemma_branch_bound(lines: Lines, g: Group, f: (usize, usize), m: Seq<usize>, lo: int, hi: int)
    requires
        branch_ok(lines, g, f, m, lo),
        lo <= hi,
    ensures
        branch_ok(lines, g, f, m, hi),
{
}

/// A group `extend` reports: real repeats, in order, with at least `m`
/// meaningful lines.
pub open spec fn emitted(lines: Lines, g: Group, m: int) -> bool {
    repeats(lines, g) && shaped(g) && g.meaningful >= m
}

/// The branches of `group`: its starts grouped by the tail up to their
/// next meaningful line; starts with no later meaningful line stop.
fn branches(lines: &Lines, group: &Group) -> (r: (Vec<(usize, usize)>, Vec<Vec<usize>>))
    requires
        lines.wf(),
        repeats(*lines, *group),
    ensures
        branches_ok(*lines, *group, r.0@, r.1@, lines.n()),
        (r.0@, member_views(r.1@)) == branches_fold(*lines, group.starts@, group.length, group.starts.len() as int),
{
    proof {
        reveal(repeats);
    }
    let mut firsts: Vec<(usize, usize)> = Vec::new();
    let mut members: Vec<Vec<usize>> = Vec::new();
    let mut index = new_tail_table();
    proof {
        assert forall|key: Seq<usize>| #[trigger] tail_table(index).contains_key(key) implies false by {
            assert(tail_table(index).dom().contains(key));
        }
    }
    let mut i: usize = 0;
    while i < group.starts.len()
        invariant
            tails_indexed(*lines, tail_table(index), firsts@),
            lines.wf(),
            repeats(*lines, *group),
            group.length > 0,
            increasing(group.starts@),
            forall|j: int| 0 <= j < group.starts@.len() ==> #[trigger] group.starts@[j] + group.length <= lines.n(),
            i <= group.starts.len(),
            branches_ok(*lines, *group, firsts@, members@, if i < group.starts.len() { group.starts@[i as int] as int } else { lines.n() }),
            (firsts@, member_views(members@)) == branches_fold(*lines, group.starts@, group.length, i as int),
        decreases group.starts.len() - i,
    {
        let start = group.starts[i];
        let end = start + group.length;
        let ghost hi = if i + 1 < group.starts.len() { group.starts@[i + 1] as int } else { lines.n() };
        proof {
            if i + 1 < group.starts.len() {
                assert(group.starts@[i as int] < group.starts@[i + 1]);
            }
        }
        let found = lines.next_meaningful(end);
        proof {
            lemma_next_meaningful(*lines, end as int, end as int, found);
        }
        match found {
            Some(next) => {
                assert(group.starts@.contains(start));
                add_to_branch(lines, group, start, next, &mut firsts, &mut members, &mut index);
                proof {
                    assert forall|b: int| 0 <= b < members.len() implies branch_ok(*lines, *group, #[trigger] firsts@[b], members@[b]@, hi) by {
                        lemma_branch_bound(*lines, *group, firsts@[b], members@[b]@, start + 1, hi);
                    }
                }
            },
            None => {
                proof {
                    assert forall|b: int| 0 <= b < members.len() implies branch_ok(*lines, *group, #[trigger] firsts@[b], members@[b]@, hi) by {
                        lemma_branch_bound(*lines, *group, firsts@[b], members@[b]@, start as int, hi);
                    }
                }
            },
        }
        i += 1;
    }
    (firsts, members)
}

/// The children of `group`: one per branch, extended by its tail, kept
/// when enough non-overlapping sites still hold an eligible query.
#[verifier::spinoff_prover]
#[verifier::rlimit(40)]
fn children_of(lines: &Lines, group: &Group, minimum_sites: usize) -> (r: Vec<Group>)
    requires
        lines.wf(),
        lines.n() < usize::MAX,
        repeats(*lines, *group),
    ensures
        forall|c: int|
            0 <= c < r.len() ==> repeats(*lines, #[trigger] r@[c]) && shaped(r@[c]) && r@[c].length > group.length
                && r@[c].meaningful == group.meaningful + 1,
        ({
            let f = branches_fold(*lines, group.starts@, group.length, group.starts.len() as int);
            r@.map_values(|g: Group| group_view(g)) == kept_children(
                group.length,
                group.meaningful,
                f.0,
                f.1,
                lines.query_end@,
                minimum_sites as int,
                f.0.len() as int,
            )
        }),
{
    let (firsts, members) = branches(lines, group);
    let ghost fv = member_views(members@);
    proof {
        reveal(repeats);
        let k = choose|k: int|
            0 <= k && k + group.meaningful <= lines.meaningful@.len() && #[trigger] lines.meaningful@[k] == group.starts@[0]
                && lines.meaningful@[k + group.meaningful - 1] == group.starts@[0] + group.length - 1;
        assert(aligned(*lines, group.starts@[0] as int, group.length as int, group.meaningful as int));
        assert(group.meaningful <= lines.meaningful@.len());
        assert(lines.meaningful@.len() <= lines.n()) by {
            lemma_meaningful_count_bound(*lines);
        }
    }
    let mut children: Vec<Group> = Vec::new();
    let mut b: usize = 0;
    while b < firsts.len()
        invariant
            lines.wf(),
            lines.n() < usize::MAX,
            repeats(*lines, *group),
            group.meaningful < usize::MAX,
            branches_ok(*lines, *group, firsts@, members@, lines.n()),
            b <= firsts.len(),
            forall|c: int|
                0 <= c < children.len() ==> repeats(*lines, #[trigger] children@[c]) && shaped(children@[c])
                    && children@[c].length > group.length && children@[c].meaningful == group.meaningful + 1,
            fv == member_views(members@),
            children@.map_values(|g: Group| group_view(g)) == kept_children(
                group.length,
                group.meaningful,
                firsts@,
                fv,
                lines.query_end@,
                minimum_sites as int,
                b as int,
            ),
        decreases firsts.len() - b,
    {
        let (end, next) = firsts[b];
        assert(branch_ok(*lines, *group, firsts@[b as int], members@[b as int]@, lines.n()));
        let tail = next - end + 1;
        let child = Group { starts: copy_indices(&members[b]), length: group.length + tail, meaningful: group.meaningful + 1 };
        proof {
            lemma_child_repeats(*lines, *group, child, tail as int);
            reveal(repeats);
        }
        let ghost cv = group_view(child);
        let ghost before = children@.map_values(|g: Group| group_view(g));
        assert(cv.0 == fv[b as int]);
        let picked = select_sites(&child, &lines.query_end, minimum_sites);
        proof {
            match picked {
                Some((a, _)) => {
                    let k = choose|k: int|
                        0 <= k < child.starts@.len() && #[trigger] child.starts@[k] == a && forall|kk: int|
                            0 <= kk < k ==> !crate::dup001_duplication::groups::anchors_packing(
                                child,
                                lines.query_end@,
                                minimum_sites as int,
                                #[trigger] child.starts@[kk] as int,
                            );
                    assert(child.starts@[k] == a);
                    assert(selectable(child.starts@, child.length as int, lines.query_end@, minimum_sites as int));
                },
                None => {
                    if selectable(child.starts@, child.length as int, lines.query_end@, minimum_sites as int) {
                        let k = choose|k: int|
                            0 <= k < child.starts@.len() && #[trigger] lines.query_end@[child.starts@[k] as int]
                                >= child.starts@[k] + child.length && pick_before(
                                child.starts@,
                                child.length as int,
                                0,
                                0,
                                child.starts@[k] as int,
                            ).len() + 1 + pick_from(child.starts@, child.length as int, 0, child.starts@[k] + child.length).len()
                                >= minimum_sites;
                        assert(crate::dup001_duplication::groups::anchors_packing(
                            child,
                            lines.query_end@,
                            minimum_sites as int,
                            child.starts@[k] as int,
                        ));
                    }
                },
            }
        }
        if picked.is_some() {
            children.push(child);
            assert(children@.map_values(|g: Group| group_view(g)) =~= before.push(cv));
        }
        b += 1;
    }
    children
}

/// There are no more meaningful lines than lines.
proof fn lemma_meaningful_count_bound(lines: Lines)
    requires
        lines.wf(),
    ensures
        lines.meaningful@.len() <= lines.n(),
{
    let m = lines.meaningful@;
    if m.len() > 0 {
        assert forall|k: int| 0 <= k < m.len() implies #[trigger] m[k] >= k by {
            lemma_index_below(m, k);
        }
        assert(m[m.len() - 1] < lines.n());
    }
}

/// An increasing list of indices has its `k`-th entry at least `k`.
proof fn lemma_index_below(m: Seq<usize>, k: int)
    requires
        forall|i: int, j: int| 0 <= i < j < m.len() ==> m[i] < m[j],
        0 <= k < m.len(),
    ensures
        m[k] >= k,
    decreases k,
{
    if k > 0 {
        lemma_index_below(m, k - 1);
    }
}

/// `g` selects sites: it has at least `minimum` starts, one of which is an
/// eligible occurrence that anchors a packing of `minimum` sites.
pub open spec fn qualifies(g: Group, query_end: Seq<usize>, minimum: int) -> bool {
    &&& g.starts@.len() >= minimum
    &&& exists|k: int| 0 <= k < g.starts@.len() && anchors_packing(g, query_end, minimum, #[trigger] g.starts@[k] as int)
}

/// Extend a group one meaningful line at a time, only while a complete
/// eligible occurrence still qualifies. The group itself is reported
/// unless a child keeps every one of its sites; children follow in order.
fn extend(lines: &Lines, group: &Group, minimum_sites: usize, found: &mut Vec<Group>)
    requires
        lines.wf(),
        lines.n() < usize::MAX,
        repeats(*lines, *group),
    ensures
        final(found).len() >= old(found).len(),
        forall|k: int| 0 <= k < old(found).len() ==> #[trigger] final(found)@[k] == old(found)@[k],
        forall|k: int|
            old(found).len() <= k < final(found).len() ==> emitted(*lines, #[trigger] final(found)@[k], group.meaningful as int),
        group_views(final(found)@) == group_views(old(found)@) + extend_spec(
            *lines,
            group.starts@,
            group.length,
            group.meaningful,
            minimum_sites as int,
        ),
        select_spec(group.starts@, group.length as int, lines.query_end@, minimum_sites as int) is Some ==> final(found).len()
            > old(found).len(),
        forall|k: int|
            old(found).len() <= k < final(found).len() ==> qualifies(#[trigger] final(found)@[k], lines.query_end@, minimum_sites as int),
    decreases lines.n() - group.length,
{
    proof {
        reveal(repeats);
    }
    let ghost start_views = group_views(found@);
    let ghost qe = lines.query_end@;
    let ghost min = minimum_sites as int;
    let picked = select_sites(group, &lines.query_end, minimum_sites);
    proof {
        lemma_select(*group, qe, minimum_sites, picked);
    }
    let (anchor, sites) = match picked {
        Some((anchor, sites)) => (anchor, sites),
        None => {
            assert(group_views(found@) =~= start_views + Seq::empty());
            return;
        },
    };
    let children = children_of(lines, group, minimum_sites);
    let ghost kids = group_views(children@);
    let ghost covered_spec = exists|c: int|
        0 <= c < kids.len() && covers_all(#[trigger] select_spec(kids[c].0, kids[c].1 as int, qe, min), sites@);
    // Keep the shorter sequence if extension loses an independent site.
    let mut covered = false;
    let mut c: usize = 0;
    while c < children.len()
        invariant
            lines.wf(),
            lines.n() < usize::MAX,
            forall|cc: int| 0 <= cc < children.len() ==> repeats(*lines, #[trigger] children@[cc]),
            c <= children.len(),
            kids == group_views(children@),
            qe == lines.query_end@,
            min == minimum_sites as int,
            covered == exists|cc: int|
                0 <= cc < c && covers_all(#[trigger] select_spec(kids[cc].0, kids[cc].1 as int, qe, min), sites@),
        decreases children.len() - c,
    {
        proof {
            reveal(repeats);
        }
        let longer_pick = select_sites(&children[c], &lines.query_end, minimum_sites);
        proof {
            lemma_select(children@[c as int], qe, minimum_sites, longer_pick);
            assert(kids[c as int] == group_view(children@[c as int]));
        }
        let ghost sel = select_spec(kids[c as int].0, kids[c as int].1 as int, qe, min);
        let mut this_covers = false;
        match longer_pick {
            Some((_, longer)) => {
                proof {
                    lemma_packed_increasing(longer@, children@[c as int].length as int);
                }
                let mut all = true;
                let mut j: usize = 0;
                while j < sites.len()
                    invariant
                        increasing(longer@),
                        j <= sites.len(),
                        all == forall|jj: int| 0 <= jj < j ==> longer@.contains(#[trigger] sites@[jj]),
                    decreases sites.len() - j,
                {
                    if !sorted_contains(&longer, sites[j]) {
                        all = false;
                    }
                    j += 1;
                }
                if all {
                    covered = true;
                    this_covers = true;
                }
            },
            None => {},
        }
        assert(this_covers == covers_all(sel, sites@));
        proof {
            if covers_all(sel, sites@) {
                assert(covers_all(select_spec(kids[c as int].0, kids[c as int].1 as int, qe, min), sites@));
            }
            if covered && !covers_all(sel, sites@) {
                let cc = choose|cc: int|
                    0 <= cc < c && covers_all(#[trigger] select_spec(kids[cc].0, kids[cc].1 as int, qe, min), sites@);
                assert(0 <= cc < c + 1);
            }
        }
        c += 1;
    }
    let ghost own: Seq<(Seq<usize>, usize, usize)> = if covered {
        Seq::empty()
    } else {
        seq![(sites@, group.length, group.meaningful)]
    };
    assert(covered == covered_spec);
    if !covered {
        // Output groups need independent sites, not every overlapping window.
        let reported = Group { starts: sites, length: group.length, meaningful: group.meaningful };
        proof {
            lemma_packed_increasing(reported.starts@, group.length as int);
            lemma_repeats_sublist(*lines, *group, reported);
            assert(packing_in(reported.starts@, group.length as int, sites@));
            assert(packs_through(reported, qe, min, anchor as int));
            lemma_anchors_packing_iff(reported, qe, min, anchor);
            let ka = choose|ka: int| 0 <= ka < sites@.len() && sites@[ka] == anchor;
            assert(anchors_packing(reported, qe, min, reported.starts@[ka] as int));
            assert(qualifies(reported, qe, min));
        }
        found.push(reported);
    }
    assert(group_views(found@) =~= start_views + own);
    let ghost w: int = if covered {
        choose|cc: int| 0 <= cc < kids.len() && covers_all(#[trigger] select_spec(kids[cc].0, kids[cc].1 as int, qe, min), sites@)
    } else {
        0
    };
    let ghost base = found@;
    let ghost total = extend_kids(*lines, kids, group.length, min);
    assert(kids.skip(0) =~= kids);
    assert(group_views(found@) + total =~= start_views + (own + total));
    let mut c: usize = 0;
    while c < children.len()
        invariant
            lines.wf(),
            lines.n() < usize::MAX,
            forall|cc: int|
                0 <= cc < children.len() ==> repeats(*lines, #[trigger] children@[cc]) && children@[cc].length > group.length
                    && children@[cc].meaningful == group.meaningful + 1,
            group.length + 1 <= lines.n() + 1,
            c <= children.len(),
            found.len() >= old(found).len(),
            forall|k: int| 0 <= k < old(found).len() ==> #[trigger] found@[k] == old(found)@[k],
            forall|k: int| old(found).len() <= k < found.len() ==> emitted(*lines, #[trigger] found@[k], group.meaningful as int),
            kids == group_views(children@),
            min == minimum_sites as int,
            group_views(found@) + extend_kids(*lines, kids.skip(c as int), group.length, min) == start_views + (own
                + total),
            qe == lines.query_end@,
            covered ==> 0 <= w < kids.len() && covers_all(select_spec(kids[w].0, kids[w].1 as int, qe, min), sites@),
            (!covered || c > w) ==> found.len() > old(found).len(),
            forall|k: int| old(found).len() <= k < found.len() ==> qualifies(#[trigger] found@[k], qe, min),
        decreases children.len() - c,
    {
        let ghost before = found@;
        proof {
            reveal(repeats);
            assert(children@[c as int].starts@[0] + children@[c as int].length <= lines.n());
            assert(kids.skip(c as int)[0] == kids[c as int]);
            assert(kids.skip(c as int).drop_first() =~= kids.skip(c + 1));
            assert(kids[c as int] == group_view(children@[c as int]));
        }
        let ghost rest = extend_kids(*lines, kids.skip(c + 1), group.length, min);
        proof {
            if covered && c as int == w {
                assert(select_spec(children@[c as int].starts@, children@[c as int].length as int, qe, min) is Some);
            }
        }
        extend(lines, &children[c], minimum_sites, found);
        proof {
            assert forall|k: int| old(found).len() <= k < found.len() implies qualifies(#[trigger] found@[k], qe, min) by {
                if k < before.len() {
                    assert(found@[k] == before[k]);
                }
            }
            assert forall|k: int| old(found).len() <= k < found.len() implies emitted(*lines, #[trigger] found@[k], group.meaningful as int) by {
                if k < before.len() {
                    assert(found@[k] == before[k]);
                }
            }
            assert forall|k: int| 0 <= k < old(found).len() implies #[trigger] found@[k] == old(found)@[k] by {
                assert(found@[k] == before[k]);
            }
            let ext = extend_spec(*lines, kids[c as int].0, kids[c as int].1, kids[c as int].2, min);
            assert(group_views(found@) + rest =~= group_views(before) + (ext + rest));
        }
        c += 1;
    }
    assert(group_views(found@) + extend_kids(*lines, kids.skip(c as int), group.length, min) =~= group_views(found@));
    assert(own + total == extend_spec(*lines, group.starts@, group.length, group.meaningful, min));
}

/// The number of meaningful lines among `ls`.
pub open spec fn count_meaningful(ls: Seq<Seq<char>>) -> nat
    decreases ls.len(),
{
    if ls.len() == 0 {
        0
    } else {
        count_meaningful(ls.drop_last()) + if meaningful_line(ls.last()) {
            1nat
        } else {
            0nat
        }
    }
}

/// The meaningful lines in `lines[a..e]`.
pub open spec fn count_between(lines: Lines, a: int, e: int) -> nat {
    count_meaningful(lines.lines().subrange(a, e))
}

proof fn lemma_count_step(lines: Lines, a: int, e: int)
    requires
        0 <= a <= e < lines.n(),
    ensures
        count_between(lines, a, e + 1) == count_between(lines, a, e) + if meaningful_line(lines.lines()[e]) {
            1nat
        } else {
            0nat
        },
{
    assert(lines.lines().subrange(a, e + 1).drop_last() =~= lines.lines().subrange(a, e));
}

/// Lines without meaningful ones add nothing to the count.
proof fn lemma_count_gap(lines: Lines, a: int, p: int, q: int)
    requires
        0 <= a <= p <= q <= lines.n(),
        forall|j: int| p <= j < q ==> !meaningful_line(#[trigger] lines.lines()[j]),
    ensures
        count_between(lines, a, q) == count_between(lines, a, p),
    decreases q - p,
{
    if q > p {
        lemma_count_gap(lines, a, p, q - 1);
        lemma_count_step(lines, a, q - 1);
    }
}

/// A span aligned on `m` meaningful lines holds exactly `m` of them,
/// beginning and ending with one.
proof fn lemma_aligned_count(lines: Lines, s: int, len: int, m: int)
    requires
        lines.wf(),
        aligned(lines, s, len, m),
        m >= 1,
    ensures
        count_between(lines, s, s + len) == m,
        meaningful_line(lines.lines()[s]),
        meaningful_line(lines.lines()[s + len - 1]),
{
    let k = choose|k: int|
        0 <= k && k + m <= lines.meaningful@.len() && #[trigger] lines.meaningful@[k] == s && lines.meaningful@[k + m - 1] == s
            + len - 1;
    lemma_aligned_prefix(lines, k, m - 1);
}

/// From the `k`-th meaningful line through the `(k + j)`-th there are
/// `j + 1` meaningful lines.
proof fn lemma_aligned_prefix(lines: Lines, k: int, j: int)
    requires
        lines.wf(),
        0 <= k,
        0 <= j,
        k + j < lines.meaningful@.len(),
    ensures
        count_between(lines, lines.meaningful@[k] as int, lines.meaningful@[k + j] + 1) == j + 1,
    decreases j,
{
    let a = lines.meaningful@[k] as int;
    let e = lines.meaningful@[k + j] as int;
    assert(meaningful_line(lines.lines()[e]));
    if j == 0 {
        assert(lines.lines().subrange(a, a) =~= Seq::<Seq<char>>::empty());
        lemma_count_step(lines, a, a);
    } else {
        lemma_aligned_prefix(lines, k, j - 1);
        let p = lines.meaningful@[k + j - 1] as int;
        assert(p < e);
        assert forall|i: int| p + 1 <= i < e implies !meaningful_line(#[trigger] lines.lines()[i]) by {
            if meaningful_line(lines.lines()[i]) {
                assert(lines.meaningful@.contains(i as usize));
                let q = choose|q: int| 0 <= q < lines.meaningful@.len() && lines.meaningful@[q] == i as usize;
                if q <= k + j - 1 {
                    if q < k + j - 1 {
                        assert(lines.meaningful@[q] < lines.meaningful@[k + j - 1]);
                    }
                } else if q >= k + j {
                    if q > k + j {
                        assert(lines.meaningful@[k + j] < lines.meaningful@[q]);
                    }
                }
            }
        }
        if j - 1 > 0 {
            assert(lines.meaningful@[k] < lines.meaningful@[k + j - 1]);
        }
        lemma_count_gap(lines, a, p + 1, e);
        lemma_count_step(lines, a, e);
    }
}

/// Lines `start + 1` through `start + len` of a site, written `a-b`.
pub open spec fn location(start: int, len: int) -> Seq<char> {
    decimal((start + 1) as nat) + "-"@ + decimal((start + len) as nat)
}

/// The sites' locations, separated by `, `.
pub open spec fn locations(sites: Seq<usize>, len: int) -> Seq<char>
    decreases sites.len(),
{
    if sites.len() == 0 {
        Seq::empty()
    } else if sites.len() == 1 {
        location(sites[0] as int, len)
    } else {
        locations(sites.drop_last(), len) + ", "@ + location(sites.last() as int, len)
    }
}

/// The DUP001 message for `m` meaningful lines of `len` lines at `sites`.
pub open spec fn dup_message(m: nat, len: int, sites: Seq<usize>) -> Seq<char> {
    decimal(m) + " meaningful lines repeat at "@ + decimal(sites.len()) + " non-overlapping sites in this file. Locations: "@
        + locations(sites, len)
        + ".\n\nWhy:\n- Less repeated code is easier to audit and keep consistent.\n\nSuggestions:\n- Consider a constructor or helper if it preserves behavior, contracts, and performance.\n- A useful refactor may not clear this reminder. That is OK; do not force further changes just to silence it."@
}

/// Render one group, with the query once and every other selected site.
fn diagnostic(group: &Group, anchor: usize, sites: &Vec<usize>) -> (r: Diagnostic)
    requires
        forall|j: int| 0 <= j < sites.len() ==> #[trigger] sites@[j] + group.length < usize::MAX,
        anchor < usize::MAX,
    ensures
        r.severity == Severity::Reminder,
        r.code@ == CODE_DUPLICATION@,
        r.title is None,
        r.message@ == dup_message(group.meaningful as nat, group.length as int, sites@),
        r.line == anchor + 1,
        r.item_kind@ == "source sequence"@,
        r.item_name is None,
{
    let mut message = decimal_string(group.meaningful);
    push_str(&mut message, " meaningful lines repeat at ");
    push_str(&mut message, decimal_string(sites.len()).as_str());
    push_str(&mut message, " non-overlapping sites in this file. Locations: ");
    let ghost head = message@;
    let mut index: usize = 0;
    while index < sites.len()
        invariant
            forall|j: int| 0 <= j < sites.len() ==> #[trigger] sites@[j] + group.length < usize::MAX,
            index <= sites.len(),
            message@ == head + locations(sites@.take(index as int), group.length as int),
        decreases sites.len() - index,
    {
        let start = sites[index];
        let ghost before = message@;
        if index != 0 {
            push_str(&mut message, ", ");
        }
        push_str(&mut message, decimal_string(start + 1).as_str());
        push_str(&mut message, "-");
        push_str(&mut message, decimal_string(start + group.length).as_str());
        proof {
            let t = sites@.take(index + 1);
            assert(t.drop_last() =~= sites@.take(index as int));
            assert(t.last() == start);
            if index == 0 {
                assert(locations(sites@.take(0), group.length as int) =~= Seq::<char>::empty());
            }
            assert(message@ =~= head + locations(t, group.length as int));
        }
        index += 1;
    }
    assert(sites@.take(sites.len() as int) =~= sites@);
    push_str(
        &mut message,
        ".\n\nWhy:\n- Less repeated code is easier to audit and keep consistent.\n\nSuggestions:\n- Consider a constructor or helper if it preserves behavior, contracts, and performance.\n- A useful refactor may not clear this reminder. That is OK; do not force further changes just to silence it.",
    );
    Diagnostic {
        severity: Severity::Reminder,
        code: CODE_DUPLICATION,
        title: None,
        message,
        line: anchor + 1,
        item_kind: owned("source sequence"),
        item_name: None,
    }
}

/// `a` comes before `b` by line, then by message.
pub open spec fn finding_lt(a: Diagnostic, b: Diagnostic) -> bool {
    a.line < b.line || (a.line == b.line && str_lt(a.message@, b.message@))
}

/// No finding of `v` comes before an earlier one.
pub open spec fn by_line(v: Seq<Diagnostic>) -> bool {
    forall|i: int, j: int| 0 <= i < j < v.len() ==> !finding_lt(#[trigger] v[j], #[trigger] v[i])
}

proof fn lemma_finding_asymmetric(a: Diagnostic, b: Diagnostic)
    ensures
        !(finding_lt(a, b) && finding_lt(b, a)),
{
    lemma_str_total(a.message@, b.message@);
}

proof fn lemma_finding_transitive(a: Diagnostic, b: Diagnostic, c: Diagnostic)
    requires
        finding_lt(a, b),
        finding_lt(b, c),
    ensures
        finding_lt(a, c),
{
    if a.line == b.line && b.line == c.line {
        lemma_str_transitive(a.message@, b.message@, c.message@);
    }
}

/// The findings ordered by line, then message.
/// A finding's sort key: its line and message.
pub open spec fn finding_key(d: Diagnostic) -> (int, Seq<char>) {
    (d.line as int, d.message@)
}

/// The sort keys of a list of findings.
pub open spec fn finding_keys(v: Seq<Diagnostic>) -> Seq<(int, Seq<char>)> {
    v.map_values(|d: Diagnostic| finding_key(d))
}

/// By line, then by message.
pub open spec fn key_before(a: (int, Seq<char>), b: (int, Seq<char>)) -> bool {
    a.0 < b.0 || (a.0 == b.0 && str_lt(a.1, b.1))
}

/// [`key_before`] as a value.
pub open spec fn key_order() -> spec_fn((int, Seq<char>), (int, Seq<char>)) -> bool {
    |a: (int, Seq<char>), b: (int, Seq<char>)| key_before(a, b)
}

fn sort_findings(findings: Vec<Diagnostic>) -> (r: Vec<Diagnostic>)
    ensures
        by_line(r@),
        r.len() == findings.len(),
        forall|k: int| 0 <= k < r.len() ==> findings@.contains(#[trigger] r@[k]),
        finding_keys(r@) == insertion_sorted(finding_keys(findings@), key_order()),
{
    let ghost input = findings@;
    let ghost ks = finding_keys(input);
    let mut rest = findings;
    let mut out: Vec<Diagnostic> = Vec::new();
    proof {
        assert(ks.skip(input.len() as int) =~= Seq::empty());
        assert(finding_keys(out@) =~= Seq::empty());
    }
    while rest.len() > 0
        invariant
            ks == finding_keys(input),
            finding_keys(out@) == insertion_sorted(ks.skip(rest.len() as int), key_order()),
            rest@ == input.take(rest.len() as int),
            rest.len() <= input.len(),
            out.len() + rest.len() == input.len(),
            by_line(out@),
            forall|k: int| 0 <= k < out.len() ==> input.contains(#[trigger] out@[k]),
        decreases rest.len(),
    {
        let d = rest.pop().unwrap();
        let ghost di = rest.len() as int;
        assert(input[di] == d);
        assert(rest@ =~= input.take(rest.len() as int));
        let mut p: usize = 0;
        while p < out.len() && !(d.line < out[p].line || (d.line == out[p].line && str_less(d.message.as_str(), out[p].message.as_str())))
            invariant
                p <= out.len(),
                forall|i: int| 0 <= i < p ==> !finding_lt(d, #[trigger] out@[i]),
            decreases out.len() - p,
        {
            p += 1;
        }
        let ghost prev = out@;
        out.insert(p, d);
        proof {
            assert(out@ =~= prev.insert(p as int, d));
            lemma_insertion_step(ks, key_order(), di + 1);
            assert forall|i: int| 0 <= i < p implies !(key_order())(finding_key(d), #[trigger] finding_keys(prev)[i]) by {
                assert(finding_keys(prev)[i] == finding_key(prev[i]));
            }
            if p < prev.len() {
                assert(finding_keys(prev)[p as int] == finding_key(prev[p as int]));
            }
            lemma_first_greater(finding_keys(prev), finding_key(d), key_order(), 0, p as int);
            assert(ks[di] == finding_key(d));
            assert(finding_keys(out@) =~= finding_keys(prev).insert(p as int, finding_key(d)));
            assert forall|i: int, j: int| 0 <= i < j < out.len() implies !finding_lt(#[trigger] out@[j], #[trigger] out@[i]) by {
                if j < p {
                    assert(out@[i] == prev[i] && out@[j] == prev[j]);
                } else if j == p {
                    assert(out@[i] == prev[i]);
                } else if i < p {
                    assert(out@[i] == prev[i] && out@[j] == prev[j - 1]);
                } else if i == p {
                    assert(out@[j] == prev[j - 1]);
                    assert(finding_lt(d, prev[p as int]));
                    lemma_finding_asymmetric(d, prev[p as int]);
                    if j - 1 > p && finding_lt(prev[j - 1], d) {
                        lemma_finding_transitive(prev[j - 1], d, prev[p as int]);
                    }
                } else {
                    assert(out@[i] == prev[i - 1] && out@[j] == prev[j - 1]);
                }
            }
            assert forall|k: int| 0 <= k < out.len() implies input.contains(#[trigger] out@[k]) by {
                if k < p {
                    assert(out@[k] == prev[k]);
                } else if k == p {
                    assert(input[di] == out@[k]);
                } else {
                    assert(out@[k] == prev[k - 1]);
                }
            }
        }
    }
    assert(ks.skip(0) =~= ks);
    out
}

/// `d` reports a repeat of `len` lines holding `m` meaningful lines,
/// from a meaningful first line to a meaningful last one, at the
/// non-overlapping `sites` of the normalized lines `ls`, anchored at the
/// eligible query `anchor`.
pub open spec fn repeat_witness(
    d: Diagnostic,
    ls: Seq<Seq<char>>,
    query_end: Seq<usize>,
    config: DuplicationConfig,
    sites: Seq<usize>,
    len: int,
    m: int,
    anchor: int,
) -> bool {
    &&& len > 0
    &&& m >= config.min_meaningful_lines
    &&& sites.len() >= config.min_occurrences
    &&& packed(sites, len)
    &&& sites.contains(anchor as usize)
    &&& 0 <= anchor
    &&& anchor + len <= ls.len()
    &&& query_end[anchor] >= anchor + len
    &&& forall|j: int|
        0 <= j < sites.len() ==> #[trigger] sites[j] + len <= ls.len() && ls.subrange(sites[j] as int, sites[j] + len) == ls.subrange(
            anchor,
            anchor + len,
        )
    &&& meaningful_line(ls[anchor])
    &&& meaningful_line(ls[anchor + len - 1])
    &&& count_meaningful(ls.subrange(anchor, anchor + len)) == m
    &&& d.severity == Severity::Reminder
    &&& d.code@ == CODE_DUPLICATION@
    &&& d.title is None
    &&& d.item_kind@ == "source sequence"@
    &&& d.item_name is None
    &&& d.line == anchor + 1
    &&& d.message@ == dup_message(m as nat, len, sites)
}

/// `d` reports a real repeat in `ls`.
pub open spec fn reports_repeat(d: Diagnostic, ls: Seq<Seq<char>>, query_end: Seq<usize>, config: DuplicationConfig) -> bool {
    exists|sites: Seq<usize>, len: int, m: int, anchor: int| #[trigger] repeat_witness(d, ls, query_end, config, sites, len, m, anchor)
}

/// The hint rendered for a reported group is a real repeat.
proof fn lemma_report(lines: Lines, config: DuplicationConfig, g: Group, anchor: usize, sites: Seq<usize>, d: Diagnostic)
    requires
        lines.wf(),
        emitted(lines, g, config.min_meaningful_lines as int),
        sites.len() >= config.min_occurrences,
        packed(sites, g.length as int),
        sites.contains(anchor),
        forall|k: int| 0 <= k < sites.len() ==> g.starts@.contains(#[trigger] sites[k]),
        lines.query_end@[anchor as int] >= anchor + g.length,
        d.severity == Severity::Reminder,
        d.code@ == CODE_DUPLICATION@,
        d.title is None,
        d.item_kind@ == "source sequence"@,
        d.item_name is None,
        d.line == anchor + 1,
        d.message@ == dup_message(g.meaningful as nat, g.length as int, sites),
    ensures
        reports_repeat(d, lines.lines(), lines.query_end@, config),
{
    reveal(repeats);
    let len = g.length as int;
    let a = anchor as int;
    let ls = lines.lines();
    assert(g.starts@.contains(anchor));
    let ka = choose|ka: int| 0 <= ka < g.starts@.len() && g.starts@[ka] == anchor;
    assert(aligned(lines, a, len, g.meaningful as int));
    lemma_aligned_count(lines, a, len, g.meaningful as int);
    assert forall|j: int| 0 <= j < sites.len() implies #[trigger] sites[j] + len <= ls.len() && ls.subrange(sites[j] as int, sites[j] + len)
        == ls.subrange(a, a + len) by {
        assert(g.starts@.contains(sites[j]));
        let kj = choose|kj: int| 0 <= kj < g.starts@.len() && g.starts@[kj] == sites[j];
        assert(lines.span(sites[j] as int, len) == lines.span(g.starts@[0] as int, len));
        assert(lines.span(a, len) == lines.span(g.starts@[0] as int, len));
    }
    assert(repeat_witness(d, ls, lines.query_end@, config, sites, len, g.meaningful as int, a));
}

/// True when `source` holds a NUL character.
fn has_nul(source: &str) -> (r: bool)
    ensures
        r == source@.contains('\0'),
{
    let chars = chars_of(source);
    let mut i: usize = 0;
    while i < chars.len()
        invariant
            chars@ == source@,
            i <= chars.len(),
            forall|j: int| 0 <= j < i ==> chars@[j] != '\0',
        decreases chars.len() - i,
    {
        if chars[i] == '\0' {
            assert(source@[i as int] == '\0');
            return true;
        }
        i += 1;
    }
    false
}

/// True when some start of the group begins an eligible occurrence.
fn has_eligible_start(lines: &Lines, group: &Group) -> (r: bool)
    requires
        lines.wf(),
        repeats(*lines, *group),
    ensures
        r == exists|j: int|
            0 <= j < group.starts@.len() && lines.query_end@[#[trigger] group.starts@[j] as int] >= group.starts@[j]
                + group.length,
{
    proof {
        reveal(repeats);
    }
    let mut i: usize = 0;
    while i < group.starts.len()
        invariant
            lines.wf(),
            group.length > 0,
            forall|j: int| 0 <= j < group.starts@.len() ==> #[trigger] group.starts@[j] + group.length <= lines.n(),
            i <= group.starts.len(),
            forall|j: int|
                0 <= j < i ==> !(lines.query_end@[#[trigger] group.starts@[j] as int] >= group.starts@[j] + group.length),
        decreases group.starts.len() - i,
    {
        let start = group.starts[i];
        if lines.query_end[start] >= start + group.length {
            assert(lines.query_end@[group.starts@[i as int] as int] >= group.starts@[i as int] + group.length);
            return true;
        }
        i += 1;
    }
    false
}

/// A repeat of `len` lines holding `m` meaningful lines, from a meaningful
/// first line to a meaningful last one, at the non-overlapping `sites` of
/// the normalized lines `ls`, one of them the eligible occurrence `anchor`.
pub open spec fn repeat_shape(
    ls: Seq<Seq<char>>,
    query_end: Seq<usize>,
    config: DuplicationConfig,
    sites: Seq<usize>,
    len: int,
    m: int,
    anchor: int,
) -> bool {
    &&& len > 0
    &&& m >= config.min_meaningful_lines
    &&& sites.len() >= config.min_occurrences
    &&& packed(sites, len)
    &&& sites.contains(anchor as usize)
    &&& 0 <= anchor
    &&& anchor + len <= ls.len()
    &&& query_end[anchor] >= anchor + len
    &&& forall|j: int|
        0 <= j < sites.len() ==> #[trigger] sites[j] + len <= ls.len() && ls.subrange(sites[j] as int, sites[j] + len) == ls.subrange(
            anchor,
            anchor + len,
        )
    &&& meaningful_line(ls[anchor])
    &&& meaningful_line(ls[anchor + len - 1])
    &&& count_meaningful(ls.subrange(anchor, anchor + len)) == m
}

/// A span that begins and ends on meaningful lines and holds `m` of them
/// runs from the `k`-th meaningful line to the `(k + m - 1)`-th.
proof fn lemma_window_of(lines: Lines, s: int, len: int, m: int) -> (k: int)
    requires
        lines.wf(),
        0 <= s,
        len > 0,
        s + len <= lines.n(),
        m >= 1,
        meaningful_line(lines.lines()[s]),
        meaningful_line(lines.lines()[s + len - 1]),
        count_between(lines, s, s + len) == m,
    ensures
        0 <= k,
        k + m <= lines.meaningful@.len(),
        lines.meaningful@[k] == s,
        lines.meaningful@[k + m - 1] == s + len - 1,
{
    assert(lines.meaningful@.contains(s as usize));
    let k = choose|k: int| 0 <= k < lines.meaningful@.len() && lines.meaningful@[k] == s as usize;
    let e = s + len - 1;
    assert(lines.meaningful@.contains(e as usize));
    let k2 = choose|k2: int| 0 <= k2 < lines.meaningful@.len() && lines.meaningful@[k2] == e as usize;
    if k2 < k {
        assert(lines.meaningful@[k2] < lines.meaningful@[k]);
    }
    lemma_aligned_prefix(lines, k, k2 - k);
    k
}

/// A repeat of `m` meaningful lines begins with a repeat of any fewer
/// `m2 >= 1` of them: its prefix through its `m2`-th meaningful line.
proof fn lemma_shape_prefix(
    lines: Lines,
    config: DuplicationConfig,
    sites: Seq<usize>,
    len: int,
    m: int,
    anchor: int,
) -> (len2: int)
    requires
        lines.wf(),
        config.min_meaningful_lines >= 1,
        repeat_shape(lines.lines(), lines.query_end@, config, sites, len, m, anchor),
    ensures
        repeat_shape(lines.lines(), lines.query_end@, config, sites, len2, config.min_meaningful_lines as int, anchor),
{
    let ls = lines.lines();
    let m2 = config.min_meaningful_lines as int;
    let k = lemma_window_of(lines, anchor, len, m);
    let e2 = lines.meaningful@[k + m2 - 1] as int;
    if m2 - 1 > 0 {
        assert(lines.meaningful@[k] < lines.meaningful@[k + m2 - 1]);
    }
    if k + m2 - 1 < k + m - 1 {
        assert(lines.meaningful@[k + m2 - 1] < lines.meaningful@[k + m - 1]);
    }
    let len2 = e2 - anchor + 1;
    lemma_aligned_prefix(lines, k, m2 - 1);
    assert(count_between(lines, anchor, anchor + len2) == m2);
    assert forall|j: int| 0 <= j < sites.len() implies #[trigger] sites[j] + len2 <= ls.len() && ls.subrange(
        sites[j] as int,
        sites[j] + len2,
    ) == ls.subrange(anchor, anchor + len2) by {
        let sj = sites[j] as int;
        assert(ls.subrange(sj, sj + len) == ls.subrange(anchor, anchor + len));
        assert(ls.subrange(sj, sj + len2) =~= ls.subrange(sj, sj + len).subrange(0, len2));
        assert(ls.subrange(anchor, anchor + len2) =~= ls.subrange(anchor, anchor + len).subrange(0, len2));
    }
    assert forall|a: int, b: int| 0 <= a < b < sites.len() implies #[trigger] sites[a] + len2 <= #[trigger] sites[b] by {
        assert(sites[a] + len <= sites[b]);
    }
    len2
}

/// Windows of `minimum` meaningful lines with one text and one length lie
/// in one seed group, of that length.
proof fn lemma_same_group(lines: Lines, minimum: int, seeds: Seq<Group>, ka: int, kb: int, ga: int, gb: int, len: int)
    requires
        lines.wf(),
        minimum >= 1,
        forall|g: int| 0 <= g < seeds.len() ==> repeats(lines, #[trigger] seeds[g]) && seeds[g].meaningful == minimum,
        distinct_texts(lines, seeds),
        0 <= ga < seeds.len(),
        0 <= gb < seeds.len(),
        0 <= ka,
        ka + minimum <= lines.meaningful@.len(),
        0 <= kb,
        kb + minimum <= lines.meaningful@.len(),
        seeds[ga].starts@.contains(lines.meaningful@[ka]),
        seeds[gb].starts@.contains(lines.meaningful@[kb]),
        lines.meaningful@[ka + minimum - 1] == lines.meaningful@[ka] + len - 1,
        lines.meaningful@[kb + minimum - 1] == lines.meaningful@[kb] + len - 1,
        lines.span(lines.meaningful@[ka] as int, len) == lines.span(lines.meaningful@[kb] as int, len),
    ensures
        ga == gb,
        seeds[ga].length == len,
{
    reveal(repeats);
    let a = seeds[ga];
    let b = seeds[gb];
    let ja = choose|j: int| 0 <= j < a.starts@.len() && a.starts@[j] == lines.meaningful@[ka];
    let jb = choose|j: int| 0 <= j < b.starts@.len() && b.starts@[j] == lines.meaningful@[kb];
    assert(aligned(lines, a.starts@[ja] as int, a.length as int, a.meaningful as int));
    let xa = choose|x: int|
        0 <= x && x + minimum <= lines.meaningful@.len() && #[trigger] lines.meaningful@[x] == a.starts@[ja] as int
            && lines.meaningful@[x + minimum - 1] == a.starts@[ja] + a.length - 1;
    if xa != ka {
        if xa < ka {
            assert(lines.meaningful@[xa] < lines.meaningful@[ka]);
        } else {
            assert(lines.meaningful@[ka] < lines.meaningful@[xa]);
        }
    }
    assert(aligned(lines, b.starts@[jb] as int, b.length as int, b.meaningful as int));
    let xb = choose|x: int|
        0 <= x && x + minimum <= lines.meaningful@.len() && #[trigger] lines.meaningful@[x] == b.starts@[jb] as int
            && lines.meaningful@[x + minimum - 1] == b.starts@[jb] + b.length - 1;
    if xb != kb {
        if xb < kb {
            assert(lines.meaningful@[xb] < lines.meaningful@[kb]);
        } else {
            assert(lines.meaningful@[kb] < lines.meaningful@[xb]);
        }
    }
    assert(a.length == len && b.length == len);
    assert(lines.span(a.starts@[ja] as int, len) == lines.span(a.starts@[0] as int, len));
    assert(lines.span(b.starts@[jb] as int, len) == lines.span(b.starts@[0] as int, len));
    if ga < gb {
        assert(!(seeds[ga].length == seeds[gb].length && lines.span(seeds[ga].starts@[0] as int, seeds[ga].length as int)
            == lines.span(seeds[gb].starts@[0] as int, seeds[gb].length as int)));
    } else if gb < ga {
        assert(!(seeds[gb].length == seeds[ga].length && lines.span(seeds[gb].starts@[0] as int, seeds[gb].length as int)
            == lines.span(seeds[ga].starts@[0] as int, seeds[ga].length as int)));
    }
}

/// Some start from index `k` on anchors a packing once the start at `k0`
/// does.
proof fn lemma_first_anchor_found(starts: Seq<usize>, len: int, query_end: Seq<usize>, minimum: int, k: int, k0: int)
    requires
        0 <= k <= k0 < starts.len(),
        packs_at(starts, len, query_end, minimum, starts[k0] as int),
    ensures
        first_anchor(starts, len, query_end, minimum, k) is Some,
    decreases k0 - k,
{
    if !packs_at(starts, len, query_end, minimum, starts[k] as int) {
        lemma_first_anchor_found(starts, len, query_end, minimum, k + 1, k0);
    }
}

/// The first anchor is a start that anchors a packing.
proof fn lemma_first_anchor_in(starts: Seq<usize>, len: int, query_end: Seq<usize>, minimum: int, k: int)
    requires
        0 <= k,
    ensures
        first_anchor(starts, len, query_end, minimum, k) matches Some(a) ==> exists|j: int|
            k <= j < starts.len() && #[trigger] starts[j] == a && packs_at(starts, len, query_end, minimum, a as int),
    decreases starts.len() - k,
{
    if k < starts.len() && !packs_at(starts, len, query_end, minimum, starts[k] as int) {
        lemma_first_anchor_in(starts, len, query_end, minimum, k + 1);
    }
}

/// Every site of a repeat of exactly `m` meaningful lines lies in the seed
/// group `ga` of the anchor's window.
proof fn lemma_sites_in_group(
    lines: Lines,
    config: DuplicationConfig,
    seeds: Seq<Group>,
    sites: Seq<usize>,
    len: int,
    anchor: int,
    ka: int,
    ga: int,
)
    requires
        lines.wf(),
        config.min_meaningful_lines >= 1,
        forall|g: int|
            0 <= g < seeds.len() ==> repeats(lines, #[trigger] seeds[g]) && seeds[g].meaningful == config.min_meaningful_lines,
        distinct_texts(lines, seeds),
        forall|k: int|
            #![trigger lines.meaningful@[k]]
            0 <= k <= lines.meaningful.len() - config.min_meaningful_lines ==> exists|g: int|
                #![trigger seeds[g]]
                0 <= g < seeds.len() && seeds[g].starts@.contains(lines.meaningful@[k]),
        repeat_shape(lines.lines(), lines.query_end@, config, sites, len, config.min_meaningful_lines as int, anchor),
        0 <= ka,
        ka + config.min_meaningful_lines <= lines.meaningful@.len(),
        lines.meaningful@[ka] == anchor,
        lines.meaningful@[ka + config.min_meaningful_lines - 1] == anchor + len - 1,
        0 <= ga < seeds.len(),
        seeds[ga].starts@.contains(lines.meaningful@[ka]),
    ensures
        forall|j: int| 0 <= j < sites.len() ==> seeds[ga].starts@.contains(#[trigger] sites[j]),
{
    let m = config.min_meaningful_lines as int;
    let ls = lines.lines();
    assert forall|j: int| 0 <= j < sites.len() implies seeds[ga].starts@.contains(#[trigger] sites[j]) by {
        let sj = sites[j] as int;
        assert(ls.subrange(sj, sj + len) == ls.subrange(anchor, anchor + len));
        assert(ls[sj] == ls.subrange(sj, sj + len)[0]);
        assert(ls[anchor] == ls.subrange(anchor, anchor + len)[0]);
        assert(ls[sj + len - 1] == ls.subrange(sj, sj + len)[len - 1]);
        assert(ls[anchor + len - 1] == ls.subrange(anchor, anchor + len)[len - 1]);
        let kj = lemma_window_of(lines, sj, len, m);
        assert(lines.meaningful@[kj] == sj);
        assert(0 <= kj <= lines.meaningful.len() - config.min_meaningful_lines);
        let gj = choose|g: int| 0 <= g < seeds.len() && seeds[g].starts@.contains(lines.meaningful@[kj]);
        lemma_same_group(lines, m, seeds, ka, kj, ga, gj, len);
    }
}

/// A repeat of exactly the minimum number of meaningful lines puts its
/// text's seed group among those that select sites.
proof fn lemma_shape_selects(
    lines: Lines,
    config: DuplicationConfig,
    seeds: Seq<Group>,
    sites: Seq<usize>,
    len: int,
    anchor: int,
) -> (g: int)
    requires
        lines.wf(),
        config.min_meaningful_lines >= 1,
        forall|g: int|
            0 <= g < seeds.len() ==> repeats(lines, #[trigger] seeds[g]) && seeds[g].meaningful == config.min_meaningful_lines,
        distinct_texts(lines, seeds),
        forall|k: int|
            #![trigger lines.meaningful@[k]]
            0 <= k <= lines.meaningful.len() - config.min_meaningful_lines ==> exists|g: int|
                #![trigger seeds[g]]
                0 <= g < seeds.len() && seeds[g].starts@.contains(lines.meaningful@[k]),
        repeat_shape(lines.lines(), lines.query_end@, config, sites, len, config.min_meaningful_lines as int, anchor),
    ensures
        0 <= g < seeds.len(),
        select_spec(seeds[g].starts@, seeds[g].length as int, lines.query_end@, config.min_occurrences as int) is Some,
{
    let m = config.min_meaningful_lines as int;
    let qe = lines.query_end@;
    let mo = config.min_occurrences as int;
    let ka = lemma_window_of(lines, anchor, len, m);
    assert(0 <= ka <= lines.meaningful.len() - config.min_meaningful_lines);
    let ga = choose|g: int| 0 <= g < seeds.len() && seeds[g].starts@.contains(lines.meaningful@[ka]);
    lemma_sites_in_group(lines, config, seeds, sites, len, anchor, ka, ga);
    lemma_same_group(lines, m, seeds, ka, ka, ga, ga, len);
    let grp = seeds[ga];
    assert(increasing(grp.starts@) && grp.length > 0) by {
        assert(repeats(lines, grp));
        reveal(repeats);
    }
    assert(packing_in(grp.starts@, len, sites));
    assert(sites.contains(anchor as usize));
    assert(packs_through(grp, qe, mo, anchor));
    assert(grp.starts@.contains(anchor as usize));
    lemma_anchors_packing_iff(grp, qe, mo, anchor as usize);
    crate::dup001_duplication::groups::lemma_packing_size(grp.starts@, len, sites);
    let ja = choose|j: int| 0 <= j < grp.starts@.len() && grp.starts@[j] == anchor as usize;
    assert(packs_at(grp.starts@, len, qe, mo, grp.starts@[ja] as int));
    lemma_first_anchor_found(grp.starts@, len, qe, mo, 0, ja);
    ga
}

/// Some occurrence of the group `g` (starts, length, meaningful lines) is
/// eligible: its whole span lies in an eligible run.
pub open spec fn eligible_start(query_end: Seq<usize>, g: (Seq<usize>, usize, usize)) -> bool {
    exists|j: int| 0 <= j < g.0.len() && query_end[#[trigger] g.0[j] as int] >= g.0[j] + g.1
}

/// The groups found after the found groups `prev` meet the seed `s`: a
/// seed with enough starts, an eligible occurrence, and no found group
/// covering it is extended, and what the extension reports is added.
pub open spec fn seed_step(lines: Lines, prev: Seq<(Seq<usize>, usize, usize)>, s: (Seq<usize>, usize, usize), minimum: int) -> Seq<
    (Seq<usize>, usize, usize),
> {
    if s.0.len() >= minimum && eligible_start(lines.query_end@, s) && !(exists|k: int|
        0 <= k < prev.len() && crate::dup001_duplication::groups::covers_view(#[trigger] prev[k], s)) {
        prev + extend_spec(lines, s.0, s.1, s.2, minimum)
    } else {
        prev
    }
}

/// The groups found from the first `i` seeds, taken in order.
pub open spec fn found_from(lines: Lines, seeds: Seq<(Seq<usize>, usize, usize)>, minimum: int, i: int) -> Seq<
    (Seq<usize>, usize, usize),
>
    decreases i,
{
    if i <= 0 {
        Seq::empty()
    } else {
        seed_step(lines, found_from(lines, seeds, minimum, i - 1), seeds[i - 1], minimum)
    }
}

/// Meet one seed: extend it unless it lacks sites or an eligible
/// occurrence, or a found group already covers it.
fn take_seed(lines: &Lines, seed: &Group, minimum_sites: usize, found: &mut Vec<Group>)
    requires
        lines.wf(),
        lines.n() < usize::MAX,
        repeats(*lines, *seed),
        forall|k: int| 0 <= k < old(found).len() ==> emitted(*lines, #[trigger] old(found)@[k], seed.meaningful as int),
        forall|k: int| 0 <= k < old(found).len() ==> qualifies(#[trigger] old(found)@[k], lines.query_end@, minimum_sites as int),
    ensures
        group_views(final(found)@) == seed_step(*lines, group_views(old(found)@), group_view(*seed), minimum_sites as int),
        final(found).len() >= old(found).len(),
        forall|k: int| 0 <= k < final(found).len() ==> emitted(*lines, #[trigger] final(found)@[k], seed.meaningful as int),
        forall|k: int| 0 <= k < final(found).len() ==> qualifies(#[trigger] final(found)@[k], lines.query_end@, minimum_sites as int),
        select_spec(seed.starts@, seed.length as int, lines.query_end@, minimum_sites as int) is Some ==> final(found).len() > 0,
{
    let ghost qe = lines.query_end@;
    let ghost mo = minimum_sites as int;
    let ghost prevv = group_views(found@);
    let ghost sview = group_view(*seed);
    let ghost spec_cond = sview.0.len() >= mo && eligible_start(qe, sview) && !(exists|k: int|
        0 <= k < prevv.len() && crate::dup001_duplication::groups::covers_view(#[trigger] prevv[k], sview));
    let ghost selects = select_spec(seed.starts@, seed.length as int, qe, mo) is Some;
    proof {
        lemma_first_anchor_in(seed.starts@, seed.length as int, qe, mo, 0);
    }
    assert(seed.starts.len() > 0 && increasing(seed.starts@)) by {
        reveal(repeats);
    }
    if seed.starts.len() >= minimum_sites && has_eligible_start(lines, seed) {
        // An earlier extended sequence can cover a later window at every
        // site; independent extra occurrences keep the shorter seed.
        let mut covered = false;
        let mut k: usize = 0;
        while k < found.len()
            invariant
                forall|kk: int| 0 <= kk < found.len() ==> emitted(*lines, #[trigger] found@[kk], seed.meaningful as int),
                seed.starts.len() > 0,
                k <= found.len(),
                covered ==> found.len() > 0,
                covered == exists|kk: int| 0 <= kk < k && crate::dup001_duplication::groups::covers_spec(#[trigger] found@[kk], *seed),
            decreases found.len() - k,
        {
            proof {
                reveal(repeats);
            }
            if found[k].covers(seed) {
                covered = true;
            }
            k += 1;
        }
        proof {
            assert(eligible_start(qe, sview)) by {
                let j = choose|j: int|
                    0 <= j < seed.starts@.len() && lines.query_end@[#[trigger] seed.starts@[j] as int] >= seed.starts@[j]
                        + seed.length;
                assert(sview.0[j] == seed.starts@[j]);
            }
            assert(covered == exists|k: int|
                0 <= k < prevv.len() && crate::dup001_duplication::groups::covers_view(#[trigger] prevv[k], sview)) by {
                if covered {
                    let kk = choose|kk: int|
                        0 <= kk < found.len() && crate::dup001_duplication::groups::covers_spec(#[trigger] found@[kk], *seed);
                    assert(prevv[kk] == group_view(found@[kk]));
                    crate::dup001_duplication::groups::lemma_covers_view(found@[kk], *seed);
                    assert(crate::dup001_duplication::groups::covers_view(prevv[kk], sview));
                }
                if exists|k: int|
                    0 <= k < prevv.len() && crate::dup001_duplication::groups::covers_view(#[trigger] prevv[k], sview) {
                    let k = choose|k: int|
                        0 <= k < prevv.len() && crate::dup001_duplication::groups::covers_view(#[trigger] prevv[k], sview);
                    assert(prevv[k] == group_view(found@[k]));
                    crate::dup001_duplication::groups::lemma_covers_view(found@[k], *seed);
                    assert(crate::dup001_duplication::groups::covers_spec(found@[k], *seed));
                }
            }
            assert(spec_cond == !covered);
        }
        if !covered {
            let ghost before = found@;
            extend(lines, seed, minimum_sites, found);
            proof {
                assert forall|k: int| 0 <= k < found.len() implies emitted(*lines, #[trigger] found@[k], seed.meaningful as int) by {
                    if k < before.len() {
                        assert(found@[k] == before[k]);
                    }
                }
                assert forall|k: int| 0 <= k < found.len() implies qualifies(#[trigger] found@[k], qe, mo) by {
                    if k < before.len() {
                        assert(found@[k] == before[k]);
                    }
                }
            }
        }
    } else {
        proof {
            if seed.starts.len() >= minimum_sites && eligible_start(qe, sview) {
                let j = choose|j: int| 0 <= j < sview.0.len() && qe[#[trigger] sview.0[j] as int] >= sview.0[j] + sview.1;
                assert(seed.starts@[j] == sview.0[j]);
            }
            assert(!spec_cond);
            if selects {
                let a = first_anchor(seed.starts@, seed.length as int, qe, mo, 0)->0;
                let j = choose|j: int| 0 <= j < seed.starts@.len() && #[trigger] seed.starts@[j] == a && packs_at(
                    seed.starts@,
                    seed.length as int,
                    qe,
                    mo,
                    a as int,
                );
                assert(lines.query_end@[seed.starts@[j] as int] >= seed.starts@[j] + seed.length);
            }
        }
    }
}

/// The line and message of the finding for a consolidated group: its
/// first eligible anchor of a large enough packing, and the sites selected
/// around it.
pub open spec fn group_finding(gv: (Seq<usize>, usize, usize), query_end: Seq<usize>, minimum: int) -> (int, Seq<char>) {
    (
        first_anchor(gv.0, gv.1 as int, query_end, minimum, 0)->0 + 1,
        dup_message(gv.2 as nat, gv.1 as int, select_spec(gv.0, gv.1 as int, query_end, minimum)->0),
    )
}

/// The seed groups of `lines`: the one grouping that meets the seeding
/// contract.
pub open spec fn seed_views(lines: Lines, minimum: int) -> Seq<(Seq<usize>, usize, usize)> {
    choose|s: Seq<(Seq<usize>, usize, usize)>| seeds_viewed(lines, minimum, s)
}

/// `s` is the plain value of a grouping that meets the seeding contract.
pub open spec fn seeds_viewed(lines: Lines, minimum: int, s: Seq<(Seq<usize>, usize, usize)>) -> bool {
    exists|r: Seq<Group>| seeds_ok(lines, minimum, r) && #[trigger] group_views(r) == s
}

/// The lines and messages of the findings on `lines`, in report order:
/// the seeds taken in order and extended, the found groups consolidated,
/// one finding per remaining group, sorted by line, then message.
pub open spec fn findings_spec(lines: Lines, config: DuplicationConfig) -> Seq<(int, Seq<char>)> {
    let mo = config.min_occurrences as int;
    let seeds = seed_views(lines, config.min_meaningful_lines as int);
    let found = found_from(lines, seeds, mo, seeds.len() as int);
    insertion_sorted(
        crate::dup001_duplication::groups::consolidated(found).map_values(
            |gv: (Seq<usize>, usize, usize)| group_finding(gv, lines.query_end@, mo),
        ),
        key_order(),
    )
}

/// Any grouping that meets the seeding contract is the seed groups.
proof fn lemma_seed_views(lines: Lines, minimum: int, r: Seq<Group>)
    requires
        lines.wf(),
        minimum >= 1,
        seeds_ok(lines, minimum, r),
    ensures
        seed_views(lines, minimum) == group_views(r),
{
    assert(seeds_viewed(lines, minimum, group_views(r)));
    let s = seed_views(lines, minimum);
    let r2 = choose|r2: Seq<Group>| seeds_ok(lines, minimum, r2) && #[trigger] group_views(r2) == s;
    lemma_seeds_unique(lines, minimum, r2, r);
}

/// Some group of `r` holds the window starting at `x`.
pub open spec fn window_in(r: Seq<Group>, x: usize) -> bool {
    exists|g: int| #![trigger r[g]] 0 <= g < r.len() && r[g].starts@.contains(x)
}

/// Two line tables with the same lines, identities, meaningful lines and
/// eligible runs.
pub open spec fn same_lines(a: Lines, b: Lines) -> bool {
    &&& a.text@.len() == b.text@.len()
    &&& a.lines() == b.lines()
    &&& a.ids@ == b.ids@
    &&& a.meaningful@ == b.meaningful@
    &&& a.query_end@ == b.query_end@
}

proof fn lemma_next_meaningful_same(a: Lines, b: Lines, j: int)
    requires
        same_lines(a, b),
    ensures
        next_meaningful_from(a, j) == next_meaningful_from(b, j),
    decreases a.n() - j,
{
    if 0 <= j < a.n() && !meaningful_line(a.lines()[j]) {
        lemma_next_meaningful_same(a, b, j + 1);
    }
}

proof fn lemma_add_same(a: Lines, b: Lines, firsts: Seq<(usize, usize)>, members: Seq<Seq<usize>>, start: usize, length: usize, next: usize)
    requires
        same_lines(a, b),
    ensures
        add_spec(a, firsts, members, start, length, next) == add_spec(b, firsts, members, start, length, next),
{
    let (s, l, n) = (start as int, length as int, next as int);
    assert forall|x: int| first_branch(a, firsts, s, l, n, x) == first_branch(b, firsts, s, l, n, x) by {}
    if exists|x: int| first_branch(a, firsts, s, l, n, x) {
        let xa = choose|x: int| first_branch(a, firsts, s, l, n, x);
        let xb = choose|x: int| first_branch(b, firsts, s, l, n, x);
        assert(first_branch(b, firsts, s, l, n, xa));
        if xa < xb {
            assert(first_branch(b, firsts, s, l, n, xb));
        } else if xb < xa {
            assert(first_branch(a, firsts, s, l, n, xb));
        }
    }
}

proof fn lemma_branches_same(a: Lines, b: Lines, starts: Seq<usize>, length: usize, k: int)
    requires
        same_lines(a, b),
    ensures
        branches_fold(a, starts, length, k) == branches_fold(b, starts, length, k),
    decreases k,
{
    if k > 0 {
        lemma_branches_same(a, b, starts, length, k - 1);
        lemma_next_meaningful_same(a, b, starts[k - 1] + length);
        let prev = branches_fold(a, starts, length, k - 1);
        match next_meaningful_from(a, starts[k - 1] + length) {
            Some(n) => lemma_add_same(a, b, prev.0, prev.1, starts[k - 1], length, n),
            None => {},
        }
    }
}

proof fn lemma_extend_same(a: Lines, b: Lines, starts: Seq<usize>, length: usize, meaningful: usize, minimum: int)
    requires
        same_lines(a, b),
    ensures
        extend_spec(a, starts, length, meaningful, minimum) == extend_spec(b, starts, length, meaningful, minimum),
    decreases a.n() - length, 1int, 0int,
{
    lemma_branches_same(a, b, starts, length, starts.len() as int);
    match select_spec(starts, length as int, a.query_end@, minimum) {
        None => {},
        Some(sites) => {
            let f = branches_fold(a, starts, length, starts.len() as int);
            let kids = kept_children(length, meaningful, f.0, f.1, a.query_end@, minimum, f.0.len() as int);
            lemma_extend_kids_same(a, b, kids, length, minimum);
        },
    }
}

proof fn lemma_extend_kids_same(a: Lines, b: Lines, kids: Seq<(Seq<usize>, usize, usize)>, bound: usize, minimum: int)
    requires
        same_lines(a, b),
    ensures
        extend_kids(a, kids, bound, minimum) == extend_kids(b, kids, bound, minimum),
    decreases a.n() - bound, 0int, kids.len(),
{
    if kids.len() > 0 {
        if bound < kids[0].1 <= a.n() {
            lemma_extend_same(a, b, kids[0].0, kids[0].1, kids[0].2, minimum);
        }
        lemma_extend_kids_same(a, b, kids.drop_first(), bound, minimum);
    }
}

proof fn lemma_found_same(a: Lines, b: Lines, seeds: Seq<(Seq<usize>, usize, usize)>, minimum: int, i: int)
    requires
        same_lines(a, b),
    ensures
        found_from(a, seeds, minimum, i) == found_from(b, seeds, minimum, i),
    decreases i,
{
    if i > 0 {
        lemma_found_same(a, b, seeds, minimum, i - 1);
        let s = seeds[i - 1];
        lemma_extend_same(a, b, s.0, s.1, s.2, minimum);
    }
}

proof fn lemma_seeds_ok_same(a: Lines, b: Lines, minimum: int, r: Seq<Group>)
    requires
        minimum >= 1,
        same_lines(a, b),
        seeds_ok(a, minimum, r),
    ensures
        seeds_ok(b, minimum, r),
{
    reveal(repeats);
    assert forall|g: int| 0 <= g < r.len() implies repeats(b, #[trigger] r[g]) && r[g].meaningful == minimum by {
        assert(repeats(a, r[g]));
        assert forall|j: int| 0 <= j < r[g].starts@.len() implies aligned(b, #[trigger] r[g].starts@[j] as int, r[g].length as int, r[g].meaningful as int) by {
            assert(aligned(a, r[g].starts@[j] as int, r[g].length as int, r[g].meaningful as int));
        }
        assert forall|j: int| 0 <= j < r[g].starts@.len() implies b.span(#[trigger] r[g].starts@[j] as int, r[g].length as int) == b.span(
            r[g].starts@[0] as int,
            r[g].length as int,
        ) by {
            assert(a.span(r[g].starts@[j] as int, r[g].length as int) == a.span(r[g].starts@[0] as int, r[g].length as int));
        }
    }
    assert(distinct_texts(b, r)) by {
        assert forall|g1: int, g2: int| 0 <= g1 < g2 < r.len() implies !(#[trigger] r[g1].length == #[trigger] r[g2].length
            && b.span(r[g1].starts@[0] as int, r[g1].length as int) == b.span(r[g2].starts@[0] as int, r[g2].length as int)) by {
            assert(a.span(r[g1].starts@[0] as int, r[g1].length as int) == b.span(r[g1].starts@[0] as int, r[g1].length as int));
            assert(a.span(r[g2].starts@[0] as int, r[g2].length as int) == b.span(r[g2].starts@[0] as int, r[g2].length as int));
        }
    }
    assert(a.meaningful@ == b.meaningful@);
    assert forall|k: int| 0 <= k <= b.meaningful.len() - minimum implies window_in(r, #[trigger] b.meaningful@[k]) by {
        assert(a.meaningful@[k] == b.meaningful@[k]);
        assert(0 <= k <= a.meaningful.len() - minimum);
        assert(window_in(r, a.meaningful@[k]));
    }
}

/// Two line tables read from the same source agree.
proof fn lemma_lines_agree(a: Lines, b: Lines, source: Seq<char>, exact: bool, spans: Seq<(usize, usize)>)
    requires
        a.of(source, exact, spans),
        b.of(source, exact, spans),
        a.ids@ == intern_ids(texts(source, exact)),
        b.ids@ == intern_ids(texts(source, exact)),
    ensures
        same_lines(a, b),
{
    assert(a.lines().len() == a.text@.len());
    assert(b.lines().len() == b.text@.len());
    assert(increasing(a.meaningful@)) by {
        assert forall|i: int, j: int| 0 <= i < j < a.meaningful@.len() implies a.meaningful@[i] < a.meaningful@[j] by {}
    }
    assert(increasing(b.meaningful@)) by {
        assert forall|i: int, j: int| 0 <= i < j < b.meaningful@.len() implies b.meaningful@[i] < b.meaningful@[j] by {}
    }
    assert forall|x: usize| a.meaningful@.contains(x) <==> b.meaningful@.contains(x) by {
        if a.meaningful@.contains(x) {
            let k = choose|k: int| 0 <= k < a.meaningful@.len() && a.meaningful@[k] == x;
            assert(meaningful_line(a.lines()[a.meaningful@[k] as int]));
            assert(meaningful_line(b.lines()[x as int]));
        }
        if b.meaningful@.contains(x) {
            let k = choose|k: int| 0 <= k < b.meaningful@.len() && b.meaningful@[k] == x;
            assert(meaningful_line(b.lines()[b.meaningful@[k] as int]));
            assert(meaningful_line(a.lines()[x as int]));
        }
    }
    lemma_increasing_same_members(a.meaningful@, b.meaningful@);
}

/// `r` holds the findings, in report order, of the duplicate search over
/// the line table of `source`: what `analyze` states of its result, under
/// whatever fingerprint mask.
pub open spec fn findings_of(source: Seq<char>, eligible: Seq<(usize, usize)>, config: DuplicationConfig, r: Seq<Diagnostic>) -> bool {
    exists|l: Lines|
        #[trigger] l.of(source, config.exact_whitespace, eligible) && l.ids@ == intern_ids(texts(source, config.exact_whitespace))
            && seeds_viewed(l, config.min_meaningful_lines as int, seed_views(l, config.min_meaningful_lines as int))
            && finding_keys(r) == findings_spec(l, config)
}

/// The findings do not depend on the fingerprint mask: two runs of the
/// search on one input report the same lines and messages in the same order.
pub proof fn lemma_findings_mask_free(
    source: Seq<char>,
    eligible: Seq<(usize, usize)>,
    config: DuplicationConfig,
    r1: Seq<Diagnostic>,
    r2: Seq<Diagnostic>,
)
    requires
        config.min_meaningful_lines >= 1,
        findings_of(source, eligible, config, r1),
        findings_of(source, eligible, config, r2),
    ensures
        finding_keys(r1) == finding_keys(r2),
{
    let m = config.min_meaningful_lines as int;
    let l1 = choose|l: Lines|
        #[trigger] l.of(source, config.exact_whitespace, eligible) && l.ids@ == intern_ids(texts(source, config.exact_whitespace))
            && seeds_viewed(l, m, seed_views(l, m)) && finding_keys(r1) == findings_spec(l, config);
    let l2 = choose|l: Lines|
        #[trigger] l.of(source, config.exact_whitespace, eligible) && l.ids@ == intern_ids(texts(source, config.exact_whitespace))
            && seeds_viewed(l, m, seed_views(l, m)) && finding_keys(r2) == findings_spec(l, config);
    lemma_lines_agree(l1, l2, source, config.exact_whitespace, eligible);
    let s1 = seed_views(l1, m);
    let s2 = seed_views(l2, m);
    let ra = choose|r: Seq<Group>| seeds_ok(l1, m, r) && #[trigger] group_views(r) == s1;
    let rb = choose|r: Seq<Group>| seeds_ok(l2, m, r) && #[trigger] group_views(r) == s2;
    lemma_seeds_ok_same(l1, l2, m, ra);
    lemma_seeds_unique(l2, m, ra, rb);
    let mo = config.min_occurrences as int;
    lemma_found_same(l1, l2, s1, mo, s1.len() as int);
    assert(findings_spec(l1, config) == findings_spec(l2, config));
}

/// The file holds a repeat that qualifies for a finding: at least the
/// minimum number of meaningful lines at enough non-overlapping sites, one
/// of them an eligible occurrence.
pub open spec fn has_qualifying_repeat(source: Seq<char>, eligible: Seq<(usize, usize)>, config: DuplicationConfig) -> bool {
    exists|sites: Seq<usize>, len: int, m: int, anchor: int|
        #[trigger] repeat_shape(
            texts(source, config.exact_whitespace),
            query_ends(eligible, eligible.len() as int, texts(source, config.exact_whitespace).len() as int),
            config,
            sites,
            len,
            m,
            anchor,
        )
}

/// `r` is a possible outcome of the duplicate search on `source`: what
/// `analyze` states of its result, under whatever fingerprint mask.
pub open spec fn analysis_of(source: Seq<char>, eligible: Seq<(usize, usize)>, config: DuplicationConfig, r: Seq<Diagnostic>) -> bool {
    &&& (eligible.len() == 0 || source.contains('\0') || config.min_meaningful_lines == 0 || config.min_occurrences < 2)
        ==> r.len() == 0
    &&& forall|i: int|
        0 <= i < r.len() ==> reports_repeat(
            #[trigger] r[i],
            texts(source, config.exact_whitespace),
            query_ends(eligible, eligible.len() as int, texts(source, config.exact_whitespace).len() as int),
            config,
        )
    &&& by_line(r)
    &&& has_qualifying_repeat(source, eligible, config) && eligible.len() > 0 && !source.contains('\0')
        && config.min_meaningful_lines > 0 && config.min_occurrences >= 2 ==> r.len() > 0
}

/// The search reports something exactly when the file holds a qualifying
/// repeat (and the input is not one that is never searched); so whether it
/// reports does not depend on the fingerprint mask.
pub proof fn lemma_reports_iff_qualifying_repeat(
    source: Seq<char>,
    eligible: Seq<(usize, usize)>,
    config: DuplicationConfig,
    r: Seq<Diagnostic>,
)
    requires
        analysis_of(source, eligible, config, r),
    ensures
        r.len() > 0 <==> (has_qualifying_repeat(source, eligible, config) && eligible.len() > 0 && !source.contains('\0')
            && config.min_meaningful_lines > 0 && config.min_occurrences >= 2),
{
    if r.len() > 0 {
        let ls = texts(source, config.exact_whitespace);
        let qe = query_ends(eligible, eligible.len() as int, ls.len() as int);
        assert(reports_repeat(r[0], ls, qe, config));
        let (sites, len, m, anchor) = choose|sites: Seq<usize>, len: int, m: int, anchor: int|
            #[trigger] repeat_witness(r[0], ls, qe, config, sites, len, m, anchor);
        assert(repeat_shape(ls, qe, config, sites, len, m, anchor));
    }
}

/// Runs of the search under two fingerprint masks agree on whether there
/// is any finding.
pub proof fn lemma_presence_mask_free(
    source: Seq<char>,
    eligible: Seq<(usize, usize)>,
    config: DuplicationConfig,
    r1: Seq<Diagnostic>,
    r2: Seq<Diagnostic>,
)
    requires
        analysis_of(source, eligible, config, r1),
        analysis_of(source, eligible, config, r2),
    ensures
        r1.len() > 0 <==> r2.len() > 0,
{
    lemma_reports_iff_qualifying_repeat(source, eligible, config, r1);
    lemma_reports_iff_qualifying_repeat(source, eligible, config, r2);
}

/// Render the finding for one consolidated group and add it.
fn emit_group(lines: &Lines, config: DuplicationConfig, group: &Group, findings: &mut Vec<Diagnostic>)
    requires
        lines.wf(),
        lines.n() < usize::MAX,
        emitted(*lines, *group, config.min_meaningful_lines as int),
        qualifies(*group, lines.query_end@, config.min_occurrences as int),
    ensures
        final(findings).len() == old(findings).len() + 1,
        final(findings)@.drop_last() == old(findings)@,
        finding_key(final(findings)@.last()) == group_finding(group_view(*group), lines.query_end@, config.min_occurrences as int),
        reports_repeat(final(findings)@.last(), lines.lines(), lines.query_end@, config),
{
    let ghost qe = lines.query_end@;
    let ghost mo = config.min_occurrences as int;
    proof {
        reveal(repeats);
    }
    let picked = select_sites(group, &lines.query_end, config.min_occurrences);
    proof {
        lemma_select(*group, qe, config.min_occurrences, picked);
    }
    match picked {
        Some((anchor, sites)) => {
            proof {
                let ka = choose|k: int|
                    0 <= k < group.starts@.len() && #[trigger] group.starts@[k] == anchor && forall|kk: int|
                        0 <= kk < k ==> !crate::dup001_duplication::groups::anchors_packing(*group, qe, mo, #[trigger] group.starts@[kk] as int);
                assert forall|kk: int| 0 <= kk < ka && kk < group.starts@.len() implies !packs_at(
                    group.starts@,
                    group.length as int,
                    qe,
                    mo,
                    #[trigger] group.starts@[kk] as int,
                ) by {
                    assert(!crate::dup001_duplication::groups::anchors_packing(*group, qe, mo, group.starts@[kk] as int));
                }
                lemma_first_anchor(group.starts@, group.length as int, qe, mo, 0, ka);
            }
            proof {
                reveal(repeats);
                assert forall|j: int| 0 <= j < sites.len() implies #[trigger] sites@[j] + group.length < usize::MAX by {
                    assert(group.starts@.contains(sites@[j]));
                    let q = choose|q: int| 0 <= q < group.starts@.len() && group.starts@[q] == sites@[j];
                }
                assert(group.starts@.contains(anchor));
                let qa = choose|qa: int| 0 <= qa < group.starts@.len() && group.starts@[qa] == anchor;
            }
            let d = diagnostic(group, anchor, &sites);
            proof {
                lemma_report(*lines, config, *group, anchor, sites@, d);
            }
            findings.push(d);
        },
        None => {
            proof {
                let k = choose|k: int|
                    0 <= k < group.starts@.len() && crate::dup001_duplication::groups::anchors_packing(
                        *group,
                        qe,
                        mo,
                        #[trigger] group.starts@[k] as int,
                    );
                assert(false);
            }
        },
    }
    proof {
        assert(findings@.drop_last() =~= old(findings)@);
    }
}

/// Analyze one source buffer without I/O or edits, with `fingerprint_mask`
/// applied to every fingerprint. No eligible line, a NUL character (a
/// binary buffer), a zero line threshold or a site threshold below two
/// yield no finding. Every finding is a real repeat at enough
/// non-overlapping sites; and a repeat of at least the minimum number of
/// meaningful lines at enough non-overlapping sites, one of them an
/// eligible occurrence, yields at least one finding.
#[verifier::rlimit(60)]
pub fn analyze(source: &str, eligible: &ChangedLines, config: DuplicationConfig, fingerprint_mask: u64) -> (r: Vec<Diagnostic>)
    requires
        source@.len() < usize::MAX,
    ensures
        (eligible.spans().len() == 0 || source@.contains('\0') || config.min_meaningful_lines == 0 || config.min_occurrences
            < 2) ==> r.len() == 0,
        forall|i: int|
            0 <= i < r.len() ==> reports_repeat(
                #[trigger] r@[i],
                texts(source@, config.exact_whitespace),
                query_ends(eligible.spans(), eligible.spans().len() as int, texts(source@, config.exact_whitespace).len() as int),
                config,
            ),
        by_line(r@),
        (exists|sites: Seq<usize>, len: int, m: int, anchor: int|
            #[trigger] repeat_shape(
                texts(source@, config.exact_whitespace),
                query_ends(eligible.spans(), eligible.spans().len() as int, texts(source@, config.exact_whitespace).len() as int),
                config,
                sites,
                len,
                m,
                anchor,
            )) && eligible.spans().len() > 0 && !source@.contains('\0') && config.min_meaningful_lines > 0
            && config.min_occurrences >= 2 ==> r.len() > 0,
        analysis_of(source@, eligible.spans(), config, r@),
        !(eligible.spans().len() == 0 || source@.contains('\0') || config.min_meaningful_lines == 0
            || config.min_occurrences < 2) ==> exists|l: Lines|
            #[trigger] l.of(source@, config.exact_whitespace, eligible.spans()) && finding_keys(r@) == findings_spec(l, config),
        !(eligible.spans().len() == 0 || source@.contains('\0') || config.min_meaningful_lines == 0
            || config.min_occurrences < 2) ==> findings_of(source@, eligible.spans(), config, r@),
{
    let ghost hyp0 = exists|sites: Seq<usize>, len: int, m: int, anchor: int|
        #[trigger] repeat_shape(
            texts(source@, config.exact_whitespace),
            query_ends(eligible.spans(), eligible.spans().len() as int, texts(source@, config.exact_whitespace).len() as int),
            config,
            sites,
            len,
            m,
            anchor,
        );
    if eligible.is_empty() || has_nul(source) {
        return Vec::new();
    }
    let lines = Lines::new(source, eligible, config.exact_whitespace);
    proof {
        lemma_pieces_len(source@, 0, 0);
        assert(lines.lines().len() == lines.n());
        assert(texts(source@, config.exact_whitespace).len() == line_pieces(source@).len());
    }
    let minimum = config.min_meaningful_lines;
    let ghost qe = lines.query_end@;
    let ghost mo = config.min_occurrences as int;
    let ghost hyp = exists|sites: Seq<usize>, len: int, anchor: int|
        #[trigger] repeat_shape(lines.lines(), qe, config, sites, len, config.min_meaningful_lines as int, anchor);
    proof {
        if hyp0 && minimum > 0 {
            let (sites, len, m, anchor) = choose|sites: Seq<usize>, len: int, m: int, anchor: int|
                #[trigger] repeat_shape(lines.lines(), qe, config, sites, len, m, anchor);
            let len2 = lemma_shape_prefix(lines, config, sites, len, m, anchor);
            assert(repeat_shape(lines.lines(), qe, config, sites, len2, config.min_meaningful_lines as int, anchor));
        }
        if hyp && minimum > 0 {
            let (sites, len, anchor) = choose|sites: Seq<usize>, len: int, anchor: int|
                #[trigger] repeat_shape(lines.lines(), qe, config, sites, len, config.min_meaningful_lines as int, anchor);
            lemma_window_of(lines, anchor, len, minimum as int);
        }
    }
    if minimum == 0 || config.min_occurrences < 2 || minimum > lines.meaningful.len() {
        proof {
            if minimum > 0 && minimum > lines.meaningful.len() {
                assert(seeds_ok(lines, minimum as int, Seq::<Group>::empty()));
                lemma_seed_views(lines, minimum as int, Seq::<Group>::empty());
                assert(group_views(Seq::<Group>::empty()) =~= Seq::empty());
                let e: Seq<(Seq<usize>, usize, usize)> = Seq::empty();
                assert(found_from(lines, e, mo, 0) =~= e);
                assert(insertion_sorted(e, crate::dup001_duplication::groups::view_order()) =~= e);
                assert(crate::dup001_duplication::groups::consolidated(e) =~= e);
                let m = e.map_values(|gv: (Seq<usize>, usize, usize)| group_finding(gv, lines.query_end@, mo));
                assert(m =~= Seq::empty());
                assert(insertion_sorted(m, key_order()) =~= Seq::empty());
                assert(finding_keys(Seq::<Diagnostic>::empty()) =~= findings_spec(lines, config));
                assert(lines.of(source@, config.exact_whitespace, eligible.spans()));
                assert(seeds_viewed(lines, minimum as int, group_views(Seq::<Group>::empty())));
            }
        }
        return Vec::new();
    }
    let seeds = seed_groups(&lines, minimum, fingerprint_mask);
    let ghost some_seed = exists|gg: int|
        0 <= gg < seeds.len() && (#[trigger] select_spec(seeds@[gg].starts@, seeds@[gg].length as int, qe, mo)) is Some;
    proof {
        if hyp {
            let (sites, len, anchor) = choose|sites: Seq<usize>, len: int, anchor: int|
                #[trigger] repeat_shape(lines.lines(), qe, config, sites, len, config.min_meaningful_lines as int, anchor);
            let g = lemma_shape_selects(lines, config, seeds@, sites, len, anchor);
            assert(select_spec(seeds@[g].starts@, seeds@[g].length as int, qe, mo) is Some);
        }
    }
    let ghost sv = group_views(seeds@);
    let mut found: Vec<Group> = Vec::new();
    let mut i: usize = 0;
    proof {
        assert(group_views(found@) =~= found_from(lines, sv, mo, 0));
    }
    while i < seeds.len()
        invariant
            sv == group_views(seeds@),
            group_views(found@) == found_from(lines, sv, mo, i as int),
            lines.wf(),
            lines.n() < usize::MAX,
            forall|g: int| 0 <= g < seeds.len() ==> repeats(lines, #[trigger] seeds@[g]) && seeds@[g].meaningful == minimum,
            forall|k: int| 0 <= k < found.len() ==> emitted(lines, #[trigger] found@[k], minimum as int),
            i <= seeds.len(),
            qe == lines.query_end@,
            mo == config.min_occurrences,
            forall|k: int| 0 <= k < found.len() ==> qualifies(#[trigger] found@[k], qe, mo),
            (exists|gg: int|
                0 <= gg < i && (#[trigger] select_spec(seeds@[gg].starts@, seeds@[gg].length as int, qe, mo)) is Some)
                ==> found.len() > 0,
        decreases seeds.len() - i,
    {
        let seed = &seeds[i];
        proof {
            assert(sv[i as int] == group_view(*seed));
        }
        take_seed(&lines, seed, config.min_occurrences, &mut found);
        proof {
            if exists|gg: int|
                0 <= gg < i + 1 && (#[trigger] select_spec(seeds@[gg].starts@, seeds@[gg].length as int, qe, mo)) is Some {
                let gg = choose|gg: int|
                    0 <= gg < i + 1 && (#[trigger] select_spec(seeds@[gg].starts@, seeds@[gg].length as int, qe, mo)) is Some;
                if gg < i {
                    assert(found.len() > 0);
                }
            }
        }
        proof {
            assert(group_views(found@) == found_from(lines, sv, mo, i + 1));
        }
        i += 1;
    }
    assert(some_seed ==> found.len() > 0);
    proof {
        assert forall|k: int| 0 <= k < found.len() implies shaped(#[trigger] found@[k]) by {}
    }
    proof {
        lemma_seed_views(lines, minimum as int, seeds@);
    }
    let ghost unsorted = found@;
    consolidate(&mut found);
    let ghost cv = group_views(found@);
    proof {
        if unsorted.len() > 0 {
            if !found@.contains(unsorted[0]) {
                let k = choose|k: int|
                    0 <= k < found.len() && crate::dup001_duplication::groups::covers_spec(#[trigger] found@[k], unsorted[0]);
            }
        }
    }
    let ghost kept = found.len();
    let mut findings: Vec<Diagnostic> = Vec::new();
    let mut g: usize = 0;
    while g < found.len()
        invariant
            lines.wf(),
            lines.n() < usize::MAX,
            lines.of(source@, config.exact_whitespace, eligible.spans()),
            minimum == config.min_meaningful_lines,
            forall|k: int| 0 <= k < found.len() ==> unsorted.contains(#[trigger] found@[k]),
            forall|k: int| 0 <= k < unsorted.len() ==> emitted(lines, #[trigger] unsorted[k], minimum as int),
            g <= found.len(),
            forall|k: int| 0 <= k < findings.len() ==> reports_repeat(#[trigger] findings@[k], lines.lines(), lines.query_end@, config),
            qe == lines.query_end@,
            mo == config.min_occurrences,
            forall|k: int| 0 <= k < unsorted.len() ==> qualifies(#[trigger] unsorted[k], qe, mo),
            findings.len() == g,
            kept == found.len(),
            cv == group_views(found@),
            forall|k: int| 0 <= k < g ==> finding_key(#[trigger] findings@[k]) == group_finding(cv[k], qe, mo),
        decreases found.len() - g,
    {
        let group = &found[g];
        proof {
            let q = choose|q: int| 0 <= q < unsorted.len() && unsorted[q] == found@[g as int];
            assert(emitted(lines, found@[g as int], minimum as int));
            assert(qualifies(found@[g as int], qe, mo));
        }
        let ghost fprev = findings@;
        emit_group(&lines, config, group, &mut findings);
        proof {
            assert(cv[g as int] == group_view(*group));
            assert forall|k: int| 0 <= k < g implies #[trigger] findings@[k] == fprev[k] by {
                assert(findings@.drop_last()[k] == fprev[k]);
            }
        }
        g += 1;
    }
    proof {
        assert forall|k: int| 0 <= k < findings.len() implies #[trigger] finding_keys(findings@)[k] == cv.map_values(
            |gv: (Seq<usize>, usize, usize)| group_finding(gv, lines.query_end@, mo),
        )[k] by {
            assert(finding_key(findings@[k]) == group_finding(cv[k], qe, mo));
        }
        assert(finding_keys(findings@) =~= cv.map_values(|gv: (Seq<usize>, usize, usize)| group_finding(gv, lines.query_end@, mo)));
    }
    let r = sort_findings(findings);
    proof {
        assert(finding_keys(r@) == findings_spec(lines, config));
        assert(lines.of(source@, config.exact_whitespace, eligible.spans()));
        assert(seeds_viewed(lines, minimum as int, group_views(seeds@)));
        assert forall|i: int| 0 <= i < r.len() implies reports_repeat(#[trigger] r@[i], lines.lines(), lines.query_end@, config) by {
            assert(findings@.contains(r@[i]));
        }
    }
    r
}

/// Find repeated source sequences that include an eligible line, with
/// every fingerprint bit in use.
pub fn check(source: &str, eligible: &ChangedLines, config: DuplicationConfig) -> (r: Vec<Diagnostic>)
    requires
        source@.len() < usize::MAX,
    ensures
        (eligible.spans().len() == 0 || source@.contains('\0') || config.min_meaningful_lines == 0 || config.min_occurrences
            < 2) ==> r.len() == 0,
        forall|i: int|
            0 <= i < r.len() ==> reports_repeat(
                #[trigger] r@[i],
                texts(source@, config.exact_whitespace),
                query_ends(eligible.spans(), eligible.spans().len() as int, texts(source@, config.exact_whitespace).len() as int),
                config,
            ),
        by_line(r@),
        (exists|sites: Seq<usize>, len: int, m: int, anchor: int|
            #[trigger] repeat_shape(
                texts(source@, config.exact_whitespace),
                query_ends(eligible.spans(), eligible.spans().len() as int, texts(source@, config.exact_whitespace).len() as int),
                config,
                sites,
                len,
                m,
                anchor,
            )) && eligible.spans().len() > 0 && !source@.contains('\0') && config.min_meaningful_lines > 0
            && config.min_occurrences >= 2 ==> r.len() > 0,
        analysis_of(source@, eligible.spans(), config, r@),
        !(eligible.spans().len() == 0 || source@.contains('\0') || config.min_meaningful_lines == 0
            || config.min_occurrences < 2) ==> exists|l: Lines|
            #[trigger] l.of(source@, config.exact_whitespace, eligible.spans()) && finding_keys(r@) == findings_spec(l, config),
        !(eligible.spans().len() == 0 || source@.contains('\0') || config.min_meaningful_lines == 0
            || config.min_occurrences < 2) ==> findings_of(source@, eligible.spans(), config, r@),
{
    analyze(source, eligible, config, u64::MAX)
}

} // verus!
