//! Groups of equal spans: counting independent sites, and suppressing a
//! shorter group only when a longer one covers every occurrence.
use crate::dup001_duplication::sorting::{first_greater, insert_sorted, insertion_sorted, lemma_first_greater, lemma_insertion_step};
use crate::dup001_duplication::source::{first_at_least, increasing};
use crate::dup001_duplication::{group_view, group_views};
use vstd::prelude::*;

verus! {

/// Equal normalized spans of `length` lines at `starts`, in increasing
/// source order, each holding `meaningful` meaningful lines.
#[derive(Debug)]
pub struct Group {
    pub starts: Vec<usize>,
    pub length: usize,
    pub meaningful: usize,
}

/// True when the increasing `v` holds `x`.
pub fn sorted_contains(v: &Vec<usize>, x: usize) -> (r: bool)
    requires
        increasing(v@),
    ensures
        r == v@.contains(x),
{
    let k = first_at_least(v, x);
    if k < v.len() && v[k] == x {
        true
    } else {
        proof {
            if v@.contains(x) {
                let q = choose|q: int| 0 <= q < v@.len() && v@[q] == x;
                if q < k {
                    assert(v@[q] < x);
                } else if q > k {
                    assert(v@[k as int] < v@[q]);
                }
            }
        }
        false
    }
}

/// Every site of `b` shifted back by `offset` is a site of `a`.
pub open spec fn shifted_into(a: Seq<usize>, b: Seq<usize>, offset: int) -> bool {
    forall|j: int| 0 <= j < b.len() ==> #[trigger] b[j] >= offset && a.contains((b[j] - offset) as usize)
}

/// The longer group `a` covers `b`: one common offset places every
/// occurrence of `b` inside an occurrence of `a`.
pub open spec fn covers_spec(a: Group, b: Group) -> bool {
    &&& a.length > b.length
    &&& a.starts@.len() >= b.starts@.len()
    &&& exists|k: int|
        0 <= k < a.starts@.len() && #[trigger] a.starts@[k] <= b.starts@[0] && b.starts@[0] - a.starts@[k] <= a.length
            - b.length && shifted_into(a.starts@, b.starts@, b.starts@[0] - a.starts@[k])
}

impl Group {
    /// Require one common offset and coverage of every occurrence, not
    /// just overlap.
    pub fn covers(&self, other: &Group) -> (r: bool)
        requires
            increasing(self.starts@),
            other.starts.len() > 0,
        ensures
            r == covers_spec(*self, *other),
    {
        if self.length <= other.length || self.starts.len() < other.starts.len() {
            return false;
        }
        let first = other.starts[0];
        let mut k: usize = 0;
        while k < self.starts.len() && self.starts[k] <= first
            invariant
                increasing(self.starts@),
                other.starts.len() > 0,
                first == other.starts@[0],
                self.length > other.length,
                self.starts.len() >= other.starts.len(),
                k <= self.starts.len(),
                forall|kk: int|
                    0 <= kk < k ==> !(#[trigger] self.starts@[kk] <= first && first - self.starts@[kk] <= self.length
                        - other.length && shifted_into(self.starts@, other.starts@, first - self.starts@[kk])),
            decreases self.starts.len() - k,
        {
            let offset = first - self.starts[k];
            if offset <= self.length - other.length {
                let mut j: usize = 0;
                let mut all = true;
                while j < other.starts.len()
                    invariant_except_break
                        all,
                        forall|jj: int|
                            0 <= jj < j ==> #[trigger] other.starts@[jj] >= offset && self.starts@.contains(
                                (other.starts@[jj] - offset) as usize,
                            ),
                    invariant
                        increasing(self.starts@),
                        j <= other.starts.len(),
                    ensures
                        all ==> shifted_into(self.starts@, other.starts@, offset as int),
                        !all ==> !shifted_into(self.starts@, other.starts@, offset as int),
                    decreases other.starts.len() - j,
                {
                    let site = other.starts[j];
                    if site < offset || !sorted_contains(&self.starts, site - offset) {
                        all = false;
                        break;
                    }
                    j += 1;
                }
                if all {
                    proof {
                        let kk = k as int;
                        assert(other.starts@[0] - self.starts@[kk] == offset as int);
                        assert(self.starts@[kk] <= other.starts@[0] && other.starts@[0] - self.starts@[kk] <= self.length
                            - other.length && shifted_into(self.starts@, other.starts@, other.starts@[0] - self.starts@[kk]));
                    }
                    return true;
                }
            }
            k += 1;
        }
        proof {
            assert forall|kk: int|
                0 <= kk < self.starts@.len() && #[trigger] self.starts@[kk] <= other.starts@[0] implies !(other.starts@[0]
                - self.starts@[kk] <= self.length - other.length && shifted_into(
                self.starts@,
                other.starts@,
                other.starts@[0] - self.starts@[kk],
            )) by {
                if kk >= k {
                    assert(k < self.starts.len());
                    if kk > k {
                        assert(self.starts@[k as int] < self.starts@[kk]);
                    }
                }
            }
        }
        false
    }
}

/// The greedy choice of non-overlapping sites among `s[i..]`: a start is
/// taken when it begins at or after `end`; each taken span of `len` lines
/// moves `end` past itself.
pub open spec fn pick_from(s: Seq<usize>, len: int, i: int, end: int) -> Seq<usize>
    decreases s.len() - i,
{
    if i < 0 || i >= s.len() {
        Seq::empty()
    } else if s[i] >= end {
        seq![s[i]] + pick_from(s, len, i + 1, s[i] + len)
    } else {
        pick_from(s, len, i + 1, end)
    }
}

/// The same greedy choice among the spans that end by `limit`.
pub open spec fn pick_before(s: Seq<usize>, len: int, i: int, end: int, limit: int) -> Seq<usize>
    decreases s.len() - i,
{
    if i < 0 || i >= s.len() {
        Seq::empty()
    } else if s[i] >= end && s[i] + len <= limit {
        seq![s[i]] + pick_before(s, len, i + 1, s[i] + len, limit)
    } else {
        pick_before(s, len, i + 1, end, limit)
    }
}

/// The greedy choice over the first `m` starts, taken left to right: the
/// chosen sites and the end of the last one.
pub open spec fn greedy_prefix(s: Seq<usize>, len: int, m: int) -> (Seq<usize>, int)
    decreases m,
{
    if m <= 0 {
        (Seq::empty(), 0)
    } else {
        let (p, e) = greedy_prefix(s, len, m - 1);
        if s[m - 1] >= e {
            (p.push(s[m - 1]), s[m - 1] + len)
        } else {
            (p, e)
        }
    }
}

/// Sites of `len` lines that do not overlap, in increasing order.
pub open spec fn packed(sites: Seq<usize>, len: int) -> bool {
    forall|a: int, b: int| 0 <= a < b < sites.len() ==> #[trigger] sites[a] + len <= #[trigger] sites[b]
}

/// The query `q` is an eligible occurrence that belongs to a packing of at
/// least `minimum` non-overlapping sites: the greedy sites that end by
/// `q`, `q` itself, and the greedy sites after it.
pub open spec fn anchors_packing(g: Group, query_end: Seq<usize>, minimum: int, q: int) -> bool {
    let len = g.length as int;
    &&& query_end[q] >= q + len
    &&& pick_before(g.starts@, len, 0, 0, q).len() + 1 + pick_from(g.starts@, len, 0, q + len).len() >= minimum
}

/// The sites chosen around the anchor `a`.
pub open spec fn sites_around(g: Group, a: int) -> Seq<usize> {
    let len = g.length as int;
    pick_before(g.starts@, len, 0, 0, a) + seq![a as usize] + pick_from(g.starts@, len, 0, a + len)
}

proof fn lemma_pick_from_skip(s: Seq<usize>, len: int, i: int, j: int, e: int)
    requires
        0 <= i <= j <= s.len(),
        forall|k: int| i <= k < j ==> #[trigger] s[k] < e,
    ensures
        pick_from(s, len, i, e) == pick_from(s, len, j, e),
    decreases j - i,
{
    if i < j {
        lemma_pick_from_skip(s, len, i + 1, j, e);
    }
}

proof fn lemma_pick_from_reset(s: Seq<usize>, len: int, j: int, e: int)
    requires
        0 <= j <= s.len(),
        j < s.len() ==> s[j] >= e,
    ensures
        pick_from(s, len, j, e) == pick_from(s, len, j, 0),
{
}

proof fn lemma_prefix_state(s: Seq<usize>, len: int, m: int, q: int)
    requires
        0 <= m <= s.len(),
        forall|i: int| 0 <= i < m ==> #[trigger] s[i] + len <= q,
    ensures
        pick_before(s, len, 0, 0, q) == greedy_prefix(s, len, m).0 + pick_before(s, len, m, greedy_prefix(s, len, m).1, q),
    decreases m,
{
    if m == 0 {
        assert(greedy_prefix(s, len, 0).0 + pick_before(s, len, 0, 0, q) =~= pick_before(s, len, 0, 0, q));
    } else {
        lemma_prefix_state(s, len, m - 1, q);
        let (p, e) = greedy_prefix(s, len, m - 1);
        if s[m - 1] >= e {
            assert(p + pick_before(s, len, m - 1, e, q) =~= p.push(s[m - 1]) + pick_before(s, len, m, s[m - 1] + len, q));
        }
    }
}

proof fn lemma_pick_before_done(s: Seq<usize>, len: int, m: int, e: int, q: int)
    requires
        0 <= m <= s.len(),
        forall|i: int| m <= i < s.len() ==> #[trigger] s[i] + len > q,
    ensures
        pick_before(s, len, m, e, q) == Seq::<usize>::empty(),
    decreases s.len() - m,
{
    if m < s.len() {
        lemma_pick_before_done(s, len, m + 1, e, q);
    }
}

proof fn lemma_greedy_prefix_count(s: Seq<usize>, len: int, m: int)
    requires
        0 <= m <= s.len(),
    ensures
        greedy_prefix(s, len, m).0.len() <= m,
    decreases m,
{
    if m > 0 {
        lemma_greedy_prefix_count(s, len, m - 1);
    }
}

proof fn lemma_pick_from_facts(s: Seq<usize>, len: int, i: int, e: int)
    requires
        0 <= i <= s.len(),
        len >= 0,
    ensures
        pick_from(s, len, i, e).len() <= s.len() - i,
        packed(pick_from(s, len, i, e), len),
        forall|a: int| 0 <= a < pick_from(s, len, i, e).len() ==> #[trigger] pick_from(s, len, i, e)[a] >= e,
        forall|a: int| 0 <= a < pick_from(s, len, i, e).len() ==> s.contains(#[trigger] pick_from(s, len, i, e)[a]),
    decreases s.len() - i,
{
    if i < s.len() {
        if s[i] >= e {
            lemma_pick_from_facts(s, len, i + 1, s[i] + len);
            let rest = pick_from(s, len, i + 1, s[i] + len);
            let all = pick_from(s, len, i, e);
            assert(all == seq![s[i]] + rest);
            assert forall|a: int, b: int| 0 <= a < b < all.len() implies #[trigger] all[a] + len <= #[trigger] all[b] by {
                if a == 0 {
                    assert(all[b] == rest[b - 1]);
                } else {
                    assert(all[a] == rest[a - 1] && all[b] == rest[b - 1]);
                }
            }
            assert forall|a: int| 0 <= a < all.len() implies s.contains(#[trigger] all[a]) by {
                if a == 0 {
                    assert(s[i] == all[a]);
                } else {
                    assert(all[a] == rest[a - 1]);
                }
            }
            assert forall|a: int| 0 <= a < all.len() implies #[trigger] all[a] >= e by {
                if a > 0 {
                    assert(all[a] == rest[a - 1]);
                }
            }
        } else {
            lemma_pick_from_facts(s, len, i + 1, e);
        }
    }
}

proof fn lemma_pick_before_facts(s: Seq<usize>, len: int, i: int, e: int, q: int)
    requires
        0 <= i <= s.len(),
        len >= 0,
    ensures
        packed(pick_before(s, len, i, e, q), len),
        forall|a: int|
            0 <= a < pick_before(s, len, i, e, q).len() ==> #[trigger] pick_before(s, len, i, e, q)[a] >= e
                && pick_before(s, len, i, e, q)[a] + len <= q,
        forall|a: int| 0 <= a < pick_before(s, len, i, e, q).len() ==> s.contains(#[trigger] pick_before(s, len, i, e, q)[a]),
    decreases s.len() - i,
{
    if i < s.len() {
        if s[i] >= e && s[i] + len <= q {
            lemma_pick_before_facts(s, len, i + 1, s[i] + len, q);
            let rest = pick_before(s, len, i + 1, s[i] + len, q);
            let all = pick_before(s, len, i, e, q);
            assert(all == seq![s[i]] + rest);
            assert forall|a: int, b: int| 0 <= a < b < all.len() implies #[trigger] all[a] + len <= #[trigger] all[b] by {
                if a == 0 {
                    assert(all[b] == rest[b - 1]);
                } else {
                    assert(all[a] == rest[a - 1] && all[b] == rest[b - 1]);
                }
            }
            assert forall|a: int| 0 <= a < all.len() implies s.contains(#[trigger] all[a]) by {
                if a == 0 {
                    assert(s[i] == all[a]);
                } else {
                    assert(all[a] == rest[a - 1]);
                }
            }
            assert forall|a: int| 0 <= a < all.len() implies #[trigger] all[a] >= e && all[a] + len <= q by {
                if a > 0 {
                    assert(all[a] == rest[a - 1]);
                }
            }
        } else {
            lemma_pick_before_facts(s, len, i + 1, e, q);
        }
    }
}

/// The sites around an anchor are packed and drawn from the group's starts.
proof fn lemma_sites_around(g: Group, a: int)
    requires
        g.starts@.contains(a as usize),
        0 <= a <= usize::MAX,
    ensures
        packed(sites_around(g, a), g.length as int),
        sites_around(g, a).contains(a as usize),
        forall|k: int| 0 <= k < sites_around(g, a).len() ==> g.starts@.contains(#[trigger] sites_around(g, a)[k]),
{
    let len = g.length as int;
    let before = pick_before(g.starts@, len, 0, 0, a);
    let after = pick_from(g.starts@, len, 0, a + len);
    lemma_pick_before_facts(g.starts@, len, 0, 0, a);
    lemma_pick_from_facts(g.starts@, len, 0, a + len);
    let all = sites_around(g, a);
    assert(all == before + seq![a as usize] + after);
    assert(all[before.len() as int] == a as usize);
    assert forall|x: int, y: int| 0 <= x < y < all.len() implies #[trigger] all[x] + len <= #[trigger] all[y] by {
        if y < before.len() {
            assert(all[x] == before[x] && all[y] == before[y]);
        } else if y == before.len() {
            assert(all[x] == before[x]);
            assert(before[x] + len <= a);
        } else if x < before.len() {
            assert(all[x] == before[x] && all[y] == after[y - before.len() - 1]);
            assert(before[x] + len <= a);
            assert(after[y - before.len() - 1] >= a + len);
        } else if x == before.len() {
            assert(all[y] == after[y - before.len() - 1]);
            assert(after[y - before.len() - 1] >= a + len);
        } else {
            assert(all[x] == after[x - before.len() - 1] && all[y] == after[y - before.len() - 1]);
        }
    }
    assert forall|k: int| 0 <= k < all.len() implies g.starts@.contains(#[trigger] all[k]) by {
        if k < before.len() {
            assert(all[k] == before[k]);
        } else if k > before.len() {
            assert(all[k] == after[k - before.len() - 1]);
        }
    }
}

/// `x` is one of `s` at index `i` or later.
pub open spec fn held_from(s: Seq<usize>, i: int, x: usize) -> bool {
    exists|k: int| i <= k < s.len() && #[trigger] s[k] == x
}

/// `p` is a packing of `s`: non-overlapping sites of width `len`, in
/// order, each one of `s`.
pub open spec fn packing_in(s: Seq<usize>, len: int, p: Seq<usize>) -> bool {
    &&& packed(p, len)
    &&& forall|a: int| 0 <= a < p.len() ==> s.contains(#[trigger] p[a])
}

/// The eligible start `q` lies in a packing of at least `minimum` sites of
/// the group.
pub open spec fn packs_through(g: Group, query_end: Seq<usize>, minimum: int, q: int) -> bool {
    &&& query_end[q] >= q + g.length
    &&& exists|p: Seq<usize>| packing_in(g.starts@, g.length as int, p) && p.contains(q as usize) && p.len() >= minimum
}

/// No packing of the starts from index `i` on, every site at `e` or later,
/// is larger than the greedy one.
proof fn lemma_pick_from_most(s: Seq<usize>, len: int, i: int, e: int, p: Seq<usize>)
    requires
        increasing(s),
        0 <= i <= s.len(),
        len > 0,
        packed(p, len),
        forall|a: int| 0 <= a < p.len() ==> #[trigger] p[a] >= e && held_from(s, i, p[a]),
    ensures
        p.len() <= pick_from(s, len, i, e).len(),
    decreases s.len() - i,
{
    if p.len() == 0 {
        return;
    }
    if i >= s.len() {
        assert(held_from(s, i, p[0]));
        return;
    }
    if s[i] < e {
        assert forall|a: int| 0 <= a < p.len() implies #[trigger] p[a] >= e && held_from(s, i + 1, p[a]) by {
            assert(held_from(s, i, p[a]));
            let k = choose|k: int| i <= k < s.len() && #[trigger] s[k] == p[a];
            assert(k != i);
        }
        lemma_pick_from_most(s, len, i + 1, e, p);
    } else {
        let rest = p.drop_first();
        assert(held_from(s, i, p[0]));
        let k0 = choose|k: int| i <= k < s.len() && #[trigger] s[k] == p[0];
        assert(s[i] <= s[k0]);
        assert forall|a: int| 0 <= a < rest.len() implies #[trigger] rest[a] >= s[i] + len && held_from(s, i + 1, rest[a]) by {
            assert(rest[a] == p[a + 1]);
            assert(p[0] + len <= p[a + 1]);
            assert(held_from(s, i, p[a + 1]));
            let k = choose|k: int| i <= k < s.len() && #[trigger] s[k] == p[a + 1];
            assert(k != i);
        }
        assert forall|a: int, b: int| 0 <= a < b < rest.len() implies #[trigger] rest[a] + len <= #[trigger] rest[b] by {
            assert(rest[a] == p[a + 1] && rest[b] == p[b + 1]);
        }
        lemma_pick_from_most(s, len, i + 1, s[i] + len, rest);
    }
}

/// The same for packings whose sites end by `limit`.
proof fn lemma_pick_before_most(s: Seq<usize>, len: int, i: int, e: int, limit: int, p: Seq<usize>)
    requires
        increasing(s),
        0 <= i <= s.len(),
        len > 0,
        packed(p, len),
        forall|a: int| 0 <= a < p.len() ==> #[trigger] p[a] >= e && p[a] + len <= limit && held_from(s, i, p[a]),
    ensures
        p.len() <= pick_before(s, len, i, e, limit).len(),
    decreases s.len() - i,
{
    if p.len() == 0 {
        return;
    }
    if i >= s.len() {
        assert(held_from(s, i, p[0]));
        return;
    }
    if !(s[i] >= e && s[i] + len <= limit) {
        assert forall|a: int| 0 <= a < p.len() implies #[trigger] p[a] >= e && p[a] + len <= limit && held_from(s, i + 1, p[a]) by {
            assert(held_from(s, i, p[a]));
            let k = choose|k: int| i <= k < s.len() && #[trigger] s[k] == p[a];
            assert(k != i);
        }
        lemma_pick_before_most(s, len, i + 1, e, limit, p);
    } else {
        let rest = p.drop_first();
        assert(held_from(s, i, p[0]));
        let k0 = choose|k: int| i <= k < s.len() && #[trigger] s[k] == p[0];
        assert(s[i] <= s[k0]);
        assert forall|a: int| 0 <= a < rest.len() implies #[trigger] rest[a] >= s[i] + len && rest[a] + len <= limit
            && held_from(s, i + 1, rest[a]) by {
            assert(rest[a] == p[a + 1]);
            assert(p[0] + len <= p[a + 1]);
            assert(held_from(s, i, p[a + 1]));
            let k = choose|k: int| i <= k < s.len() && #[trigger] s[k] == p[a + 1];
            assert(k != i);
        }
        assert forall|a: int, b: int| 0 <= a < b < rest.len() implies #[trigger] rest[a] + len <= #[trigger] rest[b] by {
            assert(rest[a] == p[a + 1] && rest[b] == p[b + 1]);
        }
        lemma_pick_before_most(s, len, i + 1, s[i] + len, limit, rest);
    }
}

proof fn lemma_pick_from_len(s: Seq<usize>, len: int, i: int, e: int)
    requires
        0 <= i <= s.len(),
    ensures
        pick_from(s, len, i, e).len() <= s.len() - i,
    decreases s.len() - i,
{
    if i < s.len() {
        if s[i] >= e {
            lemma_pick_from_len(s, len, i + 1, s[i] + len);
        } else {
            lemma_pick_from_len(s, len, i + 1, e);
        }
    }
}

/// A packing of increasing starts has no more sites than there are starts.
pub proof fn lemma_packing_size(s: Seq<usize>, len: int, p: Seq<usize>)
    requires
        increasing(s),
        len > 0,
        packing_in(s, len, p),
    ensures
        p.len() <= s.len(),
{
    assert forall|a: int| 0 <= a < p.len() implies #[trigger] p[a] >= 0 && held_from(s, 0, p[a]) by {
        assert(s.contains(p[a]));
        let k = choose|k: int| 0 <= k < s.len() && s[k] == p[a];
        assert(s[k] == p[a]);
    }
    lemma_pick_from_most(s, len, 0, 0, p);
    lemma_pick_from_len(s, len, 0, 0);
}

/// Greedy optimality: no packing of a group's starts that holds `q` is
/// larger than the greedy sites around `q`.
pub proof fn lemma_sites_around_largest(g: Group, q: usize, p: Seq<usize>)
    requires
        increasing(g.starts@),
        g.length > 0,
        packing_in(g.starts@, g.length as int, p),
        p.contains(q),
    ensures
        p.len() <= sites_around(g, q as int).len(),
{
    let s = g.starts@;
    let len = g.length as int;
    let idx = choose|x: int| 0 <= x < p.len() && p[x] == q;
    let before = p.take(idx);
    let after = p.skip(idx + 1);
    assert forall|a: int| 0 <= a < before.len() implies #[trigger] before[a] >= 0 && before[a] + len <= q && held_from(
        s,
        0,
        before[a],
    ) by {
        assert(before[a] == p[a]);
        assert(s.contains(p[a]));
        let k = choose|k: int| 0 <= k < s.len() && s[k] == p[a];
        assert(s[k] == before[a]);
    }
    assert forall|a: int, b: int| 0 <= a < b < before.len() implies #[trigger] before[a] + len <= #[trigger] before[b] by {
        assert(before[a] == p[a] && before[b] == p[b]);
    }
    lemma_pick_before_most(s, len, 0, 0, q as int, before);
    assert forall|a: int| 0 <= a < after.len() implies #[trigger] after[a] >= q + len && held_from(s, 0, after[a]) by {
        assert(after[a] == p[idx + 1 + a]);
        assert(s.contains(p[idx + 1 + a]));
        let k = choose|k: int| 0 <= k < s.len() && s[k] == p[idx + 1 + a];
        assert(s[k] == after[a]);
    }
    assert forall|a: int, b: int| 0 <= a < b < after.len() implies #[trigger] after[a] + len <= #[trigger] after[b] by {
        assert(after[a] == p[idx + 1 + a] && after[b] == p[idx + 1 + b]);
    }
    lemma_pick_from_most(s, len, 0, q + len, after);
}

/// An eligible start anchors a packing exactly when it lies in some packing
/// of at least `minimum` non-overlapping sites: the greedy count around it
/// is the largest.
pub proof fn lemma_anchors_packing_iff(g: Group, query_end: Seq<usize>, minimum: int, q: usize)
    requires
        increasing(g.starts@),
        g.length > 0,
        g.starts@.contains(q),
    ensures
        anchors_packing(g, query_end, minimum, q as int) <==> packs_through(g, query_end, minimum, q as int),
{
    lemma_sites_around(g, q as int);
    let w = sites_around(g, q as int);
    if anchors_packing(g, query_end, minimum, q as int) {
        assert(packing_in(g.starts@, g.length as int, w));
        assert(w.len() >= minimum);
    }
    if packs_through(g, query_end, minimum, q as int) {
        let p = choose|p: Seq<usize>| packing_in(g.starts@, g.length as int, p) && p.contains(q) && p.len() >= minimum;
        lemma_sites_around_largest(g, q, p);
    }
}

/// Choose the earliest eligible site that belongs to a packing of at least
/// `minimum` non-overlapping sites, and that packing.
///
/// Greedy prefix and suffix counts are exact for spans of one width (a
/// start anchors the greedy sites exactly when some packing through it is
/// large enough); forcing the query in keeps it from being lost to an
/// earlier overlapping occurrence.
pub fn select_sites(group: &Group, query_end: &Vec<usize>, minimum: usize) -> (r: Option<(usize, Vec<usize>)>)
    requires
        increasing(group.starts@),
        group.length > 0,
        query_end.len() < usize::MAX,
        forall|k: int| 0 <= k < group.starts@.len() ==> #[trigger] group.starts@[k] + group.length <= query_end.len(),
    ensures
        match r {
            None => group.starts.len() < minimum || forall|k: int|
                0 <= k < group.starts@.len() ==> !anchors_packing(*group, query_end@, minimum as int, #[trigger] group.starts@[k] as int),
            Some((a, sites)) => {
                &&& group.starts.len() >= minimum
                &&& exists|k: int|
                    0 <= k < group.starts@.len() && #[trigger] group.starts@[k] == a && forall|kk: int|
                        0 <= kk < k ==> !anchors_packing(*group, query_end@, minimum as int, #[trigger] group.starts@[kk] as int)
                &&& anchors_packing(*group, query_end@, minimum as int, a as int)
                &&& sites@ == sites_around(*group, a as int)
                &&& sites.len() >= minimum
                &&& packed(sites@, group.length as int)
                &&& sites@.contains(a)
                &&& forall|k: int| 0 <= k < sites.len() ==> group.starts@.contains(#[trigger] sites@[k])
            },
        },
        forall|k: int|
            0 <= k < group.starts@.len() ==> (anchors_packing(*group, query_end@, minimum as int, #[trigger] group.starts@[k] as int)
                <==> packs_through(*group, query_end@, minimum as int, group.starts@[k] as int)),
{
    proof {
        assert forall|k: int| 0 <= k < group.starts@.len() implies (anchors_packing(
            *group,
            query_end@,
            minimum as int,
            #[trigger] group.starts@[k] as int,
        ) <==> packs_through(*group, query_end@, minimum as int, group.starts@[k] as int)) by {
            lemma_anchors_packing_iff(*group, query_end@, minimum as int, group.starts@[k]);
        }
    }
    if group.starts.len() < minimum {
        return None;
    }
    let starts = &group.starts;
    let length = group.length;
    let n = starts.len();
    let ghost s = starts@;
    let ghost len = length as int;
    proof {
        assert forall|k: int| 0 <= k < n implies #[trigger] s[k] >= k by {
            lemma_increasing_at_least_index(s, k);
        }
        if n > 0 {
            assert(s[n - 1] >= n - 1);
        }
    }
    // suffix[i]: the greedy count from starts[i] on, taking starts[i].
    let mut suffix: Vec<usize> = Vec::new();
    let mut z: usize = 0;
    while z <= n
        invariant
            z <= n + 1,
            n < usize::MAX,
            suffix.len() == z,
            forall|i: int| 0 <= i < z ==> #[trigger] suffix@[i] == 0,
        decreases n + 1 - z,
    {
        suffix.push(0);
        z += 1;
    }
    assert(pick_from(s, len, n as int, 0) =~= Seq::<usize>::empty());
    let mut index: usize = n;
    while index > 0
        invariant
            s == starts@,
            len == length,
            n == s.len(),
            length > 0,
            increasing(s),
            forall|k: int| 0 <= k < n ==> #[trigger] s[k] + length <= query_end.len(),
            query_end.len() < usize::MAX,
            index <= n,
            suffix.len() == n + 1,
            forall|i: int| index <= i <= n ==> #[trigger] suffix@[i] == pick_from(s, len, i, 0).len(),
            forall|i: int| index <= i <= n ==> #[trigger] suffix@[i] <= n - i,
        decreases index,
    {
        index -= 1;
        let next = first_at_least(starts, starts[index] + length);
        proof {
            let e = s[index as int] + len;
            if next <= index {
                assert(s[index as int] >= e);
            }
            lemma_pick_from_skip(s, len, index + 1, next as int, e);
            lemma_pick_from_reset(s, len, next as int, e);
            lemma_pick_from_facts(s, len, next as int, 0);
        }
        suffix.set(index, 1 + suffix[next]);
    }
    let mut prefix_count: usize = 0;
    let mut prefix_end: usize = 0;
    let mut prefix_index: usize = 0;
    let mut found: Option<usize> = None;
    let mut k: usize = 0;
    while k < n && found.is_none()
        invariant
            s == starts@,
            s == group.starts@,
            len == length,
            length == group.length,
            n == s.len(),
            n >= minimum,
            length > 0,
            increasing(s),
            forall|kk: int| 0 <= kk < n ==> #[trigger] s[kk] + length <= query_end.len(),
            query_end.len() < usize::MAX,
            suffix.len() == n + 1,
            forall|i: int| 0 <= i <= n ==> #[trigger] suffix@[i] == pick_from(s, len, i, 0).len(),
            forall|i: int| 0 <= i <= n ==> #[trigger] suffix@[i] <= n - i,
            k <= n,
            prefix_index <= n,
            prefix_count as int == greedy_prefix(s, len, prefix_index as int).0.len(),
            prefix_end as int == greedy_prefix(s, len, prefix_index as int).1,
            prefix_end <= query_end.len(),
            forall|i: int| 0 <= i < prefix_index ==> #[trigger] s[i] + len <= if k < n { s[k as int] as int } else { query_end.len() as int },
            k > 0 && found is None ==> forall|i: int| prefix_index <= i < n ==> #[trigger] s[i] + len > s[k - 1],
            found is None ==> forall|kk: int| 0 <= kk < k ==> !anchors_packing(*group, query_end@, minimum as int, #[trigger] s[kk] as int),
            found matches Some(a) ==> k > 0 && a == s[k - 1] && anchors_packing(*group, query_end@, minimum as int, a as int)
                && forall|kk: int| 0 <= kk < k - 1 ==> !anchors_packing(*group, query_end@, minimum as int, #[trigger] s[kk] as int),
        decreases n - k + (if found is None { 1int } else { 0int }),
    {
        let query = starts[k];
        while prefix_index < n && starts[prefix_index] + length <= query
            invariant
                s == starts@,
                len == length,
                n == s.len(),
                increasing(s),
                forall|kk: int| 0 <= kk < n ==> #[trigger] s[kk] + length <= query_end.len(),
                k < n,
                query == s[k as int],
                prefix_index <= n,
                prefix_count as int == greedy_prefix(s, len, prefix_index as int).0.len(),
                prefix_end as int == greedy_prefix(s, len, prefix_index as int).1,
                prefix_end <= query_end.len(),
                forall|i: int| 0 <= i < prefix_index ==> #[trigger] s[i] + len <= query,
            decreases n - prefix_index,
        {
            let start = starts[prefix_index];
            proof {
                lemma_greedy_prefix_count(s, len, prefix_index as int);
            }
            if start >= prefix_end {
                prefix_count += 1;
                prefix_end = start + length;
            }
            prefix_index += 1;
        }
        let after = first_at_least(starts, query + length);
        proof {
            let q = query as int;
            assert forall|i: int| prefix_index <= i < n implies #[trigger] s[i] + len > q by {
                if i > prefix_index {
                    assert(s[prefix_index as int] < s[i]);
                }
            }
            lemma_prefix_state(s, len, prefix_index as int, q);
            lemma_pick_before_done(s, len, prefix_index as int, prefix_end as int, q);
            assert(pick_before(s, len, 0, 0, q) =~= greedy_prefix(s, len, prefix_index as int).0);
            lemma_pick_from_skip(s, len, 0, after as int, q + len);
            lemma_pick_from_reset(s, len, after as int, q + len);
            lemma_greedy_prefix_count(s, len, prefix_index as int);
            if prefix_index > after {
                assert(s[after as int] + len <= q);
            }
        }
        assert(pick_before(s, len, 0, 0, query as int).len() == prefix_count);
        assert(pick_from(s, len, 0, query + len).len() == suffix@[after as int]);
        assert(anchors_packing(*group, query_end@, minimum as int, query as int) == (query_end@[query as int] >= query
            + length && prefix_count + 1 + suffix@[after as int] >= minimum));
        if query_end[query] >= query + length && prefix_count + 1 + suffix[after] >= minimum {
            found = Some(query);
        }
        k += 1;
    }
    let anchor = match found {
        Some(a) => a,
        None => {
            return None;
        },
    };
    proof {
        lemma_sites_around(*group, anchor as int);
    }
    let mut sites: Vec<usize> = Vec::new();
    let mut end: usize = 0;
    let mut i: usize = 0;
    while i < n
        invariant
            s == starts@,
            len == length,
            n == s.len(),
            forall|kk: int| 0 <= kk < n ==> #[trigger] s[kk] + length <= query_end.len(),
            i <= n,
            end <= query_end.len(),
            sites@ + pick_before(s, len, i as int, end as int, anchor as int) == pick_before(s, len, 0, 0, anchor as int),
        decreases n - i,
    {
        let start = starts[i];
        let ghost before = sites@;
        if start >= end && start + length <= anchor {
            sites.push(start);
            end = start + length;
            assert(before + pick_before(s, len, i as int, (start as int), anchor as int) =~= before + (seq![start]
                + pick_before(s, len, i + 1, end as int, anchor as int)));
            assert(before + (seq![start] + pick_before(s, len, i + 1, end as int, anchor as int)) =~= sites@
                + pick_before(s, len, i + 1, end as int, anchor as int));
        }
        i += 1;
    }
    assert(sites@ =~= pick_before(s, len, 0, 0, anchor as int));
    sites.push(anchor);
    end = anchor + length;
    i = 0;
    let ghost head = sites@;
    while i < n
        invariant
            s == starts@,
            len == length,
            n == s.len(),
            forall|kk: int| 0 <= kk < n ==> #[trigger] s[kk] + length <= query_end.len(),
            i <= n,
            end <= query_end.len(),
            sites@ + pick_from(s, len, i as int, end as int) == head + pick_from(s, len, 0, anchor + len),
        decreases n - i,
    {
        let start = starts[i];
        let ghost before = sites@;
        if start >= end {
            sites.push(start);
            end = start + length;
            assert(before + (seq![start] + pick_from(s, len, i + 1, end as int)) =~= sites@ + pick_from(
                s,
                len,
                i + 1,
                end as int,
            ));
        }
        i += 1;
    }
    assert(sites@ =~= head + pick_from(s, len, 0, anchor + len));
    assert(sites@ =~= sites_around(*group, anchor as int));
    Some((anchor, sites))
}

/// An increasing sequence of indices has `s[k] >= k`.
proof fn lemma_increasing_at_least_index(s: Seq<usize>, k: int)
    requires
        increasing(s),
        0 <= k < s.len(),
    ensures
        s[k] >= k,
    decreases k,
{
    if k > 0 {
        lemma_increasing_at_least_index(s, k - 1);
    }
}

/// `a` sorts strictly before `b`, entry by entry, as `Vec<usize>`'s `Ord`
/// orders them: the first differing entry decides, and a proper prefix
/// comes first.
pub open spec fn starts_lt(a: Seq<usize>, b: Seq<usize>) -> bool
    decreases a.len(),
{
    if a.len() == 0 {
        b.len() > 0
    } else if b.len() == 0 {
        false
    } else if a[0] != b[0] {
        a[0] < b[0]
    } else {
        starts_lt(a.drop_first(), b.drop_first())
    }
}

proof fn lemma_starts_asymmetric(a: Seq<usize>, b: Seq<usize>)
    ensures
        !(starts_lt(a, b) && starts_lt(b, a)),
    decreases a.len(),
{
    if a.len() > 0 && b.len() > 0 && a[0] == b[0] {
        lemma_starts_asymmetric(a.drop_first(), b.drop_first());
    }
}

proof fn lemma_starts_transitive(a: Seq<usize>, b: Seq<usize>, c: Seq<usize>)
    requires
        starts_lt(a, b),
        starts_lt(b, c),
    ensures
        starts_lt(a, c),
    decreases a.len(),
{
    if a.len() > 0 && b.len() > 0 && c.len() > 0 && a[0] == b[0] && b[0] == c[0] {
        lemma_starts_transitive(a.drop_first(), b.drop_first(), c.drop_first());
    }
}

/// `a` comes before `b` in consolidation order: longer groups first, then
/// by their starts.
pub open spec fn sorts_before(a: Group, b: Group) -> bool {
    a.length > b.length || (a.length == b.length && starts_lt(a.starts@, b.starts@))
}

proof fn lemma_sorts_asymmetric(a: Group, b: Group)
    ensures
        !(sorts_before(a, b) && sorts_before(b, a)),
{
    lemma_starts_asymmetric(a.starts@, b.starts@);
}

proof fn lemma_sorts_transitive(a: Group, b: Group, c: Group)
    requires
        sorts_before(a, b),
        sorts_before(b, c),
    ensures
        sorts_before(a, c),
{
    if a.length == b.length && b.length == c.length {
        lemma_starts_transitive(a.starts@, b.starts@, c.starts@);
    }
}

/// Consolidation order on plain group values (starts, length,
/// meaningful lines): longer first, then by starts.
pub open spec fn view_before(a: (Seq<usize>, usize, usize), b: (Seq<usize>, usize, usize)) -> bool {
    a.1 > b.1 || (a.1 == b.1 && starts_lt(a.0, b.0))
}

/// [`view_before`] as a value.
pub open spec fn view_order() -> spec_fn((Seq<usize>, usize, usize), (Seq<usize>, usize, usize)) -> bool {
    |a: (Seq<usize>, usize, usize), b: (Seq<usize>, usize, usize)| view_before(a, b)
}

/// No group of `v` comes before an earlier one.
pub open spec fn in_order(v: Seq<Group>) -> bool {
    forall|i: int, j: int| 0 <= i < j < v.len() ==> !sorts_before(#[trigger] v[j], #[trigger] v[i])
}

/// A group as the rules build them: some starts, in increasing order.
pub open spec fn shaped(g: Group) -> bool {
    g.starts@.len() > 0 && increasing(g.starts@)
}

/// True when `a` comes before `b` in consolidation order.
fn before(a: &Group, b: &Group) -> (r: bool)
    ensures
        r == sorts_before(*a, *b),
{
    if a.length != b.length {
        return a.length > b.length;
    }
    let x = &a.starts;
    let y = &b.starts;
    let mut i: usize = 0;
    assert(x@.skip(0) =~= x@);
    assert(y@.skip(0) =~= y@);
    while i < x.len() && i < y.len() && x[i] == y[i]
        invariant
            i <= x.len(),
            i <= y.len(),
            starts_lt(x@, y@) == starts_lt(x@.skip(i as int), y@.skip(i as int)),
        decreases x.len() - i,
    {
        assert(x@.skip(i as int).drop_first() =~= x@.skip(i + 1));
        assert(y@.skip(i as int).drop_first() =~= y@.skip(i + 1));
        i += 1;
    }
    if i == x.len() {
        i < y.len()
    } else if i == y.len() {
        false
    } else {
        x[i] < y[i]
    }
}

/// The groups in consolidation order, each kept once.
fn sort_groups(groups: Vec<Group>) -> (r: Vec<Group>)
    ensures
        in_order(r@),
        r.len() == groups.len(),
        forall|k: int| 0 <= k < r.len() ==> groups@.contains(#[trigger] r@[k]),
        forall|i: int| 0 <= i < groups.len() ==> r@.contains(#[trigger] groups@[i]),
        r@.to_multiset() == groups@.to_multiset(),
        group_views(r@) == insertion_sorted(group_views(groups@), view_order()),
{
    let ghost input = groups@;
    let ghost gvs = group_views(input);
    let mut rest = groups;
    let mut out: Vec<Group> = Vec::new();
    proof {
        broadcast use vstd::seq_lib::group_to_multiset_ensures;
        assert(out@.to_multiset() =~= vstd::multiset::Multiset::empty());
        assert(input.take(input.len() as int) =~= input);
        assert(gvs.skip(input.len() as int) =~= Seq::empty());
        assert(group_views(out@) =~= Seq::empty());
    }
    while rest.len() > 0
        invariant
            gvs == group_views(input),
            group_views(out@) == insertion_sorted(gvs.skip(rest.len() as int), view_order()),
            out@.to_multiset().add(rest@.to_multiset()) == input.to_multiset(),
            rest@ == input.take(rest.len() as int),
            rest.len() <= input.len(),
            out.len() + rest.len() == input.len(),
            in_order(out@),
            forall|k: int| 0 <= k < out.len() ==> input.contains(#[trigger] out@[k]),
            forall|i: int| rest.len() <= i < input.len() ==> out@.contains(#[trigger] input[i]),
        decreases rest.len(),
    {
        let ghost rest0 = rest@;
        let g = rest.pop().unwrap();
        let ghost gi = rest.len() as int;
        assert(input[gi] == g);
        proof {
            broadcast use vstd::seq_lib::group_to_multiset_ensures;
            assert(rest0 =~= rest@.push(g));
        }
        assert(rest@ =~= input.take(rest.len() as int));
        let mut p: usize = 0;
        while p < out.len() && !before(&g, &out[p])
            invariant
                p <= out.len(),
                forall|i: int| 0 <= i < p ==> !sorts_before(g, #[trigger] out@[i]),
            decreases out.len() - p,
        {
            p += 1;
        }
        let ghost prev = out@;
        out.insert(p, g);
        proof {
            assert(out@ =~= prev.insert(p as int, g));
            lemma_insertion_step(gvs, view_order(), gi + 1);
            assert forall|i: int| 0 <= i < p implies !(view_order())(group_view(g), #[trigger] group_views(prev)[i]) by {
                assert(group_views(prev)[i] == group_view(prev[i]));
            }
            if p < prev.len() {
                assert(group_views(prev)[p as int] == group_view(prev[p as int]));
            }
            lemma_first_greater(group_views(prev), group_view(g), view_order(), 0, p as int);
            assert(gvs[gi] == group_view(g));
            assert(group_views(out@) =~= group_views(prev).insert(p as int, group_view(g)));
            broadcast use vstd::seq_lib::group_to_multiset_ensures;
            assert(out@.to_multiset() == prev.to_multiset().insert(g));
            assert(out@.to_multiset().add(rest@.to_multiset()) =~= prev.to_multiset().add(rest0.to_multiset()));
            assert forall|i: int, j: int| 0 <= i < j < out.len() implies !sorts_before(#[trigger] out@[j], #[trigger] out@[i]) by {
                if j < p {
                    assert(out@[i] == prev[i] && out@[j] == prev[j]);
                } else if j == p {
                    assert(out@[i] == prev[i]);
                } else if i < p {
                    assert(out@[i] == prev[i] && out@[j] == prev[j - 1]);
                    if sorts_before(prev[j - 1], prev[i]) {
                        assert(!sorts_before(prev[j - 1], prev[i]));
                    }
                } else if i == p {
                    assert(out@[j] == prev[j - 1]);
                    // g comes before prev[p], and nothing after p comes before prev[p].
                    assert(sorts_before(g, prev[p as int]));
                    lemma_sorts_asymmetric(g, prev[p as int]);
                    if j - 1 > p && sorts_before(prev[j - 1], g) {
                        lemma_sorts_transitive(prev[j - 1], g, prev[p as int]);
                    }
                } else {
                    assert(out@[i] == prev[i - 1] && out@[j] == prev[j - 1]);
                }
            }
            assert forall|k: int| 0 <= k < out.len() implies input.contains(#[trigger] out@[k]) by {
                if k < p {
                    assert(out@[k] == prev[k]);
                } else if k == p {
                    assert(input[gi] == out@[k]);
                } else {
                    assert(out@[k] == prev[k - 1]);
                }
            }
            assert forall|i: int| rest.len() <= i < input.len() implies out@.contains(#[trigger] input[i]) by {
                if i == gi {
                    assert(out@[p as int] == input[i]);
                } else {
                    let q = choose|q: int| 0 <= q < prev.len() && prev[q] == input[i];
                    if q < p {
                        assert(out@[q] == input[i]);
                    } else {
                        assert(out@[q + 1] == input[i]);
                    }
                }
            }
        }
    }
    assert(gvs.skip(0) =~= gvs);
    out
}

/// [`covers_spec`] on plain group values.
pub open spec fn covers_view(a: (Seq<usize>, usize, usize), b: (Seq<usize>, usize, usize)) -> bool {
    &&& a.1 > b.1
    &&& a.0.len() >= b.0.len()
    &&& exists|k: int| 0 <= k < a.0.len() && #[trigger] a.0[k] <= b.0[0] && b.0[0] - a.0[k] <= a.1 - b.1 && shifted_into(a.0, b.0, b.0[0] - a.0[k])
}

pub(crate) proof fn lemma_covers_view(a: Group, b: Group)
    ensures
        covers_spec(a, b) == covers_view(group_view(a), group_view(b)),
{
    let (va, vb) = (group_view(a), group_view(b));
    if covers_spec(a, b) {
        let k = choose|k: int|
            0 <= k < a.starts@.len() && #[trigger] a.starts@[k] <= b.starts@[0] && b.starts@[0] - a.starts@[k] <= a.length
                - b.length && shifted_into(a.starts@, b.starts@, b.starts@[0] - a.starts@[k]);
        assert(va.0[k] == a.starts@[k]);
    }
    if covers_view(va, vb) {
        let k = choose|k: int| 0 <= k < va.0.len() && #[trigger] va.0[k] <= vb.0[0] && vb.0[0] - va.0[k] <= va.1 - vb.1 && shifted_into(va.0, vb.0, vb.0[0] - va.0[k]);
        assert(a.starts@[k] == va.0[k]);
    }
}

/// The first `k` of the ordered groups `s` with each one that an earlier
/// kept group covers dropped.
pub open spec fn keep_uncovered(s: Seq<(Seq<usize>, usize, usize)>, k: int) -> Seq<(Seq<usize>, usize, usize)>
    decreases k,
{
    if k <= 0 {
        Seq::empty()
    } else {
        let prev = keep_uncovered(s, k - 1);
        if exists|j: int| 0 <= j < prev.len() && covers_view(#[trigger] prev[j], s[k - 1]) {
            prev
        } else {
            prev.push(s[k - 1])
        }
    }
}

/// The groups `v` consolidated: put in consolidation order, then each
/// group an earlier kept one covers dropped.
pub open spec fn consolidated(v: Seq<(Seq<usize>, usize, usize)>) -> Seq<(Seq<usize>, usize, usize)> {
    let s = insertion_sorted(v, view_order());
    keep_uncovered(s, s.len() as int)
}

/// Keep shorter groups only when they have independent extra sites: in
/// consolidation order, drop each group that an earlier kept one covers.
pub fn consolidate(groups: &mut Vec<Group>)
    requires
        forall|k: int| 0 <= k < old(groups).len() ==> shaped(#[trigger] old(groups)@[k]),
    ensures
        in_order(final(groups)@),
        forall|k: int| 0 <= k < final(groups).len() ==> old(groups)@.contains(#[trigger] final(groups)@[k]),
        forall|i: int|
            0 <= i < old(groups).len() ==> final(groups)@.contains(#[trigger] old(groups)@[i]) || exists|k: int|
                0 <= k < final(groups).len() && covers_spec(#[trigger] final(groups)@[k], old(groups)@[i]),
        forall|i: int, j: int| 0 <= i < j < final(groups).len() ==> !covers_spec(#[trigger] final(groups)@[i], #[trigger] final(groups)@[j]),
        forall|k: int| 0 <= k < final(groups).len() ==> shaped(#[trigger] final(groups)@[k]),
        final(groups)@.to_multiset().subset_of(old(groups)@.to_multiset()),
        group_views(final(groups)@) == consolidated(group_views(old(groups)@)),
{
    let ghost input = groups@;
    let mut all: Vec<Group> = Vec::new();
    std::mem::swap(&mut all, groups);
    let sorted = sort_groups(all);
    let ghost ordered = sorted@;
    let ghost ov = group_views(ordered);
    assert(ov == insertion_sorted(group_views(input), view_order()));
    assert(ordered.len() == sorted.len());
    assert(ordered.to_multiset() == input.to_multiset());
    let mut kept: Vec<Group> = Vec::new();
    let mut rest = sorted;
    // Take from the front: reverse once so that popping yields the order.
    let mut reversed: Vec<Group> = Vec::new();
    while rest.len() > 0
        invariant
            rest@ == ordered.take(rest.len() as int),
            rest.len() <= ordered.len(),
            reversed.len() + rest.len() == ordered.len(),
            forall|k: int| 0 <= k < reversed.len() ==> #[trigger] reversed@[k] == ordered[ordered.len() - 1 - k],
        decreases rest.len(),
    {
        let g = rest.pop().unwrap();
        reversed.push(g);
        assert(rest@ =~= ordered.take(rest.len() as int));
    }
    let mut index: usize = 0;
    proof {
        broadcast use vstd::seq_lib::group_to_multiset_ensures;
        assert(ordered.take(0) =~= Seq::<Group>::empty());
        assert(kept@ =~= Seq::<Group>::empty());
        assert(kept@.to_multiset() =~= ordered.take(0).to_multiset());
    }
    while reversed.len() > 0
        invariant
            ordered.len() <= usize::MAX,
            reversed.len() + index == ordered.len(),
            forall|k: int| 0 <= k < reversed.len() ==> #[trigger] reversed@[k] == ordered[ordered.len() - 1 - k],
            in_order(ordered),
            ordered.to_multiset() == input.to_multiset(),
            kept@.to_multiset().subset_of(ordered.take(index as int).to_multiset()),
            forall|k: int| 0 <= k < ordered.len() ==> input.contains(#[trigger] ordered[k]),
            forall|k: int| 0 <= k < input.len() ==> shaped(#[trigger] input[k]),
            forall|k: int| 0 <= k < kept.len() ==> exists|q: int| 0 <= q < index && #[trigger] kept@[k] == ordered[q],
            in_order(kept@),
            forall|q: int|
                0 <= q < index ==> kept@.contains(#[trigger] ordered[q]) || exists|k: int|
                    0 <= k < kept.len() && covers_spec(#[trigger] kept@[k], ordered[q]),
            forall|i: int, j: int| 0 <= i < j < kept.len() ==> !covers_spec(#[trigger] kept@[i], #[trigger] kept@[j]),
            forall|k: int, q: int| 0 <= k < kept.len() && index <= q < ordered.len() ==> !sorts_before(#[trigger] ordered[q], #[trigger] kept@[k]),
            ov == group_views(ordered),
            group_views(kept@) == keep_uncovered(ov, index as int),
        decreases reversed.len(),
    {
        let g = reversed.pop().unwrap();
        assert(g == ordered[index as int]);
        assert(input.contains(g));
        assert forall|kk: int| 0 <= kk < kept.len() implies shaped(#[trigger] kept@[kk]) by {
            let q = choose|q: int| 0 <= q < index && kept@[kk] == ordered[q];
            assert(input.contains(ordered[q]));
        }
        let mut covered = false;
        let mut k: usize = 0;
        while k < kept.len()
            invariant
                forall|kk: int| 0 <= kk < kept.len() ==> shaped(#[trigger] kept@[kk]),
                shaped(g),
                k <= kept.len(),
                covered == exists|kk: int| 0 <= kk < k && covers_spec(#[trigger] kept@[kk], g),
            decreases kept.len() - k,
        {
            if !covered && kept[k].covers(&g) {
                covered = true;
            }
            k += 1;
        }
        let ghost prev = kept@;
        proof {
            let pv = keep_uncovered(ov, index as int);
            assert(ov[index as int] == group_view(g));
            assert(covered == exists|j: int| 0 <= j < pv.len() && covers_view(#[trigger] pv[j], ov[index as int])) by {
                if covered {
                    let kk = choose|kk: int| 0 <= kk < prev.len() && covers_spec(#[trigger] prev[kk], g);
                    assert(pv[kk] == group_view(prev[kk]));
                    lemma_covers_view(prev[kk], g);
                    assert(covers_view(pv[kk], ov[index as int]));
                }
                if exists|j: int| 0 <= j < pv.len() && covers_view(#[trigger] pv[j], ov[index as int]) {
                    let j = choose|j: int| 0 <= j < pv.len() && covers_view(#[trigger] pv[j], ov[index as int]);
                    assert(pv[j] == group_view(prev[j]));
                    lemma_covers_view(prev[j], g);
                    assert(covers_spec(prev[j], g));
                }
            }
        }
        if !covered {
            kept.push(g);
        }
        proof {
            assert(group_views(kept@) =~= keep_uncovered(ov, index + 1));
            broadcast use vstd::seq_lib::group_to_multiset_ensures;
            assert(ordered.take(index + 1) =~= ordered.take(index as int).push(g));
            assert(kept@.to_multiset().subset_of(ordered.take(index + 1).to_multiset()));
            assert forall|q: int|
                0 <= q < index + 1 implies kept@.contains(#[trigger] ordered[q]) || exists|k: int|
                0 <= k < kept.len() && covers_spec(#[trigger] kept@[k], ordered[q]) by {
                if q == index {
                    if !covered {
                        assert(kept@[kept.len() - 1] == ordered[q]);
                    } else {
                        let kk = choose|kk: int| 0 <= kk < prev.len() && covers_spec(#[trigger] prev[kk], g);
                        assert(kept@[kk] == prev[kk]);
                    }
                } else if prev.contains(ordered[q]) {
                    let kk = choose|kk: int| 0 <= kk < prev.len() && prev[kk] == ordered[q];
                    assert(kept@[kk] == prev[kk]);
                } else {
                    let kk = choose|kk: int| 0 <= kk < prev.len() && covers_spec(#[trigger] prev[kk], ordered[q]);
                    assert(kept@[kk] == prev[kk]);
                }
            }
        }
        index += 1;
    }
    assert(ordered.take(index as int) =~= ordered);
    assert(group_views(kept@) == consolidated(group_views(input)));
    *groups = kept;
}

} // verus!
