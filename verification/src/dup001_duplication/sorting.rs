//! Insertion order: the sequence an insertion sort builds, inserting each
//! item before the first one it sorts before.
use vstd::prelude::*;

verus! {

/// The first index from `p` on whose item `x` sorts before, or the end.
pub open spec fn first_greater<T>(s: Seq<T>, x: T, lt: spec_fn(T, T) -> bool, p: int) -> int
    decreases s.len() - p,
{
    if p < 0 || p >= s.len() {
        s.len() as int
    } else if lt(x, s[p]) {
        p
    } else {
        first_greater(s, x, lt, p + 1)
    }
}

/// `s` with `x` inserted before the first item it sorts before.
pub open spec fn insert_sorted<T>(s: Seq<T>, x: T, lt: spec_fn(T, T) -> bool) -> Seq<T> {
    s.insert(first_greater(s, x, lt, 0), x)
}

/// The items of `v` inserted one by one, last first, each before the first
/// item it sorts before; equal items keep their input order.
pub open spec fn insertion_sorted<T>(v: Seq<T>, lt: spec_fn(T, T) -> bool) -> Seq<T>
    decreases v.len(),
{
    if v.len() == 0 {
        Seq::empty()
    } else {
        insert_sorted(insertion_sorted(v.drop_first(), lt), v[0], lt)
    }
}

/// A scan that stops at the first item `x` sorts before finds
/// `first_greater`.
pub proof fn lemma_first_greater<T>(s: Seq<T>, x: T, lt: spec_fn(T, T) -> bool, q: int, p: int)
    requires
        0 <= q <= p <= s.len(),
        forall|i: int| q <= i < p ==> !lt(x, #[trigger] s[i]),
        p < s.len() ==> lt(x, s[p]),
    ensures
        first_greater(s, x, lt, q) == p,
    decreases p - q,
{
    if q < p {
        lemma_first_greater(s, x, lt, q + 1, p);
    }
}

/// Inserting `v[k - 1]` into the sort of `v[k..]` sorts `v[k - 1..]`.
pub proof fn lemma_insertion_step<T>(v: Seq<T>, lt: spec_fn(T, T) -> bool, k: int)
    requires
        0 < k <= v.len(),
    ensures
        insertion_sorted(v.skip(k - 1), lt) == insert_sorted(insertion_sorted(v.skip(k), lt), v[k - 1], lt),
{
    assert(v.skip(k - 1).drop_first() =~= v.skip(k));
    assert(v.skip(k - 1)[0] == v[k - 1]);
}

} // verus!
