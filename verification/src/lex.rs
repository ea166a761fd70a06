//! Segment paths (module and namespace paths as lists of names) and their
//! lexicographic order, as `Ord` orders `str` and slices of strings: the
//! first differing element decides, and a proper prefix comes first.
use crate::text::{chars_of, copy_string, str_eq, views};
use vstd::prelude::*;

verus! {

/// `a` sorts strictly before `b`, character by character.
pub open spec fn str_lt(a: Seq<char>, b: Seq<char>) -> bool
    decreases a.len(),
{
    if a.len() == 0 {
        b.len() > 0
    } else if b.len() == 0 {
        false
    } else if a[0] != b[0] {
        a[0] < b[0]
    } else {
        str_lt(a.drop_first(), b.drop_first())
    }
}

/// `a` sorts strictly before `b`, segment by segment.
pub open spec fn path_lt(a: Seq<Seq<char>>, b: Seq<Seq<char>>) -> bool
    decreases a.len(),
{
    if a.len() == 0 {
        b.len() > 0
    } else if b.len() == 0 {
        false
    } else if a[0] != b[0] {
        str_lt(a[0], b[0])
    } else {
        path_lt(a.drop_first(), b.drop_first())
    }
}

/// No string sorts before itself.
pub proof fn lemma_str_irreflexive(a: Seq<char>)
    ensures
        !str_lt(a, a),
    decreases a.len(),
{
    if a.len() > 0 {
        lemma_str_irreflexive(a.drop_first());
    }
}

/// Of two different strings, one sorts before the other.
pub proof fn lemma_str_total(a: Seq<char>, b: Seq<char>)
    ensures
        a != b ==> str_lt(a, b) || str_lt(b, a),
        !(str_lt(a, b) && str_lt(b, a)),
    decreases a.len(),
{
    if a.len() > 0 && b.len() > 0 && a[0] == b[0] {
        lemma_str_total(a.drop_first(), b.drop_first());
        if a.drop_first() == b.drop_first() {
            assert(a =~= seq![a[0]] + a.drop_first());
            assert(b =~= seq![b[0]] + b.drop_first());
        }
    } else if a.len() == 0 && b.len() == 0 {
        assert(a =~= b);
    }
}

/// The string order is transitive.
pub proof fn lemma_str_transitive(a: Seq<char>, b: Seq<char>, c: Seq<char>)
    requires
        str_lt(a, b),
        str_lt(b, c),
    ensures
        str_lt(a, c),
    decreases a.len(),
{
    if a.len() > 0 && b.len() > 0 && c.len() > 0 && a[0] == b[0] && b[0] == c[0] {
        lemma_str_transitive(a.drop_first(), b.drop_first(), c.drop_first());
    }
}

/// No path sorts before itself.
pub proof fn lemma_path_irreflexive(a: Seq<Seq<char>>)
    ensures
        !path_lt(a, a),
    decreases a.len(),
{
    if a.len() > 0 {
        lemma_path_irreflexive(a.drop_first());
    }
}

/// Of two different paths, one sorts before the other.
pub proof fn lemma_path_total(a: Seq<Seq<char>>, b: Seq<Seq<char>>)
    ensures
        a != b ==> path_lt(a, b) || path_lt(b, a),
        !(path_lt(a, b) && path_lt(b, a)),
    decreases a.len(),
{
    if a.len() > 0 && b.len() > 0 {
        if a[0] == b[0] {
            lemma_path_total(a.drop_first(), b.drop_first());
            if a.drop_first() == b.drop_first() {
                assert(a =~= seq![a[0]] + a.drop_first());
                assert(b =~= seq![b[0]] + b.drop_first());
            }
        } else {
            lemma_str_total(a[0], b[0]);
        }
    } else if a.len() == 0 && b.len() == 0 {
        assert(a =~= b);
    }
}

/// The path order is transitive.
pub proof fn lemma_path_transitive(a: Seq<Seq<char>>, b: Seq<Seq<char>>, c: Seq<Seq<char>>)
    requires
        path_lt(a, b),
        path_lt(b, c),
    ensures
        path_lt(a, c),
    decreases a.len(),
{
    if a.len() > 0 && b.len() > 0 && c.len() > 0 {
        if a[0] == b[0] && b[0] == c[0] {
            lemma_path_transitive(a.drop_first(), b.drop_first(), c.drop_first());
        } else if a[0] == b[0] {
            assert(str_lt(b[0], c[0]));
        } else if b[0] == c[0] {
            assert(str_lt(a[0], b[0]));
        } else {
            lemma_str_transitive(a[0], b[0], c[0]);
            if a[0] == c[0] {
                lemma_str_total(a[0], b[0]);
            }
        }
    }
}

/// True when `a` sorts strictly before `b`.
pub fn str_less(a: &str, b: &str) -> (r: bool)
    ensures
        r == str_lt(a@, b@),
{
    let x = chars_of(a);
    let y = chars_of(b);
    let mut i: usize = 0;
    assert(a@.skip(0) =~= a@);
    assert(b@.skip(0) =~= b@);
    while i < x.len() && i < y.len() && x[i] == y[i]
        invariant
            x@ == a@,
            y@ == b@,
            i <= x.len(),
            i <= y.len(),
            str_lt(a@, b@) == str_lt(a@.skip(i as int), b@.skip(i as int)),
        decreases x.len() - i,
    {
        assert(a@.skip(i as int).drop_first() =~= a@.skip(i + 1));
        assert(b@.skip(i as int).drop_first() =~= b@.skip(i + 1));
        i += 1;
    }
    if i == x.len() {
        i < y.len()
    } else if i == y.len() {
        false
    } else {
        x[i] < y[i]
    }
}

/// True when the path `a` sorts strictly before `b`.
pub fn path_less(a: &Vec<String>, b: &Vec<String>) -> (r: bool)
    ensures
        r == path_lt(views(a@), views(b@)),
{
    let ghost va = views(a@);
    let ghost vb = views(b@);
    let mut i: usize = 0;
    assert(va.skip(0) =~= va);
    assert(vb.skip(0) =~= vb);
    while i < a.len() && i < b.len() && crate::text::str_eq(a[i].as_str(), b[i].as_str())
        invariant
            va == views(a@),
            vb == views(b@),
            i <= a.len(),
            i <= b.len(),
            path_lt(va, vb) == path_lt(va.skip(i as int), vb.skip(i as int)),
        decreases a.len() - i,
    {
        assert(va.skip(i as int).drop_first() =~= va.skip(i + 1));
        assert(vb.skip(i as int).drop_first() =~= vb.skip(i + 1));
        i += 1;
    }
    if i == a.len() {
        i < b.len()
    } else if i == b.len() {
        false
    } else {
        str_less(a[i].as_str(), b[i].as_str())
    }
}

/// `a` starts with the segments `p`.
pub open spec fn starts_with(a: Seq<Seq<char>>, p: Seq<Seq<char>>) -> bool {
    p.len() <= a.len() && a.take(p.len() as int) == p
}

/// The first `depth` segments of `a`, or all of them.
pub open spec fn unit(a: Seq<Seq<char>>, depth: int) -> Seq<Seq<char>> {
    if depth <= a.len() {
        a.take(depth)
    } else {
        a
    }
}


/// True when the path `a` starts with the segments `p`.
pub fn has_prefix(a: &Vec<String>, p: &Vec<String>) -> (r: bool)
    ensures
        r == starts_with(views(a@), views(p@)),
{
    if p.len() > a.len() {
        return false;
    }
    let mut k: usize = 0;
    while k < p.len()
        invariant
            p.len() <= a.len(),
            k <= p.len(),
            forall|j: int| 0 <= j < k ==> a@[j]@ == p@[j]@,
        decreases p.len() - k,
    {
        if !str_eq(a[k].as_str(), p[k].as_str()) {
            assert(views(a@).take(p.len() as int)[k as int] != views(p@)[k as int]);
            return false;
        }
        k += 1;
    }
    assert(views(a@).take(p.len() as int) =~= views(p@));
    true
}

/// The first `depth` segments of `a`, or all of them.
pub fn unit_of(a: &Vec<String>, depth: usize) -> (r: Vec<String>)
    ensures
        views(r@) == unit(views(a@), depth as int),
{
    let n = if depth <= a.len() {
        depth
    } else {
        a.len()
    };
    let mut out: Vec<String> = Vec::new();
    let mut k: usize = 0;
    while k < n
        invariant
            n <= a.len(),
            k <= n,
            views(out@) == views(a@).take(k as int),
        decreases n - k,
    {
        let ghost prev = views(out@);
        out.push(copy_string(&a[k]));
        assert(views(out@) =~= prev.push(a@[k as int]@));
        assert(views(out@) =~= views(a@).take(k + 1));
        k += 1;
    }
    assert(views(a@).take(a.len() as int) =~= views(a@));
    out
}

/// True when two paths are equal.
pub fn same_path(a: &Vec<String>, b: &Vec<String>) -> (r: bool)
    ensures
        r == (views(a@) == views(b@)),
{
    if a.len() != b.len() {
        assert(views(a@).len() != views(b@).len());
        return false;
    }
    assert(views(a@).take(b.len() as int) =~= views(a@));
    has_prefix(a, b)
}


/// The paths of a list of module paths.
pub open spec fn paths(v: Seq<Vec<String>>) -> Seq<Seq<Seq<char>>> {
    v.map_values(|x: Vec<String>| views(x@))
}

/// `ps` is strictly increasing in path order.
pub open spec fn strictly_sorted(ps: Seq<Seq<Seq<char>>>) -> bool {
    forall|i: int, j: int| 0 <= i < j < ps.len() ==> path_lt(#[trigger] ps[i], #[trigger] ps[j])
}

/// A proper prefix of a path sorts before it.
pub proof fn lemma_prefix_sorts_first(p: Seq<Seq<char>>, m: Seq<Seq<char>>)
    requires
        p.len() < m.len(),
        m.take(p.len() as int) == p,
    ensures
        path_lt(p, m),
    decreases p.len(),
{
    if p.len() > 0 {
        assert(p[0] == m[0]);
        assert(m.drop_first().take(p.drop_first().len() as int) =~= p.drop_first());
        lemma_prefix_sorts_first(p.drop_first(), m.drop_first());
    }
}

/// Insert `x` into the strictly sorted `mods`, unless it is there.
pub fn insert_sorted(mods: &mut Vec<Vec<String>>, x: Vec<String>)
    requires
        strictly_sorted(paths(old(mods)@)),
    ensures
        strictly_sorted(paths(final(mods)@)),
        forall|y: Seq<Seq<char>>|
            paths(final(mods)@).contains(y) <==> (paths(old(mods)@).contains(y) || y == views(x@)),
{
    let ghost xs = views(x@);
    let ghost before = paths(mods@);
    let mut p: usize = 0;
    while p < mods.len() && path_less(&mods[p], &x)
        invariant
            paths(mods@) == before,
            xs == views(x@),
            p <= mods.len(),
            forall|j: int| 0 <= j < p ==> path_lt(#[trigger] before[j], xs),
        decreases mods.len() - p,
    {
        p += 1;
    }
    if p < mods.len() && same_path(&mods[p], &x) {
        proof {
            assert(before[p as int] == xs);
            assert forall|y: Seq<Seq<char>>| before.contains(y) <==> (before.contains(y) || y == xs) by {
                if y == xs {
                    assert(before[p as int] == y);
                }
            }
        }
        return;
    }
    proof {
        if p < before.len() {
            lemma_path_total(before[p as int], xs);
        }
    }
    mods.insert(p, x);
    let ghost after = paths(mods@);
    assert(after =~= before.insert(p as int, xs));
    proof {
        assert forall|i: int, j: int| 0 <= i < j < after.len() implies path_lt(#[trigger] after[i], #[trigger] after[j]) by {
            if j < p {
                assert(after[i] == before[i] && after[j] == before[j]);
            } else if j == p {
                assert(after[i] == before[i]);
            } else if i < p {
                assert(after[i] == before[i] && after[j] == before[j - 1]);
                assert(path_lt(before[i], xs));
                if j - 1 > p {
                    assert(path_lt(before[p as int], before[j - 1]));
                    lemma_path_transitive(xs, before[p as int], before[j - 1]);
                }
                lemma_path_transitive(before[i], xs, before[j - 1]);
            } else if i == p {
                assert(after[j] == before[j - 1]);
                if j - 1 > p {
                    assert(path_lt(before[p as int], before[j - 1]));
                    lemma_path_transitive(xs, before[p as int], before[j - 1]);
                }
            } else {
                assert(after[i] == before[i - 1] && after[j] == before[j - 1]);
            }
        }
        assert forall|y: Seq<Seq<char>>| after.contains(y) <==> (before.contains(y) || y == xs) by {
            if after.contains(y) {
                let q = choose|q: int| 0 <= q < after.len() && after[q] == y;
                if q < p {
                    assert(before[q] == y);
                } else if q > p {
                    assert(before[q - 1] == y);
                }
            }
            if before.contains(y) {
                let q = choose|q: int| 0 <= q < before.len() && before[q] == y;
                if q < p {
                    assert(after[q] == y);
                } else {
                    assert(after[q + 1] == y);
                }
            }
            if y == xs {
                assert(after[p as int] == y);
            }
        }
    }
}


} // verus!
