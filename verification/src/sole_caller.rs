//! MOD004 sole-caller findings, shared by the Rust and C# rules: the
//! findings grouped by the file each one anchors to (the caller's file).
use crate::diagnostic::Diagnostic;
use crate::lex::{path_lt, strictly_sorted};
use crate::text::{decimal, decimal_string, owned, push_str, str_eq};
use vstd::prelude::*;

verus! {

/// The findings the entries hold for the anchor `k`, entry by entry.
pub open spec fn lookup(entries: Seq<(Seq<char>, Seq<Diagnostic>)>, k: Seq<char>) -> Seq<Diagnostic>
    decreases entries.len(),
{
    if entries.len() == 0 {
        Seq::empty()
    } else {
        lookup(entries.drop_last(), k) + (if entries.last().0 == k {
            entries.last().1
        } else {
            Seq::empty()
        })
    }
}

/// Every finding the entries hold, entry by entry.
pub open spec fn flatten(entries: Seq<(Seq<char>, Seq<Diagnostic>)>) -> Seq<Diagnostic>
    decreases entries.len(),
{
    if entries.len() == 0 {
        Seq::empty()
    } else {
        flatten(entries.drop_last()) + entries.last().1
    }
}

/// The plain view of a list of anchored findings.
pub open spec fn entries_view(es: Seq<(String, Vec<Diagnostic>)>) -> Seq<(Seq<char>, Seq<Diagnostic>)> {
    es.map_values(|e: (String, Vec<Diagnostic>)| (e.0@, e.1@))
}

/// No anchor occurs twice among the entries.
pub open spec fn distinct_anchors(entries: Seq<(Seq<char>, Seq<Diagnostic>)>) -> bool {
    forall|i: int, j: int| 0 <= i < j < entries.len() ==> #[trigger] entries[i].0 != #[trigger] entries[j].0
}

/// With distinct anchors, an anchor's findings are those of its entry.
pub proof fn lemma_lookup_entry(entries: Seq<(Seq<char>, Seq<Diagnostic>)>, i: int)
    requires
        distinct_anchors(entries),
        0 <= i < entries.len(),
    ensures
        lookup(entries, entries[i].0) == entries[i].1,
    decreases entries.len(),
{
    let k = entries[i].0;
    if i == entries.len() - 1 {
        lemma_lookup_absent(entries.drop_last(), k);
        assert(lookup(entries.drop_last(), k) + entries[i].1 =~= entries[i].1);
    } else {
        lemma_lookup_entry(entries.drop_last(), i);
        assert(entries.last().0 != k);
        assert(lookup(entries.drop_last(), k) + Seq::empty() =~= lookup(entries.drop_last(), k));
    }
}

/// An anchor no entry names has no findings.
pub proof fn lemma_lookup_absent(entries: Seq<(Seq<char>, Seq<Diagnostic>)>, k: Seq<char>)
    requires
        forall|i: int| 0 <= i < entries.len() ==> #[trigger] entries[i].0 != k,
    ensures
        lookup(entries, k) == Seq::<Diagnostic>::empty(),
    decreases entries.len(),
{
    if entries.len() > 0 {
        lemma_lookup_absent(entries.drop_last(), k);
        assert(entries.last().0 != k);
        assert(lookup(entries.drop_last(), k) + Seq::empty() =~= Seq::<Diagnostic>::empty());
    }
}

/// Adding one entry at the end adds its findings after the anchor's others.
proof fn lemma_lookup_push(entries: Seq<(Seq<char>, Seq<Diagnostic>)>, e: (Seq<char>, Seq<Diagnostic>), k: Seq<char>)
    ensures
        lookup(entries.push(e), k) == lookup(entries, k) + (if e.0 == k {
            e.1
        } else {
            Seq::empty()
        }),
{
    assert(entries.push(e).drop_last() =~= entries);
}

/// The entries whose decision in `chosen` is `true`, in order.
pub open spec fn select(
    entries: Seq<(Seq<char>, Seq<Diagnostic>)>,
    chosen: Seq<bool>,
) -> Seq<(Seq<char>, Seq<Diagnostic>)>
    decreases entries.len(),
{
    if entries.len() == 0 || chosen.len() == 0 {
        Seq::empty()
    } else {
        select(entries.drop_last(), chosen.drop_last()) + (if chosen.last() {
            seq![entries.last()]
        } else {
            Seq::empty()
        })
    }
}

proof fn lemma_select_from(entries: Seq<(Seq<char>, Seq<Diagnostic>)>, chosen: Seq<bool>, a: int)
    requires
        entries.len() == chosen.len(),
        0 <= a < select(entries, chosen).len(),
    ensures
        exists|q: int| 0 <= q < entries.len() && #[trigger] entries[q] == select(entries, chosen)[a],
    decreases entries.len(),
{
    let prev = select(entries.drop_last(), chosen.drop_last());
    if a < prev.len() {
        lemma_select_from(entries.drop_last(), chosen.drop_last(), a);
        let q = choose|q: int| 0 <= q < entries.drop_last().len() && #[trigger] entries.drop_last()[q] == prev[a];
        assert(entries[q] == entries.drop_last()[q]);
    } else {
        assert(entries[entries.len() - 1] == select(entries, chosen)[a]);
    }
}

proof fn lemma_select_distinct(entries: Seq<(Seq<char>, Seq<Diagnostic>)>, chosen: Seq<bool>)
    requires
        entries.len() == chosen.len(),
        distinct_anchors(entries),
    ensures
        distinct_anchors(select(entries, chosen)),
    decreases entries.len(),
{
    if entries.len() > 0 {
        lemma_select_distinct(entries.drop_last(), chosen.drop_last());
        let prev = select(entries.drop_last(), chosen.drop_last());
        let all = select(entries, chosen);
        if chosen.last() {
            assert forall|a: int, b: int| 0 <= a < b < all.len() implies #[trigger] all[a].0 != #[trigger] all[b].0 by {
                if b == all.len() - 1 {
                    lemma_select_from(entries.drop_last(), chosen.drop_last(), a);
                    let q = choose|q: int|
                        0 <= q < entries.drop_last().len() && #[trigger] entries.drop_last()[q] == prev[a];
                    assert(entries[q] == prev[a]);
                    assert(all[a] == prev[a]);
                } else {
                    assert(all[a] == prev[a]);
                    assert(all[b] == prev[b]);
                }
            }
        } else {
            assert(all =~= prev);
        }
    }
}

proof fn lemma_lookup_select_absent(entries: Seq<(Seq<char>, Seq<Diagnostic>)>, chosen: Seq<bool>, k: Seq<char>)
    requires
        forall|i: int| 0 <= i < entries.len() ==> #[trigger] entries[i].0 != k,
    ensures
        lookup(select(entries, chosen), k) == Seq::<Diagnostic>::empty(),
    decreases entries.len(),
{
    if entries.len() > 0 && chosen.len() > 0 {
        assert forall|q: int| 0 <= q < entries.drop_last().len() implies #[trigger] entries.drop_last()[q].0 != k by {
            assert(entries.drop_last()[q] == entries[q]);
        }
        lemma_lookup_select_absent(entries.drop_last(), chosen.drop_last(), k);
        let prev = select(entries.drop_last(), chosen.drop_last());
        if chosen.last() {
            assert(select(entries, chosen) =~= prev.push(entries.last()));
            lemma_lookup_push(prev, entries.last(), k);
            assert(entries[entries.len() - 1].0 != k);
            assert(Seq::<Diagnostic>::empty() + Seq::empty() =~= Seq::<Diagnostic>::empty());
        } else {
            assert(select(entries, chosen) =~= prev);
        }
    }
}

proof fn lemma_lookup_select(entries: Seq<(Seq<char>, Seq<Diagnostic>)>, chosen: Seq<bool>, i: int)
    requires
        entries.len() == chosen.len(),
        distinct_anchors(entries),
        0 <= i < entries.len(),
    ensures
        lookup(select(entries, chosen), entries[i].0) == (if chosen[i] {
            entries[i].1
        } else {
            Seq::empty()
        }),
    decreases entries.len(),
{
    let k = entries[i].0;
    let prev = select(entries.drop_last(), chosen.drop_last());
    if i == entries.len() - 1 {
        assert forall|q: int| 0 <= q < entries.drop_last().len() implies #[trigger] entries.drop_last()[q].0 != k by {
            assert(entries.drop_last()[q] == entries[q]);
        }
        lemma_lookup_select_absent(entries.drop_last(), chosen.drop_last(), k);
        if chosen.last() {
            assert(select(entries, chosen) =~= prev.push(entries.last()));
            lemma_lookup_push(prev, entries.last(), k);
            assert(Seq::<Diagnostic>::empty() + entries[i].1 =~= entries[i].1);
        } else {
            assert(select(entries, chosen) =~= prev);
        }
    } else {
        lemma_lookup_select(entries.drop_last(), chosen.drop_last(), i);
        assert(entries.drop_last()[i] == entries[i]);
        assert(chosen.drop_last()[i] == chosen[i]);
        if chosen.last() {
            assert(select(entries, chosen) =~= prev.push(entries.last()));
            lemma_lookup_push(prev, entries.last(), k);
            assert(entries[entries.len() - 1].0 != k);
            assert(lookup(prev, k) + Seq::empty() =~= lookup(prev, k));
        } else {
            assert(select(entries, chosen) =~= prev);
        }
    }
}

/// MOD004 findings grouped by anchor file, one entry per anchor.
pub struct SoleCallerFindings {
    by_file: Vec<(String, Vec<Diagnostic>)>,
}

impl SoleCallerFindings {
    /// Each anchor has one entry.
    #[verifier::type_invariant]
    spec fn one_entry_per_anchor(self) -> bool {
        distinct_anchors(entries_view(self.by_file@))
    }

    /// The entries, one per anchor file, with their findings.
    pub closed spec fn entries(self) -> Seq<(Seq<char>, Seq<Diagnostic>)> {
        entries_view(self.by_file@)
    }

    /// The findings anchored at `k`.
    pub open spec fn anchored(self, k: Seq<char>) -> Seq<Diagnostic> {
        lookup(self.entries(), k)
    }

    /// Every finding, anchor by anchor.
    pub open spec fn everything(self) -> Seq<Diagnostic> {
        flatten(self.entries())
    }

    /// No findings yet.
    pub fn empty() -> (r: Self)
        ensures
            r.entries().len() == 0,
            forall|k: Seq<char>| #[trigger] r.anchored(k) == Seq::<Diagnostic>::empty(),
    {
        let r = SoleCallerFindings { by_file: Vec::new() };
        assert(r.entries() =~= Seq::empty());
        r
    }

    /// Wrap findings already tagged with their anchor files; the findings
    /// of one anchor keep their order.
    pub fn new(by_file: Vec<(String, Vec<Diagnostic>)>) -> (r: Self)
        ensures
            forall|k: Seq<char>| #[trigger] r.anchored(k) == lookup(entries_view(by_file@), k),
    {
        let ghost input = entries_view(by_file@);
        let mut out = Self::empty();
        let mut rest = by_file;
        assert(input.len() == rest.len());
        let mut done: usize = 0;
        while rest.len() > 0
            invariant
                input.len() <= usize::MAX,
                done + rest.len() == input.len(),
                entries_view(rest@) == input.skip(done as int),
                forall|k: Seq<char>| #[trigger] out.anchored(k) == lookup(input.take(done as int), k),
            decreases rest.len(),
        {
            let ghost before = entries_view(rest@);
            let (key, found) = rest.remove(0);
            assert(entries_view(rest@) =~= before.drop_first());
            assert(input[done as int] == before[0]);
            assert(input.take(done + 1) =~= input.take(done as int).push(input[done as int]));
            let ghost prev = input.take(done as int);
            out.add(key, found);
            assert forall|k: Seq<char>| #[trigger] out.anchored(k) == lookup(input.take(done + 1), k) by {
                lemma_lookup_push(prev, input[done as int], k);
            }
            done += 1;
            assert(input.skip(done as int) =~= before.drop_first());
        }
        assert(input.take(input.len() as int) =~= input);
        out
    }

    /// Append `found` to the findings anchored at `key`.
    fn add(&mut self, key: String, found: Vec<Diagnostic>)
        ensures
            forall|k: Seq<char>|
                #[trigger] final(self).anchored(k) == old(self).anchored(k) + (if k == key@ {
                    found@
                } else {
                    Seq::empty()
                }),
    {
        proof {
            use_type_invariant(&*self);
        }
        let ghost before = self.entries();
        let mut v: Vec<(String, Vec<Diagnostic>)> = Vec::new();
        std::mem::swap(&mut v, &mut self.by_file);
        assert(entries_view(v@) == before);
        let mut j: usize = 0;
        while j < v.len()
            invariant
                entries_view(v@) == before,
                j <= v.len(),
                forall|q: int| 0 <= q < j ==> #[trigger] before[q].0 != key@,
            ensures
                entries_view(v@) == before,
                j <= v.len(),
                j < v.len() ==> before[j as int].0 == key@,
                forall|q: int| 0 <= q < j ==> #[trigger] before[q].0 != key@,
            decreases v.len() - j,
        {
            if str_eq(v[j].0.as_str(), key.as_str()) {
                break;
            }
            j += 1;
        }
        let mut found = found;
        let ghost fv = found@;
        if j < v.len() {
            assert(before[j as int].0 == key@);
            let (k0, mut list) = v.remove(j);
            list.append(&mut found);
            v.insert(j, (k0, list));
            let ghost after = entries_view(v@);
            assert(after =~= before.update(j as int, (key@, before[j as int].1 + fv)));
            proof {
                assert forall|a: int, b: int| 0 <= a < b < after.len() implies #[trigger] after[a].0
                    != #[trigger] after[b].0 by {
                    assert(after[a].0 == before[a].0);
                    assert(after[b].0 == before[b].0);
                }
                assert forall|k: Seq<char>| #[trigger] lookup(after, k) == lookup(before, k) + (if k == key@ {
                    fv
                } else {
                    Seq::empty()
                }) by {
                    if k == key@ {
                        lemma_lookup_entry(before, j as int);
                        lemma_lookup_entry(after, j as int);
                    } else {
                        lemma_lookup_other(before, j as int, (key@, before[j as int].1 + fv), k);
                        assert(lookup(before, k) + Seq::empty() =~= lookup(before, k));
                    }
                }
            }
        } else {
            v.push((key, found));
            let ghost after = entries_view(v@);
            assert(after =~= before.push((key@, fv)));
            proof {
                assert forall|a: int, b: int| 0 <= a < b < after.len() implies #[trigger] after[a].0
                    != #[trigger] after[b].0 by {
                    if b == after.len() - 1 {
                        assert(before[a].0 != key@);
                    }
                }
                assert forall|k: Seq<char>| #[trigger] lookup(after, k) == lookup(before, k) + (if k == key@ {
                    fv
                } else {
                    Seq::empty()
                }) by {
                    lemma_lookup_push(before, (key@, fv), k);
                }
            }
        }
        self.by_file = v;
    }

    /// Absorb `other`'s findings: a shared anchor appends `other`'s
    /// findings after this set's.
    pub fn merge(&mut self, other: Self)
        ensures
            forall|k: Seq<char>| #[trigger] final(self).anchored(k) == old(self).anchored(k) + other.anchored(k),
    {
        let ghost input = other.entries();
        let ghost start = *self;
        let mut rest = other.by_file;
        assert(input.len() == rest.len());
        let mut done: usize = 0;
        while rest.len() > 0
            invariant
                input.len() <= usize::MAX,
                done + rest.len() == input.len(),
                entries_view(rest@) == input.skip(done as int),
                forall|k: Seq<char>| #[trigger] self.anchored(k) == start.anchored(k) + lookup(input.take(done as int), k),
            decreases rest.len(),
        {
            let ghost before = entries_view(rest@);
            let (key, found) = rest.remove(0);
            assert(entries_view(rest@) =~= before.drop_first());
            assert(input[done as int] == before[0]);
            assert(input.take(done + 1) =~= input.take(done as int).push(input[done as int]));
            let ghost prev = input.take(done as int);
            self.add(key, found);
            assert forall|k: Seq<char>| #[trigger] self.anchored(k) == start.anchored(k) + lookup(input.take(done + 1), k) by {
                lemma_lookup_push(prev, input[done as int], k);
                assert(start.anchored(k) + lookup(prev, k) + (if input[done as int].0 == k {
                    input[done as int].1
                } else {
                    Seq::empty()
                }) =~= start.anchored(k) + (lookup(prev, k) + (if input[done as int].0 == k {
                    input[done as int].1
                } else {
                    Seq::empty()
                })));
            }
            done += 1;
            assert(input.skip(done as int) =~= before.drop_first());
        }
        assert(input.take(input.len() as int) =~= input);
    }

    /// Drop the findings anchored at files `keep` rejects; the kept
    /// anchors keep their findings.
    pub fn retain_anchors<F: Fn(&str) -> bool>(&mut self, keep: F)
        requires
            forall|p: &str| #[trigger] keep.requires((p,)),
        ensures
            forall|i: int|
                #![trigger old(self).entries()[i]]
                0 <= i < old(self).entries().len() ==> {
                    let k = old(self).entries()[i].0;
                    ||| (final(self).anchored(k) == old(self).anchored(k) && exists|p: &str|
                        p@ == k && #[trigger] keep.ensures((p,), true))
                    ||| (final(self).anchored(k) == Seq::<Diagnostic>::empty() && exists|p: &str|
                        p@ == k && #[trigger] keep.ensures((p,), false))
                },
            forall|k: Seq<char>|
                (forall|i: int| 0 <= i < old(self).entries().len() ==> #[trigger] old(self).entries()[i].0 != k)
                    ==> #[trigger] final(self).anchored(k) == Seq::<Diagnostic>::empty(),
    {
        proof {
            use_type_invariant(&*self);
        }
        let ghost input = self.entries();
        let mut rest: Vec<(String, Vec<Diagnostic>)> = Vec::new();
        std::mem::swap(&mut rest, &mut self.by_file);
        assert(entries_view(rest@) == input);
        assert(input.len() == rest.len());
        let mut kept: Vec<(String, Vec<Diagnostic>)> = Vec::new();
        let ghost mut chosen: Seq<bool> = Seq::empty();
        let ghost mut asked: Seq<&str> = Seq::empty();
        let mut done: usize = 0;
        while rest.len() > 0
            invariant
                forall|p: &str| #[trigger] keep.requires((p,)),
                distinct_anchors(input),
                input.len() <= usize::MAX,
                done + rest.len() == input.len(),
                entries_view(rest@) == input.skip(done as int),
                chosen.len() == done,
                asked.len() == done,
                forall|q: int| 0 <= q < done ==> (#[trigger] asked[q])@ == input[q].0,
                forall|q: int| 0 <= q < done ==> keep.ensures((asked[q],), #[trigger] chosen[q]),
                entries_view(kept@) == select(input.take(done as int), chosen),
            decreases rest.len(),
        {
            let ghost before = entries_view(rest@);
            let (key, found) = rest.remove(0);
            assert(entries_view(rest@) =~= before.drop_first());
            assert(input[done as int] == before[0]);
            let ghost kv = key@;
            let ghost fv = found@;
            assert(input[done as int] == (kv, fv));
            let ghost prev_kept = entries_view(kept@);
            let ghost prev_chosen = chosen;
            let ks = key.as_str();
            let yes = keep(ks);
            proof {
                let ghost prev_asked = asked;
                chosen = chosen.push(yes);
                asked = asked.push(ks);
                assert(input.take(done + 1).drop_last() =~= input.take(done as int));
                assert(chosen.drop_last() =~= prev_chosen);
                assert(keep.ensures((ks,), yes));
                assert(ks@ == input[done as int].0);
                assert forall|q: int| 0 <= q < done + 1 implies (#[trigger] asked[q])@ == input[q].0 by {
                    if q < done {
                        assert(asked[q] == prev_asked[q]);
                    }
                }
                assert forall|q: int| 0 <= q < done + 1 implies keep.ensures((asked[q],), #[trigger] chosen[q]) by {
                    if q < done {
                        assert(chosen[q] == prev_chosen[q]);
                        assert(asked[q] == prev_asked[q]);
                    }
                }
            }
            if yes {
                kept.push((key, found));
                assert(entries_view(kept@) =~= prev_kept.push((kv, fv)));
                assert(select(input.take(done + 1), chosen) =~= select(input.take(done as int), prev_chosen).push(
                    input[done as int],
                ));
            } else {
                assert(entries_view(kept@) =~= prev_kept);
                assert(select(input.take(done + 1), chosen) =~= select(input.take(done as int), prev_chosen));
            }
            done += 1;
            assert(input.skip(done as int) =~= before.drop_first());
        }
        assert(input.take(input.len() as int) =~= input);
        proof {
            lemma_select_distinct(input, chosen);
            assert forall|i: int| #![trigger input[i]] 0 <= i < input.len() implies {
                let k = input[i].0;
                ||| (lookup(select(input, chosen), k) == lookup(input, k) && exists|p: &str|
                    p@ == k && #[trigger] keep.ensures((p,), true))
                ||| (lookup(select(input, chosen), k) == Seq::<Diagnostic>::empty() && exists|p: &str|
                    p@ == k && #[trigger] keep.ensures((p,), false))
            } by {
                lemma_lookup_select(input, chosen, i);
                lemma_lookup_entry(input, i);
                assert(chosen[i] == chosen[i]);
                assert(keep.ensures((asked[i],), chosen[i]));
            }
            assert forall|k: Seq<char>|
                (forall|i: int| 0 <= i < input.len() ==> #[trigger] input[i].0 != k) implies #[trigger] lookup(
                select(input, chosen),
                k,
            ) == Seq::<Diagnostic>::empty() by {
                lemma_lookup_select_absent(input, chosen, k);
            }
        }
        self.by_file = kept;
    }

    /// The findings anchored at `path`.
    ///
    /// # Returns
    ///
    /// That file's findings in order; empty when it anchors none.
    pub fn for_file(&self, path: &str) -> (r: &[Diagnostic])
        ensures
            r@ == self.anchored(path@),
    {
        proof {
            use_type_invariant(self);
        }
        let ghost es = self.entries();
        let mut j: usize = 0;
        while j < self.by_file.len()
            invariant
                es == self.entries(),
                distinct_anchors(es),
                j <= self.by_file.len(),
                forall|q: int| 0 <= q < j ==> #[trigger] es[q].0 != path@,
            decreases self.by_file.len() - j,
        {
            if str_eq(self.by_file[j].0.as_str(), path) {
                proof {
                    lemma_lookup_entry(es, j as int);
                }
                return self.by_file[j].1.as_slice();
            }
            j += 1;
        }
        proof {
            lemma_lookup_absent(es, path@);
        }
        &[]
    }

    /// Every finding across all anchor files, anchor by anchor.
    pub fn all(&self) -> (r: Vec<&Diagnostic>)
        ensures
            r.len() == self.everything().len(),
            forall|i: int| 0 <= i < r.len() ==> *r@[i] == self.everything()[i],
    {
        let ghost es = self.entries();
        let mut out: Vec<&Diagnostic> = Vec::new();
        let mut j: usize = 0;
        while j < self.by_file.len()
            invariant
                es == self.entries(),
                j <= self.by_file.len(),
                out.len() == flatten(es.take(j as int)).len(),
                forall|i: int| 0 <= i < out.len() ==> *out@[i] == flatten(es.take(j as int))[i],
            decreases self.by_file.len() - j,
        {
            let list = &self.by_file[j].1;
            let ghost base = flatten(es.take(j as int));
            assert(es.take(j + 1).drop_last() =~= es.take(j as int));
            let mut m: usize = 0;
            while m < list.len()
                invariant
                    list@ == es[j as int].1,
                    m <= list.len(),
                    out.len() == base.len() + m,
                    forall|i: int| 0 <= i < out.len() ==> *out@[i] == (base + list@)[i],
                decreases list.len() - m,
            {
                out.push(&list[m]);
                m += 1;
            }
            j += 1;
        }
        assert(es.take(es.len() as int) =~= es);
        out
    }
}

/// Replacing an entry other than `k`'s keeps `k`'s findings.
proof fn lemma_lookup_other(
    entries: Seq<(Seq<char>, Seq<Diagnostic>)>,
    j: int,
    e: (Seq<char>, Seq<Diagnostic>),
    k: Seq<char>,
)
    requires
        0 <= j < entries.len(),
        entries[j].0 == e.0,
        e.0 != k,
    ensures
        lookup(entries.update(j, e), k) == lookup(entries, k),
    decreases entries.len(),
{
    if j < entries.len() - 1 {
        lemma_lookup_other(entries.drop_last(), j, e, k);
        assert(entries.update(j, e).drop_last() =~= entries.drop_last().update(j, e));
    } else {
        assert(entries.update(j, e).drop_last() =~= entries.drop_last());
    }
}

/// `count` references, in words.
pub open spec fn references_spec(count: nat) -> Seq<char> {
    if count == 1 {
        "1 reference"@
    } else {
        decimal(count) + " references"@
    }
}

/// `count` references, in words: "1 reference", "2 references".
pub fn references_text(count: usize) -> (r: String)
    ensures
        r@ == references_spec(count as nat),
{
    if count == 1 {
        owned("1 reference")
    } else {
        let mut out = decimal_string(count);
        push_str(&mut out, " references");
        out
    }
}

/// A path, as the rules name modules and namespaces: its segments.
pub type Segments = Seq<Seq<char>>;

/// The paths of `ems` whose finding anchors at `a` under `anchor`, in
/// order.
pub open spec fn with_anchor(ems: Seq<Segments>, anchor: spec_fn(Segments) -> Seq<char>, a: Seq<char>) -> Seq<Segments>
    decreases ems.len(),
{
    if ems.len() == 0 {
        Seq::empty()
    } else {
        with_anchor(ems.drop_last(), anchor, a) + (if anchor(ems.last()) == a {
            seq![ems.last()]
        } else {
            Seq::empty()
        })
    }
}

/// `ds` holds the findings anchored at `a`: one per path that `chosen`
/// selects and `anchor` anchors there, listed in `ms` in increasing path
/// order, each as `hint` describes it.
pub open spec fn hints_at(
    ds: Seq<Diagnostic>,
    a: Seq<char>,
    ms: Seq<Segments>,
    chosen: spec_fn(Segments) -> bool,
    anchor: spec_fn(Segments) -> Seq<char>,
    hint: spec_fn(Diagnostic, Segments) -> bool,
) -> bool {
    &&& strictly_sorted(ms)
    &&& forall|x: Segments| ms.contains(x) <==> chosen(x) && anchor(x) == a
    &&& ds.len() == ms.len()
    &&& forall|i: int| 0 <= i < ds.len() ==> hint(#[trigger] ds[i], ms[i])
}

/// `ds` holds the findings anchored at `a`, for some listing of the
/// chosen paths.
pub open spec fn hinted(
    ds: Seq<Diagnostic>,
    a: Seq<char>,
    chosen: spec_fn(Segments) -> bool,
    anchor: spec_fn(Segments) -> Seq<char>,
    hint: spec_fn(Diagnostic, Segments) -> bool,
) -> bool {
    exists|ms: Seq<Segments>| #[trigger] hints_at(ds, a, ms, chosen, anchor, hint)
}

/// A path is among those anchored at `a` exactly when it is among `ems`
/// and anchors there.
pub proof fn lemma_with_anchor_members(ems: Seq<Segments>, anchor: spec_fn(Segments) -> Seq<char>, a: Seq<char>, x: Segments)
    ensures
        with_anchor(ems, anchor, a).contains(x) <==> ems.contains(x) && anchor(x) == a,
    decreases ems.len(),
{
    if ems.len() > 0 {
        let pm = ems.drop_last();
        lemma_with_anchor_members(pm, anchor, a, x);
        let prev = with_anchor(pm, anchor, a);
        let all = with_anchor(ems, anchor, a);
        let last = ems.last();
        assert(ems =~= pm.push(last));
        if anchor(last) == a {
            assert(all =~= prev.push(last));
        } else {
            assert(all =~= prev);
        }
        if all.contains(x) {
            let q = choose|q: int| 0 <= q < all.len() && all[q] == x;
            if q < prev.len() {
                assert(prev[q] == x);
                let r = choose|r: int| 0 <= r < pm.len() && pm[r] == x;
                assert(ems[r] == x);
            } else {
                assert(x == last);
                assert(ems[ems.len() - 1] == x);
            }
        }
        if ems.contains(x) && anchor(x) == a {
            let q = choose|q: int| 0 <= q < ems.len() && ems[q] == x;
            if q < pm.len() {
                assert(pm[q] == x);
                let r = choose|r: int| 0 <= r < prev.len() && prev[r] == x;
                assert(all[r] == x);
            } else {
                assert(x == last);
                assert(all[all.len() - 1] == x);
            }
        }
    }
}

/// Selecting the paths anchored at `a` keeps them sorted.
pub proof fn lemma_with_anchor_sorted(ems: Seq<Segments>, anchor: spec_fn(Segments) -> Seq<char>, a: Seq<char>)
    requires
        strictly_sorted(ems),
    ensures
        strictly_sorted(with_anchor(ems, anchor, a)),
    decreases ems.len(),
{
    if ems.len() > 0 {
        let pm = ems.drop_last();
        let prev = with_anchor(pm, anchor, a);
        assert(strictly_sorted(pm)) by {
            assert forall|i: int, j: int| 0 <= i < j < pm.len() implies path_lt(#[trigger] pm[i], #[trigger] pm[j]) by {
                assert(pm[i] == ems[i] && pm[j] == ems[j]);
            }
        }
        lemma_with_anchor_sorted(pm, anchor, a);
        if anchor(ems.last()) == a {
            let all = with_anchor(ems, anchor, a);
            assert(all =~= prev.push(ems.last()));
            assert forall|i: int, j: int| 0 <= i < j < all.len() implies path_lt(#[trigger] all[i], #[trigger] all[j]) by {
                if j == all.len() - 1 {
                    assert(prev.contains(all[i]));
                    lemma_with_anchor_members(pm, anchor, a, all[i]);
                    let q = choose|q: int| 0 <= q < pm.len() && pm[q] == all[i];
                    assert(ems[q] == all[i]);
                    assert(path_lt(ems[q], ems[ems.len() - 1]));
                } else {
                    assert(all[i] == prev[i] && all[j] == prev[j]);
                }
            }
        } else {
            assert(with_anchor(ems, anchor, a) =~= prev);
        }
    }
}

/// The entries pushed for the paths `ems`: entry `q` anchors, as `anchor`
/// says, the one finding for path `q`, as `hint` describes it.
pub open spec fn entries_match(
    entries: Seq<(Seq<char>, Seq<Diagnostic>)>,
    ems: Seq<Segments>,
    anchor: spec_fn(Segments) -> Seq<char>,
    hint: spec_fn(Diagnostic, Segments) -> bool,
) -> bool {
    &&& entries.len() == ems.len()
    &&& forall|q: int|
        0 <= q < entries.len() ==> {
            &&& (#[trigger] entries[q]).0 == anchor(ems[q])
            &&& entries[q].1.len() == 1
            &&& hint(entries[q].1[0], ems[q])
        }
}

/// Looking up `a` in such entries gives one finding per path anchored at
/// `a`, in order.
pub proof fn lemma_lookup_hints(
    entries: Seq<(Seq<char>, Seq<Diagnostic>)>,
    ems: Seq<Segments>,
    anchor: spec_fn(Segments) -> Seq<char>,
    hint: spec_fn(Diagnostic, Segments) -> bool,
    a: Seq<char>,
)
    requires
        entries_match(entries, ems, anchor, hint),
    ensures
        lookup(entries, a).len() == with_anchor(ems, anchor, a).len(),
        forall|i: int| 0 <= i < lookup(entries, a).len() ==> hint(#[trigger] lookup(entries, a)[i], with_anchor(ems, anchor, a)[i]),
    decreases entries.len(),
{
    if entries.len() > 0 {
        let pe = entries.drop_last();
        let pm = ems.drop_last();
        assert(entries_match(pe, pm, anchor, hint)) by {
            assert forall|q: int| 0 <= q < pe.len() implies {
                &&& (#[trigger] pe[q]).0 == anchor(pm[q])
                &&& pe[q].1.len() == 1
                &&& hint(pe[q].1[0], pm[q])
            } by {
                assert(pe[q] == entries[q] && pm[q] == ems[q]);
            }
        }
        lemma_lookup_hints(pe, pm, anchor, hint, a);
        let last = entries.last();
        assert(last == entries[entries.len() - 1]);
        assert(last.0 == anchor(ems.last()));
        if last.0 == a {
            assert(with_anchor(ems, anchor, a) =~= with_anchor(pm, anchor, a).push(ems.last()));
            let la = lookup(entries, a);
            assert(la =~= lookup(pe, a) + last.1);
            assert forall|i: int| 0 <= i < la.len() implies hint(#[trigger] la[i], with_anchor(ems, anchor, a)[i]) by {
                if i < lookup(pe, a).len() {
                    assert(la[i] == lookup(pe, a)[i]);
                } else {
                    assert(la[i] == last.1[0]);
                }
            }
        } else {
            assert(with_anchor(ems, anchor, a) =~= with_anchor(pm, anchor, a));
            assert(lookup(entries, a) =~= lookup(pe, a));
        }
    }
}

/// With entries pushed one per chosen path, in increasing order, every
/// anchor's findings are exactly the hints for the chosen paths anchored
/// there.
pub proof fn lemma_hinted(
    entries: Seq<(Seq<char>, Seq<Diagnostic>)>,
    ems: Seq<Segments>,
    chosen: spec_fn(Segments) -> bool,
    anchor: spec_fn(Segments) -> Seq<char>,
    hint: spec_fn(Diagnostic, Segments) -> bool,
    a: Seq<char>,
)
    requires
        entries_match(entries, ems, anchor, hint),
        strictly_sorted(ems),
        forall|x: Segments| ems.contains(x) <==> chosen(x),
    ensures
        hinted(lookup(entries, a), a, chosen, anchor, hint),
{
    let ms = with_anchor(ems, anchor, a);
    lemma_with_anchor_sorted(ems, anchor, a);
    lemma_lookup_hints(entries, ems, anchor, hint, a);
    assert forall|x: Segments| ms.contains(x) <==> chosen(x) && anchor(x) == a by {
        lemma_with_anchor_members(ems, anchor, a, x);
    }
    assert(hints_at(lookup(entries, a), a, ms, chosen, anchor, hint));
}

} // verus!
