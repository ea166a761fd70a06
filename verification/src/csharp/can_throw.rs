//! Which methods and constructors of a file can throw.
//!
//! A member can throw when its own body holds a `throw` statement, or when
//! it calls or constructs, by simple name, a member of the same file that
//! can throw. Members are keyed by name, so overloads share one answer.
//! The answer is the least fixpoint of that rule, reached by rounds: round
//! 0 holds the names of the direct throwers, and each round adds the names
//! of the members that call a name of the round before.
use crate::csharp::declarations::{is_throwing_kind, throwing_kind, Declaration};
use crate::text::str_eq;
use vstd::prelude::*;

verus! {

/// The declaration `d` carries the name `n`.
pub open spec fn named_as(d: Declaration, n: Seq<char>) -> bool {
    d.name matches Some(x) && x@ == n
}

/// The declaration `d` carries a name known to throw after `k` rounds.
pub open spec fn hot_decl(decls: Seq<Declaration>, k: nat, d: Declaration) -> bool {
    d.name matches Some(x) && hot(decls, k, x@)
}

/// Declaration `j` is a method or constructor named `n`.
pub open spec fn member_named(decls: Seq<Declaration>, j: int, n: Seq<char>) -> bool {
    &&& 0 <= j < decls.len()
    &&& throwing_kind(decls[j].kind)
    &&& named_as(decls[j], n)
}

/// The name `n` belongs to a member known to throw after `k` rounds.
pub open spec fn hot(decls: Seq<Declaration>, k: nat, n: Seq<char>) -> bool
    decreases k,
{
    if k == 0 {
        exists|j: int| #[trigger] member_named(decls, j, n) && decls[j].direct_throw
    } else {
        hot(decls, (k - 1) as nat, n) || exists|j: int|
            #[trigger] member_named(decls, j, n) && exists|c: int|
                0 <= c < decls[j].calls.len() && hot(decls, (k - 1) as nat, #[trigger] decls[j].calls@[c]@)
    }
}

/// Declaration `i` is a method or constructor that can throw: it throws
/// directly, or its name is known to throw once every round has run.
pub open spec fn can_throw(decls: Seq<Declaration>, i: int) -> bool {
    &&& throwing_kind(decls[i].kind)
    &&& (decls[i].direct_throw || hot_decl(decls, decls.len() as nat, decls[i]))
}

/// A name known to throw after some round names a member of the file.
proof fn lemma_hot_named(decls: Seq<Declaration>, k: nat, n: Seq<char>)
    requires
        hot(decls, k, n),
    ensures
        exists|j: int| #[trigger] member_named(decls, j, n),
    decreases k,
{
    if k > 0 && hot(decls, (k - 1) as nat, n) {
        lemma_hot_named(decls, (k - 1) as nat, n);
    }
}

/// The rounds only ever add names.
proof fn lemma_hot_grows(decls: Seq<Declaration>, k: nat, m: nat, n: Seq<char>)
    requires
        k <= m,
        hot(decls, k, n),
    ensures
        hot(decls, m, n),
    decreases m - k,
{
    if k < m {
        lemma_hot_grows(decls, k, (m - 1) as nat, n);
    }
}

/// Once a round adds nothing, no later round does.
proof fn lemma_hot_settles(decls: Seq<Declaration>, k: nat, m: nat, n: Seq<char>)
    requires
        k <= m,
        forall|x: Seq<char>| #[trigger] hot(decls, k + 1, x) == hot(decls, k, x),
    ensures
        hot(decls, m, n) == hot(decls, k, n),
    decreases m - k,
{
    if k < m {
        assert forall|x: Seq<char>| #[trigger] hot(decls, (m - 1) as nat, x) == hot(decls, k, x) by {
            lemma_hot_settles(decls, k, (m - 1) as nat, x);
        }
        if hot(decls, m, n) {
            if hot(decls, (m - 1) as nat, n) {
                lemma_hot_grows(decls, k, k + 1, n);
            } else {
                let j = choose|j: int|
                    #[trigger] member_named(decls, j, n) && exists|c: int|
                        0 <= c < decls[j].calls.len() && hot(decls, (m - 1) as nat, #[trigger] decls[j].calls@[c]@);
                let c = choose|c: int|
                    0 <= c < decls[j].calls.len() && hot(decls, (m - 1) as nat, #[trigger] decls[j].calls@[c]@);
                assert(hot(decls, k, decls[j].calls@[c]@));
                assert(hot(decls, k + 1, n));
            }
        }
        if hot(decls, k, n) {
            lemma_hot_grows(decls, k, m, n);
        }
    }
}

/// The name `d` carries, or the empty name.
pub open spec fn name_or_empty(d: Declaration) -> Seq<char> {
    match d.name {
        Some(x) => x@,
        None => Seq::empty(),
    }
}

/// Every name the declarations carry.
pub open spec fn all_names(decls: Seq<Declaration>) -> Set<Seq<char>> {
    decls.map_values(|d: Declaration| name_or_empty(d)).to_set()
}

/// The names known to throw after `k` rounds.
pub open spec fn hot_set(decls: Seq<Declaration>, k: nat) -> Set<Seq<char>> {
    Set::new(|n: Seq<char>| hot(decls, k, n))
}

proof fn lemma_hot_set_within_names(decls: Seq<Declaration>, k: nat)
    ensures
        hot_set(decls, k).subset_of(all_names(decls)),
        hot_set(decls, k).finite(),
        all_names(decls).finite(),
        all_names(decls).len() <= decls.len(),
{
    let names = decls.map_values(|d: Declaration| name_or_empty(d));
    assert forall|n: Seq<char>| hot_set(decls, k).contains(n) implies all_names(decls).contains(n) by {
        lemma_hot_named(decls, k, n);
        let j = choose|j: int| #[trigger] member_named(decls, j, n);
        assert(names[j] == n);
    }
    vstd::seq_lib::seq_to_set_is_finite(names);
    names.lemma_cardinality_of_set();
    vstd::set_lib::lemma_len_subset(hot_set(decls, k), all_names(decls));
}

/// While every round adds a name, the names known to throw after `k`
/// rounds number at least `k`.
proof fn lemma_rounds_add_names(decls: Seq<Declaration>, k: nat)
    requires
        forall|m: nat| m < k ==> hot_set(decls, m + 1) != #[trigger] hot_set(decls, m),
    ensures
        hot_set(decls, k).len() >= k,
    decreases k,
{
    if k > 0 {
        let m = (k - 1) as nat;
        lemma_rounds_add_names(decls, m);
        lemma_hot_set_within_names(decls, m);
        lemma_hot_set_within_names(decls, k);
        assert(hot_set(decls, m + 1) != hot_set(decls, m));
        assert forall|x: Seq<char>| hot_set(decls, m).contains(x) implies hot_set(decls, k).contains(x) by {
            lemma_hot_grows(decls, m, k, x);
        }
        if !(exists|x: Seq<char>| hot_set(decls, k).contains(x) != hot_set(decls, m).contains(x)) {
            assert(hot_set(decls, k) =~= hot_set(decls, m));
        }
        let x = choose|x: Seq<char>| hot_set(decls, k).contains(x) != hot_set(decls, m).contains(x);
        assert(hot_set(decls, k).contains(x) && !hot_set(decls, m).contains(x)) by {
            if hot_set(decls, m).contains(x) {
                lemma_hot_grows(decls, m, k, x);
            }
        }
        assert(hot_set(decls, m).subset_of(hot_set(decls, k).remove(x)));
        vstd::set_lib::lemma_len_subset(hot_set(decls, m), hot_set(decls, k).remove(x));
    }
}

/// The rounds reach their fixpoint within as many rounds as there are
/// declarations: one more round adds no name.
pub proof fn lemma_rounds_reach_fixpoint(decls: Seq<Declaration>, n: Seq<char>)
    ensures
        hot(decls, decls.len() + 1, n) == hot(decls, decls.len() as nat, n),
{
    let len = decls.len() as nat;
    if forall|m: nat| m < len + 1 ==> hot_set(decls, m + 1) != #[trigger] hot_set(decls, m) {
        lemma_rounds_add_names(decls, len + 1);
        lemma_hot_set_within_names(decls, len + 1);
        vstd::set_lib::lemma_len_subset(hot_set(decls, len + 1), all_names(decls));
        assert(false);
    } else {
        let m = choose|m: nat| m < len + 1 && hot_set(decls, m + 1) == #[trigger] hot_set(decls, m);
        assert forall|x: Seq<char>| #[trigger] hot(decls, m + 1, x) == hot(decls, m, x) by {
            assert(hot_set(decls, m + 1).contains(x) == hot_set(decls, m).contains(x));
        }
        lemma_hot_settles(decls, m, len + 1, n);
        lemma_hot_settles(decls, m, len, n);
    }
}

/// Throwing is transitive through same-file calls: a method or
/// constructor that calls, by name, a member that can throw can throw
/// too.
pub proof fn lemma_caller_of_thrower_can_throw(decls: Seq<Declaration>, i: int, j: int, c: int)
    requires
        0 <= i < decls.len(),
        0 <= j < decls.len(),
        throwing_kind(decls[i].kind),
        decls[i].name is Some,
        can_throw(decls, j),
        decls[j].name is Some,
        0 <= c < decls[i].calls.len(),
        decls[i].calls@[c]@ == name_or_empty(decls[j]),
    ensures
        can_throw(decls, i),
{
    let len = decls.len() as nat;
    let callee = name_or_empty(decls[j]);
    let caller = name_or_empty(decls[i]);
    if decls[j].direct_throw {
        assert(member_named(decls, j, callee));
        assert(hot(decls, 0, callee));
        lemma_hot_grows(decls, 0, len, callee);
    }
    assert(hot(decls, len, callee));
    assert(member_named(decls, i, caller));
    assert(hot(decls, len + 1, caller));
    lemma_rounds_reach_fixpoint(decls, caller);
}

/// A method or constructor whose own body throws can throw.
pub proof fn lemma_direct_thrower_can_throw(decls: Seq<Declaration>, i: int)
    requires
        0 <= i < decls.len(),
        throwing_kind(decls[i].kind),
        decls[i].direct_throw,
    ensures
        can_throw(decls, i),
{
}

/// True when some declaration flagged in `cur` is named `n`.
fn name_is_hot(decls: &Vec<Declaration>, cur: &Vec<bool>, n: &str) -> (r: bool)
    requires
        cur.len() == decls.len(),
    ensures
        r == exists|l: int| 0 <= l < decls.len() && cur@[l] && named_as(#[trigger] decls@[l], n@),
{
    let mut l: usize = 0;
    while l < decls.len()
        invariant
            cur.len() == decls.len(),
            l <= decls.len(),
            forall|q: int| 0 <= q < l ==> !(cur@[q] && named_as(#[trigger] decls@[q], n@)),
        decreases decls.len() - l,
    {
        if cur[l] {
            if let Some(x) = &decls[l].name {
                if str_eq(x.as_str(), n) {
                    return true;
                }
            }
        }
        l += 1;
    }
    false
}

/// True when some member named like declaration `j` satisfies `want`.
fn some_member_named(decls: &Vec<Declaration>, want: &Vec<bool>, n: &str) -> (r: bool)
    requires
        want.len() == decls.len(),
    ensures
        r == exists|i: int| #[trigger] member_named(decls@, i, n@) && want@[i],
{
    let mut i: usize = 0;
    while i < decls.len()
        invariant
            want.len() == decls.len(),
            i <= decls.len(),
            forall|q: int| 0 <= q < i ==> !(#[trigger] member_named(decls@, q, n@) && want@[q]),
        decreases decls.len() - i,
    {
        if want[i] && is_throwing_kind(decls[i].kind) {
            if let Some(x) = &decls[i].name {
                if str_eq(x.as_str(), n) {
                    assert(member_named(decls@, i as int, n@));
                    return true;
                }
            }
        }
        i += 1;
    }
    false
}

/// For each declaration `j`: its name is known to throw after round 0.
fn first_round(decls: &Vec<Declaration>) -> (cur: Vec<bool>)
    ensures
        cur.len() == decls.len(),
        forall|j: int|
            0 <= j < decls.len() ==> #[trigger] cur@[j] == hot_decl(decls@, 0, decls@[j]),
{
    let mut direct: Vec<bool> = Vec::new();
    let mut i: usize = 0;
    while i < decls.len()
        invariant
            i <= decls.len(),
            direct.len() == i,
            forall|q: int| 0 <= q < i ==> #[trigger] direct@[q] == decls@[q].direct_throw,
        decreases decls.len() - i,
    {
        direct.push(decls[i].direct_throw);
        i += 1;
    }
    let mut cur: Vec<bool> = Vec::new();
    let mut j: usize = 0;
    while j < decls.len()
        invariant
            j <= decls.len(),
            direct.len() == decls.len(),
            forall|q: int| 0 <= q < decls.len() ==> #[trigger] direct@[q] == decls@[q].direct_throw,
            cur.len() == j,
            forall|q: int|
                0 <= q < j ==> #[trigger] cur@[q] == hot_decl(decls@, 0, decls@[q]),
        decreases decls.len() - j,
    {
        let b = match &decls[j].name {
            Some(x) => some_member_named(decls, &direct, x.as_str()),
            None => false,
        };
        cur.push(b);
        j += 1;
    }
    cur
}

/// For each declaration: whether any name it calls is flagged in `cur`.
fn calls_into(decls: &Vec<Declaration>, cur: &Vec<bool>, Ghost(k): Ghost<nat>) -> (out: Vec<bool>)
    requires
        cur.len() == decls.len(),
        forall|j: int|
            0 <= j < decls.len() ==> #[trigger] cur@[j] == hot_decl(decls@, k, decls@[j]),
    ensures
        out.len() == decls.len(),
        forall|i: int|
            0 <= i < decls.len() ==> #[trigger] out@[i] == exists|c: int|
                0 <= c < decls@[i].calls.len() && hot(decls@, k, #[trigger] decls@[i].calls@[c]@),
{
    let mut out: Vec<bool> = Vec::new();
    let mut i: usize = 0;
    while i < decls.len()
        invariant
            cur.len() == decls.len(),
            forall|j: int|
                0 <= j < decls.len() ==> #[trigger] cur@[j] == hot_decl(decls@, k, decls@[j]),
            i <= decls.len(),
            out.len() == i,
            forall|q: int|
                0 <= q < i ==> #[trigger] out@[q] == exists|c: int|
                    0 <= c < decls@[q].calls.len() && hot(decls@, k, #[trigger] decls@[q].calls@[c]@),
        decreases decls.len() - i,
    {
        let calls = &decls[i].calls;
        let mut found = false;
        let mut c: usize = 0;
        while c < calls.len()
            invariant
                cur.len() == decls.len(),
                forall|j: int|
                    0 <= j < decls.len() ==> #[trigger] cur@[j] == hot_decl(decls@, k, decls@[j]),
                i < decls.len(),
                calls == decls@[i as int].calls,
                c <= calls.len(),
                found == exists|e: int| 0 <= e < c && hot(decls@, k, #[trigger] calls@[e]@),
            decreases calls.len() - c,
        {
            let h = name_is_hot(decls, cur, calls[c].as_str());
            proof {
                let n = calls@[c as int]@;
                if hot(decls@, k, n) {
                    lemma_hot_named(decls@, k, n);
                    let j = choose|j: int| #[trigger] member_named(decls@, j, n);
                    assert(cur@[j]);
                }
            }
            found = found || h;
            c += 1;
        }
        out.push(found);
        i += 1;
    }
    out
}

/// For each declaration: whether it is a method or constructor that can
/// throw, directly or through the same-file members it calls.
///
/// # Returns
///
/// One flag per declaration, in order.
pub fn can_throw_flags(decls: &Vec<Declaration>) -> (r: Vec<bool>)
    ensures
        r.len() == decls.len(),
        forall|i: int| 0 <= i < decls.len() ==> #[trigger] r@[i] == can_throw(decls@, i),
{
    let mut cur = first_round(decls);
    let ghost mut k: nat = 0;
    let mut rounds: usize = 0;
    let mut settled = false;
    while rounds < decls.len() && !settled
        invariant
            k == rounds,
            rounds <= decls.len(),
            cur.len() == decls.len(),
            forall|j: int|
                0 <= j < decls.len() ==> #[trigger] cur@[j] == hot_decl(decls@, k, decls@[j]),
            settled ==> forall|x: Seq<char>| hot(decls@, k + 1, x) == hot(decls@, k, x),
        decreases decls.len() - rounds + (if settled {
            0int
        } else {
            1int
        }),
    {
        let through = calls_into(decls, &cur, Ghost(k));
        let mut next: Vec<bool> = Vec::new();
        let mut changed = false;
        let mut j: usize = 0;
        while j < decls.len()
            invariant
                cur.len() == decls.len(),
                through.len() == decls.len(),
                forall|q: int|
                    0 <= q < decls.len() ==> #[trigger] cur@[q] == hot_decl(decls@, k, decls@[q]),
                forall|q: int|
                    0 <= q < decls.len() ==> #[trigger] through@[q] == exists|c: int|
                        0 <= c < decls@[q].calls.len() && hot(decls@, k, #[trigger] decls@[q].calls@[c]@),
                j <= decls.len(),
                next.len() == j,
                forall|q: int|
                    0 <= q < j ==> #[trigger] next@[q] == hot_decl(decls@, k + 1, decls@[q]),
                !changed ==> forall|q: int| 0 <= q < j ==> #[trigger] next@[q] == cur@[q],
            decreases decls.len() - j,
        {
            let b = match &decls[j].name {
                Some(x) => cur[j] || some_member_named(decls, &through, x.as_str()),
                None => false,
            };
            if b != cur[j] {
                changed = true;
            }
            next.push(b);
            j += 1;
        }
        proof {
            if !changed {
                assert forall|x: Seq<char>| hot(decls@, k + 1, x) == hot(decls@, k, x) by {
                    if hot(decls@, k + 1, x) {
                        lemma_hot_named(decls@, k + 1, x);
                        let j = choose|j: int| #[trigger] member_named(decls@, j, x);
                        assert(next@[j] == cur@[j]);
                    }
                    if hot(decls@, k, x) {
                        lemma_hot_grows(decls@, k, k + 1, x);
                    }
                }
            }
        }
        if !changed {
            settled = true;
        } else {
            cur = next;
            proof {
                k = k + 1;
            }
            rounds += 1;
        }
    }
    proof {
        assert forall|x: Seq<char>| #[trigger] hot(decls@, decls.len() as nat, x) == hot(decls@, k, x) by {
            if settled {
                lemma_hot_settles(decls@, k, decls.len() as nat, x);
            }
        }
    }
    let mut r: Vec<bool> = Vec::new();
    let mut i: usize = 0;
    while i < decls.len()
        invariant
            cur.len() == decls.len(),
            forall|j: int|
                0 <= j < decls.len() ==> #[trigger] cur@[j] == hot_decl(decls@, k, decls@[j]),
            forall|x: Seq<char>| #[trigger] hot(decls@, decls.len() as nat, x) == hot(decls@, k, x),
            i <= decls.len(),
            r.len() == i,
            forall|q: int| 0 <= q < i ==> #[trigger] r@[q] == can_throw(decls@, q),
        decreases decls.len() - i,
    {
        let f = is_throwing_kind(decls[i].kind) && (decls[i].direct_throw || cur[i]);
        r.push(f);
        i += 1;
    }
    r
}

} // verus!
