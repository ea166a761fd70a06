//! Normalized source lines for DUP001, with exact equality, rolling
//! fingerprints and query boundaries.
use crate::dup001_duplication::ChangedLines;
use crate::text::{alphanumeric, chars_of, copy_string, is_alphanumeric, push_char, str_eq, views};
use vstd::prelude::*;

verus! {

/// The pieces of `s[start..]` that end at each `\n` (the `\n` kept),
/// scanning from `p`, as `str::split_inclusive('\n')`: a trailing piece
/// without `\n` is kept, an empty one is not.
pub open spec fn pieces_from(s: Seq<char>, start: int, p: int) -> Seq<Seq<char>>
    decreases s.len() - p,
{
    if p >= s.len() {
        if start < s.len() {
            seq![s.subrange(start, s.len() as int)]
        } else {
            Seq::empty()
        }
    } else if s[p] == '\n' {
        seq![s.subrange(start, p + 1)] + pieces_from(s, p + 1, p + 1)
    } else {
        pieces_from(s, start, p + 1)
    }
}

/// The physical lines of `s`, each with its `\n`.
pub open spec fn line_pieces(s: Seq<char>) -> Seq<Seq<char>> {
    pieces_from(s, 0, 0)
}

/// A space or a tab: what normalization trims.
pub open spec fn is_blank(c: char) -> bool {
    c == ' ' || c == '\t'
}

/// The first index at or after `i` below `hi` whose character is not
/// blank, or `hi`.
pub open spec fn first_kept(l: Seq<char>, i: int, hi: int) -> int
    decreases hi - i,
{
    if i >= hi {
        hi
    } else if is_blank(l[i]) {
        first_kept(l, i + 1, hi)
    } else {
        i
    }
}

/// One past the last index before `j` and at or after `lo` whose character
/// is not blank, or `lo`.
pub open spec fn last_kept_end(l: Seq<char>, lo: int, j: int) -> int
    decreases j - lo,
{
    if j <= lo {
        lo
    } else if is_blank(l[j - 1]) {
        last_kept_end(l, lo, j - 1)
    } else {
        j
    }
}

/// The end of a line's content: before a final `\n`, and before a `\r`
/// that precedes it.
pub open spec fn content_end(l: Seq<char>) -> int {
    let a = if l.len() > 0 && l.last() == '\n' {
        l.len() - 1
    } else {
        l.len() as int
    };
    if a > 0 && l[a - 1] == '\r' {
        a - 1
    } else {
        a
    }
}

/// A line as DUP001 compares it: exactly as written, or without its line
/// ending and its leading and trailing spaces and tabs.
pub open spec fn normalized(l: Seq<char>, exact: bool) -> Seq<char> {
    if exact {
        l
    } else {
        let hi = content_end(l);
        let lo = first_kept(l, 0, hi);
        l.subrange(lo, last_kept_end(l, lo, hi))
    }
}

/// The normalized lines of `s`.
pub open spec fn texts(s: Seq<char>, exact: bool) -> Seq<Seq<char>> {
    line_pieces(s).map_values(|l: Seq<char>| normalized(l, exact))
}

/// A meaningful line holds an alphanumeric character.
pub open spec fn meaningful_line(t: Seq<char>) -> bool {
    exists|k: int| 0 <= k < t.len() && alphanumeric(#[trigger] t[k])
}

/// The fingerprint base: the golden-ratio constant.
pub const BASE: u64 = 0x9e37_79b9_7f4a_7c15u64;

/// The rolling fingerprint of the first `i` line identities.
pub open spec fn hash_prefix(ids: Seq<usize>, i: int) -> u64
    decreases i,
{
    if i <= 0 {
        0
    } else {
        vstd::wrapping::u64_specs::wrapping_add(
            vstd::wrapping::u64_specs::wrapping_mul(hash_prefix(ids, i - 1), BASE),
            ids[i - 1] as u64,
        )
    }
}

/// `BASE` to the power `i`, wrapping.
pub open spec fn power(i: int) -> u64
    decreases i,
{
    if i <= 0 {
        1
    } else {
        vstd::wrapping::u64_specs::wrapping_mul(power(i - 1), BASE)
    }
}

/// `q` with the entries `s..e` set to `v`.
pub open spec fn fill(q: Seq<usize>, s: int, e: int, v: usize) -> Seq<usize> {
    Seq::new(q.len(), |i: int| if s <= i < e { v } else { q[i] })
}

/// The exclusive end of the eligible run holding each of `n` lines, after
/// the first `k` of the 1-based inclusive `ranges`; zero where no range
/// reaches.
pub open spec fn query_ends(ranges: Seq<(usize, usize)>, k: int, n: int) -> Seq<usize>
    decreases k,
{
    if k <= 0 {
        Seq::new(n as nat, |i: int| 0usize)
    } else {
        let r = ranges[k - 1];
        let e = if r.1 < n { r.1 as int } else { n };
        let s = if r.0 - 1 < e { r.0 - 1 } else { e };
        fill(query_ends(ranges, k - 1, n), s, e, e as usize)
    }
}

/// The lines of one buffer: identities equal exactly for equal normalized
/// lines, the meaningful lines in order, the eligible-run ends, and the
/// rolling fingerprints.
pub struct Lines {
    pub ids: Vec<usize>,
    pub meaningful: Vec<usize>,
    /// Exclusive eligible-run end for each line; zero means ineligible.
    pub query_end: Vec<usize>,
    pub text: Vec<String>,
    pub hashes: Vec<u64>,
    pub powers: Vec<u64>,
}

impl Lines {
    /// The normalized lines.
    pub open spec fn lines(self) -> Seq<Seq<char>> {
        views(self.text@)
    }

    /// The number of lines.
    pub open spec fn n(self) -> int {
        self.text@.len() as int
    }

    /// The lines `start..start + len`.
    pub open spec fn span(self, start: int, len: int) -> Seq<Seq<char>> {
        self.lines().subrange(start, start + len)
    }

    /// The facts every buffer's lines keep.
    pub open spec fn wf(self) -> bool {
        let n = self.n();
        &&& n <= usize::MAX
        &&& self.ids@.len() == n
        &&& forall|i: int, j: int|
            0 <= i < n && 0 <= j < n ==> (#[trigger] self.ids@[i] == #[trigger] self.ids@[j] <==> self.lines()[i]
                == self.lines()[j])
        &&& forall|i: int, j: int| 0 <= i < j < self.meaningful@.len() ==> self.meaningful@[i] < self.meaningful@[j]
        &&& forall|k: int|
            0 <= k < self.meaningful@.len() ==> #[trigger] self.meaningful@[k] < n && meaningful_line(
                self.lines()[self.meaningful@[k] as int],
            )
        &&& forall|i: int| 0 <= i < n && meaningful_line(#[trigger] self.lines()[i]) ==> self.meaningful@.contains(i as usize)
        &&& self.query_end@.len() == n
        &&& forall|i: int| 0 <= i < n ==> #[trigger] self.query_end@[i] <= n
        &&& self.hashes@.len() == n + 1
        &&& self.powers@.len() == n + 1
        &&& forall|i: int| 0 <= i <= n ==> #[trigger] self.hashes@[i] == hash_prefix(self.ids@, i)
        &&& forall|i: int| 0 <= i <= n ==> #[trigger] self.powers@[i] == power(i)
    }

    /// These are the lines of `s`, normalized as `exact` says, with the
    /// eligible runs of `ranges`.
    pub open spec fn of(self, s: Seq<char>, exact: bool, ranges: Seq<(usize, usize)>) -> bool {
        &&& self.wf()
        &&& self.lines() == texts(s, exact)
        &&& self.query_end@ == query_ends(ranges, ranges.len() as int, self.n())
    }
}

/// The physical lines of `chars`, each with its `\n`.
pub(crate) fn split_lines(chars: &Vec<char>) -> (r: Vec<Vec<char>>)
    ensures
        r@.map_values(|v: Vec<char>| v@) == line_pieces(chars@),
{
    let n = chars.len();
    let mut out: Vec<Vec<char>> = Vec::new();
    let mut start: usize = 0;
    let mut p: usize = 0;
    let mut piece: Vec<char> = Vec::new();
    while p < n
        invariant
            n == chars.len(),
            start <= p <= n,
            piece@ == chars@.subrange(start as int, p as int),
            out@.map_values(|v: Vec<char>| v@) + pieces_from(chars@, start as int, p as int) == line_pieces(chars@),
        decreases n - p,
    {
        piece.push(chars[p]);
        assert(piece@ =~= chars@.subrange(start as int, p + 1));
        if chars[p] == '\n' {
            let ghost before = out@.map_values(|v: Vec<char>| v@);
            out.push(piece);
            piece = Vec::new();
            proof {
                assert(out@.map_values(|v: Vec<char>| v@) =~= before.push(chars@.subrange(start as int, p + 1)));
                assert(before + pieces_from(chars@, start as int, p as int) =~= out@.map_values(|v: Vec<char>| v@)
                    + pieces_from(chars@, p + 1, p + 1));
            }
            p += 1;
            start = p;
            assert(piece@ =~= chars@.subrange(start as int, p as int));
        } else {
            p += 1;
        }
    }
    if start < n {
        let ghost before = out@.map_values(|v: Vec<char>| v@);
        out.push(piece);
        assert(out@.map_values(|v: Vec<char>| v@) =~= before + pieces_from(chars@, start as int, p as int));
    } else {
        assert(pieces_from(chars@, start as int, p as int) =~= Seq::<Seq<char>>::empty());
        assert(out@.map_values(|v: Vec<char>| v@) =~= out@.map_values(|v: Vec<char>| v@) + Seq::<Seq<char>>::empty());
    }
    out
}

proof fn lemma_first_kept_bounds(l: Seq<char>, i: int, hi: int)
    requires
        0 <= i <= hi,
    ensures
        i <= first_kept(l, i, hi) <= hi,
    decreases hi - i,
{
    if i < hi && is_blank(l[i]) {
        lemma_first_kept_bounds(l, i + 1, hi);
    }
}

proof fn lemma_last_kept_bounds(l: Seq<char>, lo: int, j: int)
    requires
        lo <= j,
    ensures
        lo <= last_kept_end(l, lo, j) <= j,
    decreases j - lo,
{
    if j > lo && is_blank(l[j - 1]) {
        lemma_last_kept_bounds(l, lo, j - 1);
    }
}

/// A line as DUP001 compares it.
fn normalize(piece: &Vec<char>, exact: bool) -> (r: String)
    ensures
        r@ == normalized(piece@, exact),
{
    let n = piece.len();
    let mut lo: usize = 0;
    let mut hi: usize = n;
    if !exact {
        if hi > 0 && piece[hi - 1] == '\n' {
            hi -= 1;
        }
        if hi > 0 && piece[hi - 1] == '\r' {
            hi -= 1;
        }
        assert(hi == content_end(piece@));
        let ghost h0 = hi as int;
        while lo < hi && (piece[lo] == ' ' || piece[lo] == '\t')
            invariant
                n == piece.len(),
                hi == h0,
                h0 <= n,
                lo <= hi,
                first_kept(piece@, 0, h0) == first_kept(piece@, lo as int, h0),
            decreases hi - lo,
        {
            lo += 1;
        }
        assert(first_kept(piece@, lo as int, h0) == lo);
        while hi > lo && (piece[hi - 1] == ' ' || piece[hi - 1] == '\t')
            invariant
                n == piece.len(),
                h0 <= n,
                lo <= hi <= h0,
                last_kept_end(piece@, lo as int, h0) == last_kept_end(piece@, lo as int, hi as int),
            decreases hi - lo,
        {
            hi -= 1;
        }
        assert(last_kept_end(piece@, lo as int, hi as int) == hi);
    }
    let mut out = String::new();
    let mut k: usize = lo;
    while k < hi
        invariant
            hi <= n == piece.len(),
            lo <= k <= hi,
            out@ == piece@.subrange(lo as int, k as int),
        decreases hi - k,
    {
        push_char(&mut out, piece[k]);
        assert(out@ =~= piece@.subrange(lo as int, k + 1));
        k += 1;
    }
    if exact {
        assert(piece@.subrange(0, n as int) =~= piece@);
    }
    out
}

/// True when `t` holds an alphanumeric character.
fn has_alphanumeric(t: &String) -> (r: bool)
    ensures
        r == meaningful_line(t@),
{
    let chars = chars_of(t.as_str());
    let mut k: usize = 0;
    while k < chars.len()
        invariant
            chars@ == t@,
            k <= chars.len(),
            forall|j: int| 0 <= j < k ==> !alphanumeric(#[trigger] t@[j]),
        decreases chars.len() - k,
    {
        if is_alphanumeric(chars[k]) {
            assert(alphanumeric(t@[k as int]));
            return true;
        }
        k += 1;
    }
    false
}

#[verifier::external_type_specification]
#[verifier::external_body]
#[verifier::reject_recursive_types(K)]
#[verifier::reject_recursive_types(V)]
#[verifier::reject_recursive_types(S)]
pub struct ExAHashMap<K, V, S>(ahash::AHashMap<K, V, S>);

#[verifier::external_type_specification]
#[verifier::external_body]
pub struct ExAHashRandomState(ahash::RandomState);

/// A table from line texts to numbers.
pub type LineTable = ahash::AHashMap<String, usize>;

/// What a table of line texts holds: each text with the number stored
/// for it.
pub uninterp spec fn line_table(m: LineTable) -> Map<Seq<char>, usize>;

/// `ahash::AHashMap::new`: a table that holds nothing.
#[verifier::external_body]
fn new_line_table() -> (r: LineTable)
    ensures
        line_table(r).dom() == Set::<Seq<char>>::empty(),
{
    ahash::AHashMap::new()
}

/// `ahash::AHashMap::get` by a `&str` key: the number stored for the
/// key's text, if any. `String` hashes and compares as its text, so the
/// lookup goes by the characters.
#[verifier::external_body]
fn line_table_get(m: &LineTable, key: &str) -> (r: Option<usize>)
    ensures
        r == (if line_table(*m).contains_key(key@) {
            Some(line_table(*m)[key@])
        } else {
            None
        }),
{
    m.get(key).copied()
}

/// `ahash::AHashMap::insert`: the table afterwards stores `v` for the
/// text of `key` and keeps every other entry.
#[verifier::external_body]
fn line_table_insert(m: &mut LineTable, key: String, v: usize)
    ensures
        line_table(*old(m)).insert(key@, v) == line_table(*final(m)),
{
    m.insert(key, v);
}

/// How many distinct lines `ls` holds, counted at their first occurrence.
pub open spec fn new_count(ls: Seq<Seq<char>>) -> nat
    decreases ls.len(),
{
    if ls.len() == 0 {
        0
    } else {
        new_count(ls.drop_last()) + if ls.drop_last().contains(ls.last()) {
            0nat
        } else {
            1nat
        }
    }
}

/// The identity of each line of `ls`: lines are numbered from 1 in the
/// order of their first occurrence, and a repeated line takes the number
/// of its first occurrence.
pub open spec fn intern_ids(ls: Seq<Seq<char>>) -> Seq<usize>
    decreases ls.len(),
{
    if ls.len() == 0 {
        Seq::empty()
    } else {
        let pre = ls.drop_last();
        let prev = intern_ids(pre);
        let x = ls.last();
        if pre.contains(x) {
            prev.push(prev[choose|j: int| 0 <= j < pre.len() && pre[j] == x])
        } else {
            prev.push((new_count(pre) + 1) as usize)
        }
    }
}

/// The normalized lines of the pieces, with identities that are equal
/// exactly for equal lines.
fn intern(pieces: &Vec<Vec<char>>, exact: bool) -> (r: (Vec<String>, Vec<usize>))
    ensures
        views(r.0@) == pieces@.map_values(|v: Vec<char>| normalized(v@, exact)),
        r.1.len() == pieces.len(),
        forall|i: int| 0 <= i < r.1.len() ==> 1 <= #[trigger] r.1@[i] <= pieces.len(),
        forall|a: int, b: int|
            0 <= a < r.1.len() && 0 <= b < r.1.len() ==> (#[trigger] r.1@[a] == #[trigger] r.1@[b] <==> r.0@[a]@ == r.0@[b]@),
        r.1@ == intern_ids(pieces@.map_values(|v: Vec<char>| normalized(v@, exact))),
{
    let n = pieces.len();
    let ghost want = pieces@.map_values(|v: Vec<char>| normalized(v@, exact));
    let mut text: Vec<String> = Vec::new();
    let mut first_of: Vec<usize> = Vec::new();
    let mut table = new_line_table();
    let mut ids: Vec<usize> = Vec::new();
    let mut index: usize = 0;
    while index < n
        invariant
            forall|j: int|
                0 <= j < first_of.len() ==> line_table(table).contains_key(want[#[trigger] first_of@[j] as int])
                    && line_table(table)[want[first_of@[j] as int]] == j,
            forall|key: Seq<char>|
                #[trigger] line_table(table).contains_key(key) ==> line_table(table)[key] < first_of.len()
                    && want[first_of@[line_table(table)[key] as int] as int] == key,
            n == pieces.len(),
            want == pieces@.map_values(|v: Vec<char>| normalized(v@, exact)),
            index <= n,
            views(text@) == want.take(index as int),
            text.len() == index,
            ids.len() == index,
            first_of.len() <= index,
            forall|j: int| 0 <= j < first_of.len() ==> #[trigger] first_of@[j] < index,
            forall|j1: int, j2: int|
                0 <= j1 < first_of.len() && 0 <= j2 < first_of.len() && j1 != j2 ==> want[#[trigger] first_of@[j1] as int]
                    != want[#[trigger] first_of@[j2] as int],
            forall|i: int|
                0 <= i < index ==> 1 <= #[trigger] ids@[i] <= first_of.len() && want[first_of@[ids@[i] - 1] as int] == want[i],
            forall|j: int| 0 <= j < first_of.len() ==> #[trigger] ids@[first_of@[j] as int] == j + 1,
            ids@ == intern_ids(want.take(index as int)),
            first_of.len() == new_count(want.take(index as int)),
        decreases n - index,
    {
        let line = normalize(&pieces[index], exact);
        assert(line@ == want[index as int]);
        let found = line_table_get(&table, line.as_str());
        proof {
            assert forall|j: int| 0 <= j < first_of.len() implies #[trigger] text@[first_of@[j] as int]@ == want[first_of@[j] as int] by {
                assert(views(text@)[first_of@[j] as int] == want.take(index as int)[first_of@[j] as int]);
            }
            match found {
                Some(j) => {
                    assert(j < first_of.len() && text@[first_of@[j as int] as int]@ == line@);
                },
                None => {
                    assert forall|j: int| 0 <= j < first_of.len() implies text@[#[trigger] first_of@[j] as int]@ != line@ by {
                        assert(line_table(table).contains_key(want[first_of@[j] as int]));
                    }
                },
            }
        }
        let ghost pre = want.take(index as int);
        let ghost x = want[index as int];
        proof {
            assert(want.take(index + 1).drop_last() =~= pre);
            assert(want.take(index + 1).last() == x);
        }
        let ghost fo = first_of@;
        let id: usize = match found {
            Some(j) => {
                proof {
                    assert(want[first_of@[j as int] as int] == x);
                    assert(pre[first_of@[j as int] as int] == x);
                    assert(pre.contains(x));
                    let jj = choose|jj: int| 0 <= jj < pre.len() && pre[jj] == x;
                    assert(want[jj] == x);
                    let q = ids@[jj] - 1;
                    assert(want[first_of@[q] as int] == x);
                    if q != j {
                        assert(want[first_of@[q] as int] != want[first_of@[j as int] as int]);
                    }
                    assert(ids@[jj] == j + 1);
                }
                j + 1
            },
            None => {
                proof {
                    if pre.contains(x) {
                        let jj = choose|jj: int| 0 <= jj < pre.len() && pre[jj] == x;
                        assert(want[jj] == x);
                        let q = ids@[jj] - 1;
                        assert(want[first_of@[q] as int] == want[jj]);
                        assert(text@[first_of@[q] as int]@ == want[first_of@[q] as int]);
                    }
                }
                first_of.push(index);
                let ghost t0 = line_table(table);
                line_table_insert(&mut table, copy_string(&line), first_of.len() - 1);
                proof {
                    assert forall|j: int| 0 <= j < first_of.len() implies line_table(table).contains_key(
                        want[#[trigger] first_of@[j] as int],
                    ) && line_table(table)[want[first_of@[j] as int]] == j by {
                        if j < fo.len() {
                            assert(first_of@[j] == fo[j]);
                            assert(want[fo[j] as int] != x);
                        }
                    }
                    assert forall|key: Seq<char>| #[trigger] line_table(table).contains_key(key) implies line_table(
                        table,
                    )[key] < first_of.len() && want[first_of@[line_table(table)[key] as int] as int] == key by {
                        if key != x {
                            assert(t0.contains_key(key));
                            assert(first_of@[t0[key] as int] == fo[t0[key] as int]);
                        }
                    }
                }
                first_of.len()
            },
        };
        ids.push(id);
        proof {
            assert forall|j: int| 0 <= j < first_of.len() implies #[trigger] ids@[first_of@[j] as int] == j + 1 by {
                if j < fo.len() {
                    assert(first_of@[j] == fo[j]);
                }
            }
        }
        text.push(line);
        assert(views(text@) =~= want.take(index + 1));
        index += 1;
    }
    assert(want.take(n as int) =~= want);
    proof {
        assert forall|a: int, b: int|
            0 <= a < ids.len() && 0 <= b < ids.len() implies (#[trigger] ids@[a] == #[trigger] ids@[b] <==> text@[a]@
            == text@[b]@) by {
            assert(text@[a]@ == want[a] && text@[b]@ == want[b]);
            let ja = ids@[a] - 1;
            let jb = ids@[b] - 1;
            if want[a] == want[b] && ja != jb {
                assert(want[first_of@[ja] as int] != want[first_of@[jb] as int]);
            }
        }
    }
    (text, ids)
}

/// The rolling fingerprints of every prefix of `ids`, and the powers of
/// the base.
fn fingerprints(ids: &Vec<usize>) -> (r: (Vec<u64>, Vec<u64>))
    ensures
        r.0.len() == ids.len() + 1,
        r.1.len() == ids.len() + 1,
        forall|i: int| 0 <= i <= ids.len() ==> #[trigger] r.0@[i] == hash_prefix(ids@, i),
        forall|i: int| 0 <= i <= ids.len() ==> #[trigger] r.1@[i] == power(i),
{
    let mut hashes: Vec<u64> = Vec::new();
    let mut powers: Vec<u64> = Vec::new();
    hashes.push(0u64);
    powers.push(1u64);
    let mut index: usize = 0;
    while index < ids.len()
        invariant
            index <= ids.len(),
            hashes.len() == index + 1,
            powers.len() == index + 1,
            forall|i: int| 0 <= i <= index ==> #[trigger] hashes@[i] == hash_prefix(ids@, i),
            forall|i: int| 0 <= i <= index ==> #[trigger] powers@[i] == power(i),
        decreases ids.len() - index,
    {
        let h = hashes[index].wrapping_mul(BASE).wrapping_add(ids[index] as u64);
        let p = powers[index].wrapping_mul(BASE);
        hashes.push(h);
        powers.push(p);
        index += 1;
    }
    (hashes, powers)
}

/// The indices of the meaningful lines, in order.
fn meaningful_indices(text: &Vec<String>) -> (r: Vec<usize>)
    ensures
        forall|i: int, j: int| 0 <= i < j < r.len() ==> r@[i] < r@[j],
        forall|k: int| 0 <= k < r.len() ==> #[trigger] r@[k] < text.len() && meaningful_line(text@[r@[k] as int]@),
        forall|i: int| 0 <= i < text.len() && meaningful_line(#[trigger] text@[i]@) ==> r@.contains(i as usize),
{
    let mut meaningful: Vec<usize> = Vec::new();
    let mut index: usize = 0;
    while index < text.len()
        invariant
            index <= text.len(),
            forall|i: int, j: int| 0 <= i < j < meaningful.len() ==> meaningful@[i] < meaningful@[j],
            forall|k: int| 0 <= k < meaningful.len() ==> #[trigger] meaningful@[k] < index && meaningful_line(text@[meaningful@[k] as int]@),
            forall|i: int| 0 <= i < index && meaningful_line(#[trigger] text@[i]@) ==> meaningful@.contains(i as usize),
        decreases text.len() - index,
    {
        let ghost before = meaningful@;
        if has_alphanumeric(&text[index]) {
            meaningful.push(index);
            proof {
                assert forall|i: int| 0 <= i < index + 1 && meaningful_line(#[trigger] text@[i]@) implies meaningful@.contains(i as usize) by {
                    if i < index {
                        let q = choose|q: int| 0 <= q < before.len() && before[q] == i as usize;
                        assert(meaningful@[q] == i as usize);
                    } else {
                        assert(meaningful@[meaningful.len() - 1] == i as usize);
                    }
                }
            }
        }
        index += 1;
    }
    meaningful
}

/// The eligible-run end of each of `n` lines under `ranges`.
fn query_ends_of(ranges: &Vec<(usize, usize)>, n: usize) -> (r: Vec<usize>)
    requires
        forall|q: int| 0 <= q < ranges@.len() ==> #[trigger] ranges@[q].0 >= 1,
    ensures
        r@ == query_ends(ranges@, ranges@.len() as int, n as int),
{
    let mut query_end: Vec<usize> = Vec::new();
    let mut i: usize = 0;
    while i < n
        invariant
            i <= n,
            query_end@ =~= Seq::new(i as nat, |k: int| 0usize),
        decreases n - i,
    {
        query_end.push(0);
        i += 1;
    }
    let mut k: usize = 0;
    while k < ranges.len()
        invariant
            k <= ranges.len(),
            forall|q: int| 0 <= q < ranges@.len() ==> #[trigger] ranges@[q].0 >= 1,
            query_end@ == query_ends(ranges@, k as int, n as int),
            query_end.len() == n,
        decreases ranges.len() - k,
    {
        let (first, last) = ranges[k];
        let end = if last < n {
            last
        } else {
            n
        };
        let start = if first - 1 < end {
            first - 1
        } else {
            end
        };
        let ghost before = query_end@;
        let mut q: usize = start;
        while q < end
            invariant
                start <= q <= end <= n,
                query_end.len() == n,
                query_end@ == fill(before, start as int, q as int, end),
            decreases end - q,
        {
            query_end.set(q, end);
            assert(query_end@ =~= fill(before, start as int, q + 1, end));
            q += 1;
        }
        k += 1;
    }
    query_end
}

impl Lines {
    /// Intern the normalized lines of `source` once; internal whitespace
    /// and comments stay literal. `exact` keeps lines as written.
    pub fn new(source: &str, eligible: &ChangedLines, exact: bool) -> (r: Lines)
        ensures
            r.of(source@, exact, eligible.spans()),
            r.ids@ == intern_ids(texts(source@, exact)),
    {
        let chars = chars_of(source);
        let pieces = split_lines(&chars);
        let (text, ids) = intern(&pieces, exact);
        // Fingerprints only choose buckets. Equality always checks the
        // actual lines.
        let (hashes, powers) = fingerprints(&ids);
        let meaningful = meaningful_indices(&text);
        let query_end = query_ends_of(eligible.ranges(), text.len());
        let r = Lines { ids, meaningful, query_end, text, hashes, powers };
        proof {
            assert(pieces@.map_values(|v: Vec<char>| normalized(v@, exact)) =~= texts(source@, exact));
            assert(r.ids@ == intern_ids(texts(source@, exact)));
            lemma_query_ends_bounded(eligible.spans(), eligible.spans().len() as int, r.n());
            assert forall|i: int| 0 <= i < r.n() implies #[trigger] r.lines()[i] == r.text@[i]@ by {}
        }
        r
    }
}

/// The fingerprint prefix up to `i` reads only the first `i` identities.
proof fn lemma_hash_prefix_extends(a: Seq<usize>, b: Seq<usize>, i: int)
    requires
        0 <= i <= a.len() <= b.len(),
        a == b.take(a.len() as int),
    ensures
        hash_prefix(b, i) == hash_prefix(a, i),
    decreases i,
{
    if i > 0 {
        lemma_hash_prefix_extends(a, b, i - 1);
        assert(b[i - 1] == a[i - 1]);
    }
}

/// Every eligible-run end is at most the line count.
proof fn lemma_query_ends_bounded(ranges: Seq<(usize, usize)>, k: int, n: int)
    requires
        0 <= k <= ranges.len(),
        0 <= n,
    ensures
        query_ends(ranges, k, n).len() == n,
        forall|i: int| 0 <= i < n ==> #[trigger] query_ends(ranges, k, n)[i] <= n,
    decreases k,
{
    if k > 0 {
        lemma_query_ends_bounded(ranges, k - 1, n);
    }
}

/// `v` is strictly increasing.
pub open spec fn increasing(v: Seq<usize>) -> bool {
    forall|i: int, j: int| 0 <= i < j < v.len() ==> v[i] < v[j]
}

/// The first index of the increasing `v` whose entry is at least `x`, or
/// `v.len()`, as `partition_point(|&e| e < x)`.
pub fn first_at_least(v: &Vec<usize>, x: usize) -> (r: usize)
    requires
        increasing(v@),
    ensures
        r <= v.len(),
        forall|i: int| 0 <= i < r ==> #[trigger] v@[i] < x,
        forall|i: int| r <= i < v.len() ==> #[trigger] v@[i] >= x,
{
    let mut lo: usize = 0;
    let mut hi: usize = v.len();
    while lo < hi
        invariant
            increasing(v@),
            lo <= hi <= v.len(),
            forall|i: int| 0 <= i < lo ==> #[trigger] v@[i] < x,
            forall|i: int| hi <= i < v.len() ==> #[trigger] v@[i] >= x,
        decreases hi - lo,
    {
        let mid = lo + (hi - lo) / 2;
        if v[mid] < x {
            lo = mid + 1;
        } else {
            hi = mid;
        }
    }
    lo
}

impl Lines {
    /// The fingerprint of the nonempty line span `start..end`, in
    /// constant time.
    pub fn fingerprint(&self, start: usize, end: usize) -> (r: u64)
        requires
            self.wf(),
            start < end <= self.n(),
        ensures
            r == fingerprint_of(self.ids@, start as int, end - start),
    {
        proof {
            reveal(fingerprint_of);
        }
        self.hashes[end].wrapping_sub(self.hashes[start].wrapping_mul(self.powers[end - start]))
    }

    /// True when the spans of `length` lines at `first` and `second` hold
    /// equal normalized lines; a fingerprint hit never decides this.
    pub fn equal(&self, first: usize, second: usize, length: usize) -> (r: bool)
        requires
            first + length <= self.n(),
            second + length <= self.n(),
        ensures
            r == (self.span(first as int, length as int) == self.span(second as int, length as int)),
    {
        let mut k: usize = 0;
        while k < length
            invariant
                first + length <= self.text.len(),
                second + length <= self.text.len(),
                k <= length,
                forall|j: int| 0 <= j < k ==> #[trigger] self.span(first as int, length as int)[j] == self.span(second as int, length as int)[j],
            decreases length - k,
        {
            if !str_eq(self.text[first + k].as_str(), self.text[second + k].as_str()) {
                assert(self.span(first as int, length as int)[k as int] != self.span(second as int, length as int)[k as int]);
                return false;
            }
            k += 1;
        }
        assert(self.span(first as int, length as int) =~= self.span(second as int, length as int));
        true
    }

    /// The first meaningful line at or after `start`, without dropping the
    /// punctuation lines between.
    pub fn next_meaningful(&self, start: usize) -> (r: Option<usize>)
        requires
            self.wf(),
        ensures
            match r {
                Some(i) => start <= i < self.n() && meaningful_line(self.lines()[i as int]) && forall|j: int|
                    start <= j < i ==> !meaningful_line(#[trigger] self.lines()[j]),
                None => forall|j: int| start <= j < self.n() ==> !meaningful_line(#[trigger] self.lines()[j]),
            },
    {
        let k = first_at_least(&self.meaningful, start);
        proof {
            assert forall|j: int| start <= j < self.n() && (k == self.meaningful.len() || j < self.meaningful@[k as int]) implies !meaningful_line(#[trigger] self.lines()[j]) by {
                if meaningful_line(self.lines()[j]) {
                    assert(self.meaningful@.contains(j as usize));
                    let q = choose|q: int| 0 <= q < self.meaningful@.len() && self.meaningful@[q] == j as usize;
                    if q < k {
                        assert(self.meaningful@[q] < start);
                        assert(false);
                    } else if q > k {
                        assert(self.meaningful@[k as int] < self.meaningful@[q]);
                        assert(false);
                    }
                }
            }
        }
        if k < self.meaningful.len() {
            Some(self.meaningful[k])
        } else {
            None
        }
    }
}

/// There are no more line pieces than characters.
pub proof fn lemma_pieces_len(s: Seq<char>, start: int, p: int)
    requires
        0 <= start <= p <= s.len(),
    ensures
        pieces_from(s, start, p).len() <= s.len() - start,
    decreases s.len() - p,
{
    if p < s.len() {
        if s[p] == '\n' {
            lemma_pieces_len(s, p + 1, p + 1);
        } else {
            lemma_pieces_len(s, start, p + 1);
        }
    }
}

/// The fingerprint of the span `s..s + len`, as [`Lines::fingerprint`]
/// computes it.
#[verifier::opaque]
pub open spec fn fingerprint_of(ids: Seq<usize>, s: int, len: int) -> u64 {
    vstd::wrapping::u64_specs::wrapping_sub(
        hash_prefix(ids, s + len),
        vstd::wrapping::u64_specs::wrapping_mul(hash_prefix(ids, s), power(len)),
    )
}

/// The polynomial of the identities `s..s + len` in the base, unreduced.
pub open spec fn weight(ids: Seq<usize>, s: int, len: int) -> int
    decreases len,
{
    if len <= 0 {
        0
    } else {
        weight(ids, s, len - 1) * (BASE as int) + ids[s + len - 1]
    }
}

/// The base to the power `len`, unreduced.
pub open spec fn base_pow(len: int) -> int
    decreases len,
{
    if len <= 0 {
        1
    } else {
        (BASE as int) * base_pow(len - 1)
    }
}

/// Two to the 64.
pub open spec fn modulus() -> int {
    0x1_0000_0000_0000_0000int
}

proof fn lemma_wrapping_facts(x: u64, y: u64)
    ensures
        vstd::wrapping::u64_specs::wrapping_add(x, y) as int == (x + y) % modulus(),
        vstd::wrapping::u64_specs::wrapping_mul(x, y) as int == (x * y) % modulus(),
        vstd::wrapping::u64_specs::wrapping_sub(x, y) as int == (x - y) % modulus(),
{
    vstd::arithmetic::div_mod::lemma_mod_bound(x * y, modulus());
    assert((x as nat * y as nat) == x * y) by (nonlinear_arith);
}

/// One step of the prefix fingerprint, in integers.
proof fn lemma_hash_step(ids: Seq<usize>, i: int)
    requires
        0 <= i < ids.len(),
    ensures
        hash_prefix(ids, i + 1) as int == (hash_prefix(ids, i) * (BASE as int) + ids[i] as int) % modulus(),
{
    let m = modulus();
    let b = BASE as int;
    let prev = hash_prefix(ids, i);
    let id = ids[i] as int;
    let pm = vstd::wrapping::u64_specs::wrapping_mul(prev, BASE);
    assert(pm as int == (prev * b) % m) by {
        lemma_wrapping_facts(prev, BASE);
    }
    assert(hash_prefix(ids, i + 1) as int == (pm + id) % m) by {
        lemma_wrapping_facts(pm, ids[i] as u64);
    }
    assert((pm + id) % m == (prev * b + id) % m) by {
        vstd::arithmetic::div_mod::lemma_small_mod(id as nat, m as nat);
        vstd::arithmetic::div_mod::lemma_add_mod_noop(prev * b, id, m);
        vstd::arithmetic::div_mod::lemma_mod_twice(prev * b, m);
    }
}

/// Reducing before a step of the polynomial changes nothing.
proof fn lemma_step_mod(x: int, id: int)
    ensures
        ((x % modulus()) * (BASE as int) + id) % modulus() == (x * (BASE as int) + id) % modulus(),
{
    let m = modulus();
    let b = BASE as int;
    vstd::arithmetic::div_mod::lemma_mul_mod_noop_left(x, b, m);
    vstd::arithmetic::div_mod::lemma_add_mod_noop((x % m) * b, id, m);
    vstd::arithmetic::div_mod::lemma_add_mod_noop(x * b, id, m);
}

/// The prefix fingerprint after a span extends the one before it by the
/// span's polynomial.
proof fn lemma_hash_shift(ids: Seq<usize>, s: int, len: int)
    requires
        0 <= s,
        0 <= len,
        s + len <= ids.len(),
    ensures
        hash_prefix(ids, s + len) as int == (hash_prefix(ids, s) * base_pow(len)
            + weight(ids, s, len)) % modulus(),
    decreases len,
{
    let m = modulus();
    let b = BASE as int;
    let h = hash_prefix(ids, s) as int;
    if len == 0 {
        vstd::arithmetic::div_mod::lemma_small_mod(h as nat, m as nat);
        assert(base_pow(0) == 1);
        assert(h * 1 == h);
    } else {
        lemma_hash_shift(ids, s, len - 1);
        let p = base_pow(len - 1);
        let x = h * p + weight(ids, s, len - 1);
        let id = ids[s + len - 1] as int;
        lemma_hash_step(ids, s + len - 1);
        lemma_step_mod(x, id);
        assert(base_pow(len) == b * p);
        assert(x * b + id == h * (b * p) + weight(ids, s, len)) by (nonlinear_arith)
            requires
                x == h * p + weight(ids, s, len - 1),
                weight(ids, s, len) == weight(ids, s, len - 1) * b + id,
        ;
    }
}

/// The power of the base, reduced.
proof fn lemma_power(len: int)
    requires
        0 <= len,
    ensures
        power(len) as int == base_pow(len) % modulus(),
    decreases len,
{
    let m = modulus();
    let b = BASE as int;
    if len == 0 {
        vstd::arithmetic::div_mod::lemma_small_mod(1, m as nat);
    } else {
        lemma_power(len - 1);
        let q = power(len - 1);
        let p = base_pow(len - 1);
        assert(power(len) as int == (q * b) % m) by {
            lemma_wrapping_facts(q, BASE);
        }
        assert((q * b) % m == (p * b) % m) by {
            vstd::arithmetic::div_mod::lemma_mul_mod_noop_left(p, b, m);
        }
        assert(base_pow(len) == b * p);
        assert(p * b == b * p) by (nonlinear_arith);
    }
}

/// A span's fingerprint is its polynomial, reduced: it reads only the
/// span's own identities.
pub proof fn lemma_fingerprint_weight(ids: Seq<usize>, s: int, len: int)
    requires
        0 <= s,
        0 <= len,
        s + len <= ids.len(),
    ensures
        fingerprint_of(ids, s, len) as int == weight(ids, s, len) % modulus(),
{
    reveal(fingerprint_of);
    let m = modulus();
    let b = BASE as int;
    let h = hash_prefix(ids, s);
    let pw = base_pow(len);
    lemma_hash_shift(ids, s, len);
    lemma_power(len);
    lemma_wrapping_facts(h, power(len));
    let c = vstd::wrapping::u64_specs::wrapping_mul(h, power(len));
    lemma_wrapping_facts(hash_prefix(ids, s + len), c);
    vstd::arithmetic::div_mod::lemma_mul_mod_noop_right(h as int, pw, m);
    assert(c as int == (h * pw) % m);
    let a = h * pw + weight(ids, s, len);
    vstd::arithmetic::div_mod::lemma_sub_mod_noop(a, h * pw, m);
    assert(a - h * pw == weight(ids, s, len));
}

/// Spans with equal identities have equal polynomials.
pub proof fn lemma_weight_equal(ids: Seq<usize>, s1: int, s2: int, len: int)
    requires
        0 <= s1,
        0 <= s2,
        0 <= len,
        s1 + len <= ids.len(),
        s2 + len <= ids.len(),
        ids.subrange(s1, s1 + len) == ids.subrange(s2, s2 + len),
    ensures
        weight(ids, s1, len) == weight(ids, s2, len),
    decreases len,
{
    if len > 0 {
        assert(ids.subrange(s1, s1 + len - 1) =~= ids.subrange(s1, s1 + len).drop_last());
        assert(ids.subrange(s2, s2 + len - 1) =~= ids.subrange(s2, s2 + len).drop_last());
        lemma_weight_equal(ids, s1, s2, len - 1);
        assert(ids.subrange(s1, s1 + len)[len - 1] == ids.subrange(s2, s2 + len)[len - 1]);
        assert(ids.subrange(s1, s1 + len)[len - 1] == ids[s1 + len - 1]);
        assert(ids.subrange(s2, s2 + len)[len - 1] == ids[s2 + len - 1]);
        assert(ids[s1 + len - 1] == ids[s2 + len - 1]);
        assert(weight(ids, s1, len) == weight(ids, s1, len - 1) * (BASE as int) + ids[s1 + len - 1]);
        assert(weight(ids, s2, len) == weight(ids, s2, len - 1) * (BASE as int) + ids[s2 + len - 1]);
    }
}

} // verus!
