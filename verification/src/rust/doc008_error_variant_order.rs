//! `DOC008`: an `# Errors` section lists the returned enum's variants out
//! of alphabetical order.
//!
//! Only bracketed links `[Enum::Variant]` (path prefixes and surrounding
//! backticks allowed) whose enum segment names the function's error type
//! participate, and only when that type is a top-level enum of the same
//! file. Prose and links to other enums are transparent.
use crate::codes::CODE_ERROR_VARIANT_ORDER;
use crate::diagnostic::{Diagnostic, Severity};
use crate::rust::doc002_missing_errors_section::{is_pub_result_fn, pub_result_fn};
use crate::rust::items::SourceItem;
use crate::rust::sections::{
    find_errors_section, header_from, item_diagnostic, item_finding, section_body, section_body_spec, Section,
};
use crate::text::{chars_of, owned, push_char, push_str, str_eq, strings_contain, views};
use vstd::prelude::*;

verus! {

/// The index of the last `c` in `s[lo..hi]`, or -1.
pub open spec fn last_char_in(s: Seq<char>, c: char, lo: int, hi: int) -> int
    decreases hi - lo,
{
    if hi <= lo {
        -1
    } else if s[hi - 1] == c {
        hi - 1
    } else {
        last_char_in(s, c, lo, hi - 1)
    }
}

/// The start of the last `::` in `s[lo..hi]`, or -1.
pub open spec fn last_colons_in(s: Seq<char>, lo: int, hi: int) -> int
    decreases hi - lo,
{
    if hi - lo < 2 {
        -1
    } else if s[hi - 2] == ':' && s[hi - 1] == ':' {
        hi - 2
    } else {
        last_colons_in(s, lo, hi - 1)
    }
}

/// The first index of `s[lo..hi]` after its leading backticks.
pub open spec fn tick_lo(s: Seq<char>, lo: int, hi: int) -> int
    decreases hi - lo,
{
    if lo < hi && s[lo] == '`' {
        tick_lo(s, lo + 1, hi)
    } else {
        lo
    }
}

/// The end of `s[lo..hi]` before its trailing backticks.
pub open spec fn tick_hi(s: Seq<char>, lo: int, hi: int) -> int
    decreases hi - lo,
{
    if lo < hi && s[hi - 1] == '`' {
        tick_hi(s, lo, hi - 1)
    } else {
        hi
    }
}

/// The variant that the link content `s[lo..hi]` names when its enum
/// segment is `e`: backticks trimmed, the text after the last `::`, when
/// the segment before it (after any earlier `::`) equals `e`.
pub open spec fn link_variant(s: Seq<char>, lo: int, hi: int, e: Seq<char>) -> Option<Seq<char>> {
    let a = tick_lo(s, lo, hi);
    let b = tick_hi(s, a, hi);
    let i = last_colons_in(s, a, b);
    if i < 0 {
        None
    } else {
        let j = last_colons_in(s, a, i);
        let linked = if j < 0 {
            s.subrange(a, i)
        } else {
            s.subrange(j + 2, i)
        };
        if linked == e {
            Some(s.subrange(i + 2, b))
        } else {
            None
        }
    }
}

/// The variant a `]`-delimited piece `s[lo..hi]` links: its content after
/// the last `[`.
pub open spec fn piece_variant(s: Seq<char>, lo: int, hi: int, e: Seq<char>) -> Option<Seq<char>> {
    let k = last_char_in(s, '[', lo, hi);
    if k < 0 {
        None
    } else {
        link_variant(s, k + 1, hi, e)
    }
}

pub proof fn lemma_last_char_bounds(s: Seq<char>, c: char, lo: int, hi: int)
    ensures
        last_char_in(s, c, lo, hi) == -1 || lo <= last_char_in(s, c, lo, hi) < hi,
    decreases hi - lo,
{
    if hi > lo && s[hi - 1] != c {
        lemma_last_char_bounds(s, c, lo, hi - 1);
    }
}

proof fn lemma_last_colons_bounds(s: Seq<char>, lo: int, hi: int)
    ensures
        last_colons_in(s, lo, hi) == -1 || lo <= last_colons_in(s, lo, hi) <= hi - 2,
    decreases hi - lo,
{
    if hi - lo >= 2 && !(s[hi - 2] == ':' && s[hi - 1] == ':') {
        lemma_last_colons_bounds(s, lo, hi - 1);
    }
}

proof fn lemma_tick_bounds(s: Seq<char>, lo: int, hi: int)
    requires
        lo <= hi,
    ensures
        lo <= tick_lo(s, lo, hi) <= hi,
        lo <= tick_hi(s, lo, hi) <= hi,
    decreases hi - lo,
{
    if lo < hi && s[lo] == '`' {
        lemma_tick_bounds(s, lo + 1, hi);
    }
    if lo < hi && s[hi - 1] == '`' {
        lemma_tick_bounds(s, lo, hi - 1);
    }
}

/// The linked variants of `e` in `s[0..hi]`, in document order: one per
/// `]`-delimited piece that links one.
pub open spec fn line_variants(s: Seq<char>, hi: int, e: Seq<char>) -> Seq<Seq<char>>
    decreases hi,
{
    let k = last_char_in(s, ']', 0, hi);
    let tail = match piece_variant(s, k + 1, hi, e) {
        Some(v) => seq![v],
        None => Seq::<Seq<char>>::empty(),
    };
    if k < 0 || hi <= 0 {
        tail
    } else {
        proof {
            lemma_last_char_bounds(s, ']', 0, hi);
        }
        line_variants(s, k, e) + tail
    }
}

/// The linked variants of `e` over all `lines`, in document order.
pub open spec fn body_variants(lines: Seq<Seq<char>>, e: Seq<char>) -> Seq<Seq<char>>
    decreases lines.len(),
{
    if lines.len() == 0 {
        Seq::empty()
    } else {
        body_variants(lines.drop_last(), e) + line_variants(lines.last(), lines.last().len() as int, e)
    }
}

/// `a <= b` in lexicographic character order, as Rust orders `str`.
pub open spec fn lex_le(a: Seq<char>, b: Seq<char>) -> bool
    decreases a.len(),
{
    if a.len() == 0 {
        true
    } else if b.len() == 0 {
        false
    } else if a[0] != b[0] {
        a[0] < b[0]
    } else {
        lex_le(a.drop_first(), b.drop_first())
    }
}

/// `a <= b` exactly as strings are ordered: `a` is a prefix of `b`, or at
/// the first index where they differ `a`'s character is the smaller.
pub proof fn lemma_lex_le_first_difference(a: Seq<char>, b: Seq<char>)
    ensures
        lex_le(a, b) <==> ((a.len() <= b.len() && b.take(a.len() as int) == a) || exists|k: int|
            0 <= k < a.len() && k < b.len() && a.take(k) == b.take(k) && #[trigger] a[k] < #[trigger] b[k]),
    decreases a.len(),
{
    if a.len() == 0 {
        assert(b.take(0) =~= a);
    } else if b.len() == 0 {
    } else if a[0] != b[0] {
        if a[0] < b[0] {
            assert(a.take(0) =~= b.take(0));
        }
        assert forall|k: int| 0 <= k < a.len() && k < b.len() && a.take(k) == b.take(k) && #[trigger] a[k] < #[trigger] b[k]
            implies a[0] < b[0] by {
            if k > 0 {
                assert(a.take(k)[0] == b.take(k)[0]);
            }
        }
        if a.len() <= b.len() && b.take(a.len() as int) == a {
            assert(b.take(a.len() as int)[0] == b[0]);
        }
    } else {
        let (ta, tb) = (a.drop_first(), b.drop_first());
        lemma_lex_le_first_difference(ta, tb);
        if ta.len() <= tb.len() && tb.take(ta.len() as int) == ta {
            assert(b.take(a.len() as int) =~= a) by {
                assert forall|i: int| 0 <= i < a.len() implies #[trigger] b.take(a.len() as int)[i] == a[i] by {
                    if i > 0 {
                        assert(tb.take(ta.len() as int)[i - 1] == ta[i - 1]);
                    }
                }
            }
        }
        if a.len() <= b.len() && b.take(a.len() as int) == a {
            assert(tb.take(ta.len() as int) =~= ta) by {
                assert forall|i: int| 0 <= i < ta.len() implies #[trigger] tb.take(ta.len() as int)[i] == ta[i] by {
                    assert(b.take(a.len() as int)[i + 1] == a[i + 1]);
                }
            }
        }
        if exists|k: int| 0 <= k < ta.len() && k < tb.len() && ta.take(k) == tb.take(k) && #[trigger] ta[k] < #[trigger] tb[k] {
            let k = choose|k: int| 0 <= k < ta.len() && k < tb.len() && ta.take(k) == tb.take(k) && #[trigger] ta[k] < #[trigger] tb[k];
            assert(a.take(k + 1) =~= b.take(k + 1)) by {
                assert forall|i: int| 0 <= i < k + 1 implies #[trigger] a.take(k + 1)[i] == b.take(k + 1)[i] by {
                    if i > 0 {
                        assert(ta.take(k)[i - 1] == tb.take(k)[i - 1]);
                    }
                }
            }
            assert(a[k + 1] < b[k + 1]);
        }
        if exists|k: int| 0 <= k < a.len() && k < b.len() && a.take(k) == b.take(k) && #[trigger] a[k] < #[trigger] b[k] {
            let k = choose|k: int| 0 <= k < a.len() && k < b.len() && a.take(k) == b.take(k) && #[trigger] a[k] < #[trigger] b[k];
            assert(k > 0);
            assert(ta.take(k - 1) =~= tb.take(k - 1)) by {
                assert forall|i: int| 0 <= i < k - 1 implies #[trigger] ta.take(k - 1)[i] == tb.take(k - 1)[i] by {
                    assert(a.take(k)[i + 1] == b.take(k)[i + 1]);
                }
            }
            assert(ta[k - 1] < tb[k - 1]);
        }
    }
}

/// Of two different strings exactly one comes first: `lex_le` is total and
/// antisymmetric.
pub proof fn lemma_lex_le_strict_total(a: Seq<char>, b: Seq<char>)
    requires
        a != b,
    ensures
        lex_le(a, b) <==> !lex_le(b, a),
    decreases a.len(),
{
    if a.len() == 0 {
        assert(b.len() > 0) by {
            if b.len() == 0 {
                assert(a =~= b);
            }
        }
    } else if b.len() == 0 {
    } else if a[0] != b[0] {
    } else {
        assert(a.drop_first() != b.drop_first()) by {
            if a.drop_first() == b.drop_first() {
                assert(a.drop_first().len() == b.drop_first().len());
                assert(a.len() == b.len());
                assert(a[0] == b[0]);
                assert(a =~= b) by {
                    assert forall|i: int| 0 <= i < a.len() implies #[trigger] a[i] == b[i] by {
                        if i > 0 {
                            assert(a.drop_first()[i - 1] == b.drop_first()[i - 1]);
                        }
                    }
                }
            }
        }
        lemma_lex_le_strict_total(a.drop_first(), b.drop_first());
    }
}

/// No element of `vs` is greater than the next.
pub open spec fn non_decreasing(vs: Seq<Seq<char>>) -> bool {
    forall|i: int| 0 <= i < vs.len() - 1 ==> lex_le(#[trigger] vs[i], vs[i + 1])
}

/// The DOC008 condition for `item` against the file's enum names.
pub open spec fn out_of_order(item: SourceItem, enums: Seq<Seq<char>>) -> bool {
    &&& is_pub_result_fn(item)
    &&& item.result_error_type matches Some(e)
    &&& enums.contains(e@)
    &&& header_from(views(item.doc_comments@), 0, Section::Errors) matches Some(start)
    &&& !non_decreasing(
        body_variants(section_body_spec(views(item.doc_comments@), start), e@),
    )
}

fn last_char(s: &Vec<char>, c: char, lo: usize, hi: usize) -> (r: Option<usize>)
    requires
        lo <= hi <= s.len(),
    ensures
        r matches Some(k) ==> last_char_in(s@, c, lo as int, hi as int) == k && lo <= k < hi,
        r is None ==> last_char_in(s@, c, lo as int, hi as int) == -1,
{
    let mut h = hi;
    while h > lo
        invariant
            lo <= h <= hi <= s.len(),
            last_char_in(s@, c, lo as int, hi as int) == last_char_in(s@, c, lo as int, h as int),
        decreases h - lo,
    {
        if s[h - 1] == c {
            return Some(h - 1);
        }
        h -= 1;
    }
    None
}

fn last_colons(s: &Vec<char>, lo: usize, hi: usize) -> (r: Option<usize>)
    requires
        lo <= hi <= s.len(),
    ensures
        r matches Some(k) ==> last_colons_in(s@, lo as int, hi as int) == k && lo <= k && k + 2 <= hi,
        r is None ==> last_colons_in(s@, lo as int, hi as int) == -1,
{
    let mut h = hi;
    while h - lo >= 2
        invariant
            lo <= h <= hi <= s.len(),
            last_colons_in(s@, lo as int, hi as int) == last_colons_in(s@, lo as int, h as int),
        decreases h,
    {
        if s[h - 2] == ':' && s[h - 1] == ':' {
            return Some(h - 2);
        }
        h -= 1;
    }
    None
}

/// The characters `s[lo..hi]` as a string.
fn substring(s: &Vec<char>, lo: usize, hi: usize) -> (r: String)
    requires
        lo <= hi <= s.len(),
    ensures
        r@ == s@.subrange(lo as int, hi as int),
{
    let mut out = String::new();
    let mut k = lo;
    while k < hi
        invariant
            lo <= k <= hi <= s.len(),
            out@ == s@.subrange(lo as int, k as int),
        decreases hi - k,
    {
        push_char(&mut out, s[k]);
        assert(s@.subrange(lo as int, k + 1) =~= s@.subrange(lo as int, k as int).push(s@[k as int]));
        k += 1;
    }
    out
}

/// The variant that link content `s[lo..hi]` names for the enum `e`.
fn link_variant_of(s: &Vec<char>, lo: usize, hi: usize, e: &str) -> (r: Option<String>)
    requires
        lo <= hi <= s.len(),
    ensures
        r matches Some(v) ==> link_variant(s@, lo as int, hi as int, e@) == Some(v@),
        r is None ==> link_variant(s@, lo as int, hi as int, e@) is None,
{
    let mut a = lo;
    while a < hi && s[a] == '`'
        invariant
            lo <= a <= hi <= s.len(),
            tick_lo(s@, lo as int, hi as int) == tick_lo(s@, a as int, hi as int),
        decreases hi - a,
    {
        a += 1;
    }
    let mut b = hi;
    while b > a && s[b - 1] == '`'
        invariant
            a <= b <= hi <= s.len(),
            tick_lo(s@, lo as int, hi as int) == a,
            tick_hi(s@, a as int, hi as int) == tick_hi(s@, a as int, b as int),
        decreases b - a,
    {
        b -= 1;
    }
    let i = match last_colons(s, a, b) {
        Some(i) => i,
        None => return None,
    };
    let linked = match last_colons(s, a, i) {
        Some(j) => substring(s, j + 2, i),
        None => substring(s, a, i),
    };
    if str_eq(linked.as_str(), e) {
        Some(substring(s, i + 2, b))
    } else {
        None
    }
}

/// Append the variants of `e` linked in `s[0..hi]`.
fn push_line_variants(s: &Vec<char>, hi: usize, e: &str, out: &mut Vec<String>)
    requires
        hi <= s.len(),
    ensures
        views(final(out)@) == views(old(out)@) + line_variants(s@, hi as int, e@),
    decreases hi,
{
    let ghost before = views(out@);
    let k = last_char(s, ']', 0, hi);
    let from = match k {
        Some(k) => k + 1,
        None => 0,
    };
    if let Some(k) = k {
        push_line_variants(s, k, e, out);
    }
    let ghost middle = views(out@);
    let v = match last_char(s, '[', from, hi) {
        Some(b) => link_variant_of(s, b + 1, hi, e),
        None => None,
    };
    let ghost tail = match piece_variant(s@, from as int, hi as int, e@) {
        Some(x) => seq![x],
        None => Seq::<Seq<char>>::empty(),
    };
    match v {
        Some(x) => {
            out.push(x);
            assert(views(out@) =~= middle + tail);
        },
        None => {
            assert(views(out@) =~= middle + tail);
        },
    }
    proof {
        match k {
            Some(k) => {
                assert(line_variants(s@, hi as int, e@) == line_variants(s@, k as int, e@) + tail);
                assert(views(out@) =~= before + line_variants(s@, hi as int, e@));
            },
            None => {
                assert(line_variants(s@, hi as int, e@) == tail);
                assert(views(out@) =~= before + line_variants(s@, hi as int, e@));
            },
        }
    }
}

/// The variants of `e` linked in `lines`, in document order.
fn linked_variants(lines: &Vec<String>, e: &str) -> (r: Vec<String>)
    ensures
        views(r@) == body_variants(views(lines@), e@),
{
    let mut out: Vec<String> = Vec::new();
    let mut k: usize = 0;
    while k < lines.len()
        invariant
            k <= lines.len(),
            views(out@) == body_variants(views(lines@).take(k as int), e@),
        decreases lines.len() - k,
    {
        let chars = chars_of(lines[k].as_str());
        push_line_variants(&chars, chars.len(), e, &mut out);
        proof {
            let pre = views(lines@).take(k + 1);
            assert(pre.drop_last() =~= views(lines@).take(k as int));
            assert(pre.last() == lines@[k as int]@);
        }
        k += 1;
    }
    assert(views(lines@).take(lines.len() as int) =~= views(lines@));
    out
}

/// True when `a <= b` in lexicographic character order.
fn chars_le(a: &Vec<char>, b: &Vec<char>) -> (r: bool)
    ensures
        r == lex_le(a@, b@),
{
    let mut i: usize = 0;
    assert(a@.skip(0) =~= a@);
    assert(b@.skip(0) =~= b@);
    while i < a.len()
        invariant
            i <= a.len(),
            lex_le(a@, b@) == lex_le(a@.skip(i as int), b@.skip(i as int)),
            i <= b.len(),
        decreases a.len() - i,
    {
        let ghost sa = a@.skip(i as int);
        let ghost sb = b@.skip(i as int);
        if i >= b.len() {
            assert(sb.len() == 0);
            return false;
        }
        assert(sa[0] == a@[i as int] && sb[0] == b@[i as int]);
        if a[i] != b[i] {
            return a[i] < b[i];
        }
        assert(sa.drop_first() =~= a@.skip(i + 1));
        assert(sb.drop_first() =~= b@.skip(i + 1));
        i += 1;
    }
    assert(a@.skip(i as int).len() == 0);
    true
}

/// True when no variant is greater than the next.
fn is_non_decreasing(vs: &Vec<String>) -> (r: bool)
    ensures
        r == non_decreasing(views(vs@)),
{
    if vs.len() < 2 {
        return true;
    }
    let mut i: usize = 0;
    while i + 1 < vs.len()
        invariant
            vs.len() >= 2,
            i + 1 <= vs.len(),
            forall|j: int| 0 <= j < i ==> lex_le(#[trigger] views(vs@)[j], views(vs@)[j + 1]),
        decreases vs.len() - i,
    {
        let a = chars_of(vs[i].as_str());
        let b = chars_of(vs[i + 1].as_str());
        assert(views(vs@)[i as int] == vs@[i as int]@);
        assert(views(vs@)[i + 1] == vs@[i + 1]@);
        if !chars_le(&a, &b) {
            return false;
        }
        i += 1;
    }
    true
}

/// `r` is exactly the rule's report: the count its condition gives, and
/// the finding's fields when there is one.
pub open spec fn reports(item: SourceItem, enums: Seq<Seq<char>>, r: Seq<Diagnostic>) -> bool {
    &&& r.len() == (if out_of_order(item, enums) {
        1int
    } else {
        0int
    })
    &&& r.len() == 1 ==> (item.result_error_type matches Some(e) && item_finding(
        r[0],
        item,
        CODE_ERROR_VARIANT_ORDER@,
        Severity::Error,
        None,
        "`# Errors` lists variants of `"@ + e@ + "` out of alphabetical order"@,
    ))
}

/// Report a `pub fn` returning `Result` whose `# Errors` section links the
/// variants of its same-file error enum out of alphabetical order.
///
/// # Arguments
///
/// - `item` - the item to inspect.
/// - `enums` - the names of the file's top-level enums.
///
/// # Returns
///
/// One DOC008 error for an out-of-order listing, else nothing.
pub fn check(item: &SourceItem, enums: &Vec<String>) -> (r: Vec<Diagnostic>)
    ensures
        reports(*item, views(enums@), r@),
{
    let mut out: Vec<Diagnostic> = Vec::new();
    if !pub_result_fn(item) {
        return out;
    }
    let e = match &item.result_error_type {
        Some(e) => e,
        None => return out,
    };
    if !strings_contain(enums, e.as_str()) {
        return out;
    }
    let start = match find_errors_section(&item.doc_comments) {
        Some(s) => s,
        None => return out,
    };
    let body = section_body(&item.doc_comments, start);
    let variants = linked_variants(&body, e.as_str());
    if is_non_decreasing(&variants) {
        return out;
    }
    let mut message = owned("`# Errors` lists variants of `");
    push_str(&mut message, e.as_str());
    push_str(&mut message, "` out of alphabetical order");
    out.push(item_diagnostic(item, CODE_ERROR_VARIANT_ORDER, Severity::Error, None, message));
    out
}

} // verus!
