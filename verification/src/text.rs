//! Character-level helpers shared by the rules.
//!
//! Strings are reasoned about through their character views (`s@`). The
//! helpers here build strings by appending, compare them, and join lists of
//! segments; the few that call the standard library directly are trusted
//! wrappers with the contract their documentation gives.
use vstd::prelude::*;

verus! {

/// True when both string slices hold the same characters.
///
/// Calls `<str as PartialEq>::eq`; the contract claims it compares the
/// character sequences, as its documentation states.
#[verifier::external_body]
pub(crate) fn str_eq(a: &str, b: &str) -> (r: bool)
    ensures
        r == (a@ == b@),
{
    a == b
}

/// Append one character to `s`.
///
/// Calls `String::push`; the contract claims the character lands at the end,
/// as its documentation states.
#[verifier::external_body]
pub(crate) fn push_char(s: &mut String, c: char)
    ensures
        final(s)@ == old(s)@.push(c),
{
    s.push(c)
}

/// Append `t` to `s`.
///
/// Calls `String::push_str`; the contract claims the characters of `t` land
/// at the end, as its documentation states.
#[verifier::external_body]
pub(crate) fn push_str(s: &mut String, t: &str)
    ensures
        final(s)@ == old(s)@ + t@,
{
    s.push_str(t)
}

/// The characters of `s`, in order.
///
/// Calls `str::chars` and collects; the contract claims the vector holds the
/// string's characters, as the documentation of `chars` states.
#[verifier::external_body]
pub(crate) fn chars_of(s: &str) -> (r: Vec<char>)
    ensures
        r@ == s@,
{
    s.chars().collect()
}

/// Whether `char::is_alphanumeric` holds of `c`: alphabetic or numeric in
/// Unicode.
pub uninterp spec fn alphanumeric(c: char) -> bool;

/// `char::is_alphanumeric`. The result is the Unicode property named by
/// [`alphanumeric`]; for ASCII characters it holds exactly of letters and
/// digits. Beyond ASCII no clause says which characters qualify.
#[verifier::external_body]
pub(crate) fn is_alphanumeric(c: char) -> (r: bool)
    ensures
        r == alphanumeric(c),
        (c as u32) < 128 ==> (r <==> (('a' <= c && c <= 'z') || ('A' <= c && c <= 'Z') || ('0' <= c && c <= '9'))),
{
    c.is_alphanumeric()
}

/// A new string holding the characters of `t`.
pub fn owned(t: &str) -> (r: String)
    ensures
        r@ == t@,
{
    let mut s = String::new();
    push_str(&mut s, t);
    s
}

/// A copy of `t`.
pub fn copy_string(t: &String) -> (r: String)
    ensures
        r@ == t@,
{
    owned(t.as_str())
}

/// Views of a list of strings.
pub open spec fn views(v: Seq<String>) -> Seq<Seq<char>> {
    v.map_values(|s: String| s@)
}

/// `list` joined with `sep` between neighbours.
pub open spec fn join_spec(list: Seq<Seq<char>>, sep: Seq<char>) -> Seq<char>
    decreases list.len(),
{
    if list.len() == 0 {
        Seq::empty()
    } else if list.len() == 1 {
        list[0]
    } else {
        join_spec(list.drop_last(), sep) + sep + list.last()
    }
}

/// The strings of `list` joined with `sep` between neighbours.
pub fn join(list: &Vec<String>, sep: &str) -> (r: String)
    ensures
        r@ == join_spec(views(list@), sep@),
{
    let mut out = String::new();
    let n = list.len();
    let mut i: usize = 0;
    while i < n
        invariant
            n == list.len(),
            i <= n,
            out@ == join_spec(views(list@).take(i as int), sep@),
        decreases n - i,
    {
        proof {
            assert(views(list@).take(i + 1).drop_last() =~= views(list@).take(i as int));
        }
        if i > 0 {
            push_str(&mut out, sep);
        }
        push_str(&mut out, list[i].as_str());
        i += 1;
    }
    assert(views(list@).take(n as int) =~= views(list@));
    out
}

/// `s` back to front.
pub open spec fn backwards(s: Seq<Seq<char>>) -> Seq<Seq<char>> {
    Seq::new(s.len(), |k: int| s[s.len() - 1 - k])
}

/// A copy of a list of strings.
pub fn copy_strings(list: &Vec<String>) -> (r: Vec<String>)
    ensures
        views(r@) == views(list@),
        r.len() == list.len(),
{
    let mut out: Vec<String> = Vec::new();
    let n = list.len();
    let mut i: usize = 0;
    while i < n
        invariant
            n == list.len(),
            i <= n,
            out.len() == i,
            forall|k: int| 0 <= k < i ==> out@[k]@ == list@[k]@,
        decreases n - i,
    {
        out.push(copy_string(&list[i]));
        i += 1;
    }
    assert(views(out@) =~= views(list@));
    out
}

/// The list in reverse order.
pub fn reversed(list: Vec<String>) -> (r: Vec<String>)
    ensures
        r.len() == list.len(),
        forall|k: int| 0 <= k < r.len() ==> r@[k]@ == list@[list.len() - 1 - k]@,
{
    let mut rest = list;
    let ghost orig = rest@;
    let mut out: Vec<String> = Vec::new();
    while rest.len() > 0
        invariant
            out.len() + rest.len() == orig.len(),
            rest@ == orig.take(rest.len() as int),
            forall|k: int| 0 <= k < out.len() ==> out@[k] == orig[orig.len() - 1 - k],
        decreases rest.len(),
    {
        let x = rest.pop().unwrap();
        out.push(x);
    }
    out
}

/// True when both lists hold the same strings in the same order.
pub fn strings_eq(a: &Vec<String>, b: &Vec<String>) -> (r: bool)
    ensures
        r == (views(a@) == views(b@)),
{
    if a.len() != b.len() {
        assert(views(a@).len() != views(b@).len());
        return false;
    }
    let n = a.len();
    let mut i: usize = 0;
    while i < n
        invariant
            n == a.len() == b.len(),
            i <= n,
            forall|k: int| 0 <= k < i ==> a@[k]@ == b@[k]@,
        decreases n - i,
    {
        if !str_eq(a[i].as_str(), b[i].as_str()) {
            assert(views(a@)[i as int] != views(b@)[i as int]);
            return false;
        }
        i += 1;
    }
    assert(views(a@) =~= views(b@));
    true
}

/// True when `prefix` is a leading part of `list`.
pub fn strings_start_with(list: &Vec<String>, prefix: &Vec<String>) -> (r: bool)
    ensures
        r == (prefix.len() <= list.len() && views(list@).take(prefix.len() as int) == views(
            prefix@,
        )),
{
    if prefix.len() > list.len() {
        return false;
    }
    let n = prefix.len();
    let mut i: usize = 0;
    while i < n
        invariant
            n == prefix.len() <= list.len(),
            i <= n,
            forall|k: int| 0 <= k < i ==> list@[k]@ == prefix@[k]@,
        decreases n - i,
    {
        if !str_eq(list[i].as_str(), prefix[i].as_str()) {
            assert(views(list@).take(n as int)[i as int] != views(prefix@)[i as int]);
            return false;
        }
        i += 1;
    }
    assert(views(list@).take(n as int) =~= views(prefix@));
    true
}

/// True when `list` holds a string equal to `s`.
pub fn strings_contain(list: &Vec<String>, s: &str) -> (r: bool)
    ensures
        r == views(list@).contains(s@),
{
    let n = list.len();
    let mut i: usize = 0;
    while i < n
        invariant
            n == list.len(),
            i <= n,
            forall|k: int| 0 <= k < i ==> list@[k]@ != s@,
        decreases n - i,
    {
        if str_eq(list[i].as_str(), s) {
            assert(views(list@)[i as int] == s@);
            return true;
        }
        i += 1;
    }
    assert(!views(list@).contains(s@)) by {
        if views(list@).contains(s@) {
            let k = choose|k: int| 0 <= k < views(list@).len() && views(list@)[k] == s@;
            assert(list@[k]@ == s@);
        }
    }
    false
}

/// True for `A` through `Z`.
pub open spec fn is_upper(c: char) -> bool {
    'A' <= c <= 'Z'
}

/// True for `a` through `z`.
pub open spec fn is_lower(c: char) -> bool {
    'a' <= c <= 'z'
}

/// True when `s` starts with an ASCII uppercase letter.
pub fn starts_upper(s: &str) -> (r: bool)
    ensures
        r == (s@.len() > 0 && is_upper(s@[0])),
{
    let chars = chars_of(s);
    chars.len() > 0 && 'A' <= chars[0] && chars[0] <= 'Z'
}

/// True when `s` starts with an ASCII lowercase letter.
pub fn starts_lower(s: &str) -> (r: bool)
    ensures
        r == (s@.len() > 0 && is_lower(s@[0])),
{
    let chars = chars_of(s);
    chars.len() > 0 && 'a' <= chars[0] && chars[0] <= 'z'
}


/// True when `s` begins with `prefix`.
pub fn str_starts_with(s: &str, prefix: &str) -> (r: bool)
    ensures
        r == (prefix@.len() <= s@.len() && s@.take(prefix@.len() as int) == prefix@),
{
    let a = chars_of(s);
    let b = chars_of(prefix);
    if b.len() > a.len() {
        return false;
    }
    let n = b.len();
    let mut i: usize = 0;
    while i < n
        invariant
            a@ == s@,
            b@ == prefix@,
            n == b.len() <= a.len(),
            i <= n,
            forall|k: int| 0 <= k < i ==> a@[k] == b@[k],
        decreases n - i,
    {
        if a[i] != b[i] {
            assert(s@.take(n as int)[i as int] != prefix@[i as int]);
            return false;
        }
        i += 1;
    }
    assert(s@.take(n as int) =~= prefix@);
    true
}

/// `s` without its leading run of `c`.
pub open spec fn strip_leading_spec(s: Seq<char>, c: char) -> Seq<char>
    decreases s.len(),
{
    if s.len() > 0 && s[0] == c {
        strip_leading_spec(s.drop_first(), c)
    } else {
        s
    }
}

/// A copy of `s` without its leading run of `c`.
pub fn strip_leading(s: &str, c: char) -> (r: String)
    ensures
        r@ == strip_leading_spec(s@, c),
{
    let chars = chars_of(s);
    let n = chars.len();
    let mut i: usize = 0;
    assert(chars@.skip(0) =~= chars@);
    while i < n && chars[i] == c
        invariant
            chars@ == s@,
            n == chars.len(),
            i <= n,
            strip_leading_spec(s@, c) == strip_leading_spec(chars@.skip(i as int), c),
        decreases n - i,
    {
        assert(chars@.skip(i as int).drop_first() =~= chars@.skip(i + 1));
        i += 1;
    }
    let ghost rest = chars@.skip(i as int);
    assert(strip_leading_spec(rest, c) == rest);
    let mut out = String::new();
    let mut k = i;
    while k < n
        invariant
            chars@ == s@,
            n == chars.len(),
            i <= k <= n,
            rest == chars@.skip(i as int),
            out@ == chars@.subrange(i as int, k as int),
        decreases n - k,
    {
        push_char(&mut out, chars[k]);
        assert(chars@.subrange(i as int, k + 1) =~= chars@.subrange(i as int, k as int).push(chars@[k as int]));
        k += 1;
    }
    assert(out@ =~= rest);
    out
}


/// The decimal digit character for `d < 10`.
pub open spec fn digit_char(d: nat) -> char {
    if d == 0 {
        '0'
    } else if d == 1 {
        '1'
    } else if d == 2 {
        '2'
    } else if d == 3 {
        '3'
    } else if d == 4 {
        '4'
    } else if d == 5 {
        '5'
    } else if d == 6 {
        '6'
    } else if d == 7 {
        '7'
    } else if d == 8 {
        '8'
    } else {
        '9'
    }
}

/// The decimal spelling of `n`, without leading zeros.
pub open spec fn decimal(n: nat) -> Seq<char>
    decreases n,
{
    if n < 10 {
        seq![digit_char(n)]
    } else {
        decimal(n / 10).push(digit_char(n % 10))
    }
}

fn digit(d: usize) -> (r: char)
    requires
        d < 10,
    ensures
        r == digit_char(d as nat),
{
    if d == 0 {
        '0'
    } else if d == 1 {
        '1'
    } else if d == 2 {
        '2'
    } else if d == 3 {
        '3'
    } else if d == 4 {
        '4'
    } else if d == 5 {
        '5'
    } else if d == 6 {
        '6'
    } else if d == 7 {
        '7'
    } else if d == 8 {
        '8'
    } else {
        '9'
    }
}

/// `n` written in decimal.
pub fn decimal_string(n: usize) -> (r: String)
    ensures
        r@ == decimal(n as nat),
    decreases n,
{
    if n < 10 {
        let mut s = String::new();
        push_char(&mut s, digit(n));
        assert(s@ =~= seq![digit_char(n as nat)]);
        s
    } else {
        let mut s = decimal_string(n / 10);
        push_char(&mut s, digit(n % 10));
        s
    }
}


/// Unicode `White_Space`, the whitespace `str::trim` removes.
pub open spec fn is_white_space(c: char) -> bool {
    ('\t' <= c && c <= '\r') || c == ' ' || c == '\u{85}' || c == '\u{a0}' || c == '\u{1680}' || ('\u{2000}'
        <= c && c <= '\u{200a}') || c == '\u{2028}' || c == '\u{2029}' || c == '\u{202f}' || c == '\u{205f}'
        || c == '\u{3000}'
}

fn white_space(c: char) -> (r: bool)
    ensures
        r == is_white_space(c),
{
    ('\t' <= c && c <= '\r') || c == ' ' || c == '\u{85}' || c == '\u{a0}' || c == '\u{1680}' || ('\u{2000}'
        <= c && c <= '\u{200a}') || c == '\u{2028}' || c == '\u{2029}' || c == '\u{202f}' || c == '\u{205f}'
        || c == '\u{3000}'
}

/// The index of the first character of `s` at or after `i` that is not
/// whitespace, or `s.len()`.
pub open spec fn first_solid(s: Seq<char>, i: int) -> int
    decreases s.len() - i,
{
    if i >= s.len() || i < 0 {
        s.len() as int
    } else if is_white_space(s[i]) {
        first_solid(s, i + 1)
    } else {
        i
    }
}

/// One past the index of the last character of `s` before `j` that is not
/// whitespace, or `lo` when there is none at or after `lo`.
pub open spec fn last_solid_end(s: Seq<char>, lo: int, j: int) -> int
    decreases j - lo,
{
    if j <= lo {
        lo
    } else if is_white_space(s[j - 1]) {
        last_solid_end(s, lo, j - 1)
    } else {
        j
    }
}

/// `s` without leading and trailing whitespace.
pub open spec fn trim_spec(s: Seq<char>) -> Seq<char> {
    let lo = first_solid(s, 0);
    s.subrange(lo, last_solid_end(s, lo, s.len() as int))
}

proof fn lemma_first_solid_bounds(s: Seq<char>, i: int)
    requires
        0 <= i <= s.len(),
    ensures
        i <= first_solid(s, i) <= s.len(),
    decreases s.len() - i,
{
    if i < s.len() && is_white_space(s[i]) {
        lemma_first_solid_bounds(s, i + 1);
    }
}

proof fn lemma_last_solid_bounds(s: Seq<char>, lo: int, j: int)
    requires
        lo <= j,
    ensures
        lo <= last_solid_end(s, lo, j) <= j,
    decreases j - lo,
{
    if j > lo && is_white_space(s[j - 1]) {
        lemma_last_solid_bounds(s, lo, j - 1);
    }
}

/// A copy of `s` without leading and trailing whitespace, as `str::trim`.
pub fn trim(s: &str) -> (r: String)
    ensures
        r@ == trim_spec(s@),
{
    let chars = chars_of(s);
    let n = chars.len();
    let mut lo: usize = 0;
    while lo < n && white_space(chars[lo])
        invariant
            chars@ == s@,
            n == chars.len(),
            lo <= n,
            first_solid(s@, 0) == first_solid(s@, lo as int),
        decreases n - lo,
    {
        lo += 1;
    }
    assert(first_solid(s@, lo as int) == lo);
    let mut hi: usize = n;
    proof {
        lemma_first_solid_bounds(s@, 0);
    }
    while hi > lo && white_space(chars[hi - 1])
        invariant
            chars@ == s@,
            n == chars.len(),
            lo <= hi <= n,
            last_solid_end(s@, lo as int, n as int) == last_solid_end(s@, lo as int, hi as int),
        decreases hi - lo,
    {
        hi -= 1;
    }
    assert(last_solid_end(s@, lo as int, hi as int) == hi);
    let mut out = String::new();
    let mut k = lo;
    while k < hi
        invariant
            chars@ == s@,
            lo <= k <= hi <= n == chars.len(),
            out@ == chars@.subrange(lo as int, k as int),
        decreases hi - k,
    {
        push_char(&mut out, chars[k]);
        assert(chars@.subrange(lo as int, k + 1) =~= chars@.subrange(lo as int, k as int).push(chars@[k as int]));
        k += 1;
    }
    out
}

/// The code of `c` after ASCII lowercasing.
pub open spec fn lower_code(c: char) -> u32 {
    if is_upper(c) {
        (c as u32 + 32) as u32
    } else {
        c as u32
    }
}

/// `a` and `b` are equal up to ASCII case.
pub open spec fn eq_ignore_case(a: Seq<char>, b: Seq<char>) -> bool {
    a.len() == b.len() && forall|i: int| 0 <= i < a.len() ==> lower_code(a[i]) == lower_code(b[i])
}

fn lower_code_of(c: char) -> (r: u32)
    ensures
        r == lower_code(c),
{
    let code = c as u32;
    if 'A' <= c && c <= 'Z' {
        code + 32
    } else {
        code
    }
}

/// True when `a` and `b` are equal up to ASCII case, as
/// `str::eq_ignore_ascii_case`.
pub fn str_eq_ignore_case(a: &str, b: &str) -> (r: bool)
    ensures
        r == eq_ignore_case(a@, b@),
{
    let x = chars_of(a);
    let y = chars_of(b);
    if x.len() != y.len() {
        return false;
    }
    let n = x.len();
    let mut i: usize = 0;
    while i < n
        invariant
            x@ == a@,
            y@ == b@,
            n == x.len() == y.len(),
            i <= n,
            forall|k: int| 0 <= k < i ==> lower_code(a@[k]) == lower_code(b@[k]),
        decreases n - i,
    {
        if lower_code_of(x[i]) != lower_code_of(y[i]) {
            return false;
        }
        i += 1;
    }
    true
}

/// `pat` occurs in `s` at index `i`.
pub open spec fn occurs_at(s: Seq<char>, pat: Seq<char>, i: int) -> bool {
    0 <= i && i + pat.len() <= s.len() && s.subrange(i, i + pat.len()) == pat
}

/// `pat` occurs somewhere in `s`.
pub open spec fn contains_seq(s: Seq<char>, pat: Seq<char>) -> bool {
    exists|i: int| occurs_at(s, pat, i)
}

/// True when `pat` occurs at index `i` of `chars`.
fn matches_at(chars: &Vec<char>, pat: &Vec<char>, i: usize) -> (r: bool)
    ensures
        r == occurs_at(chars@, pat@, i as int),
{
    if i > chars.len() || pat.len() > chars.len() - i {
        return false;
    }
    let mut k: usize = 0;
    while k < pat.len()
        invariant
            i + pat.len() <= chars.len(),
            k <= pat.len(),
            forall|j: int| 0 <= j < k ==> chars@[i + j] == pat@[j],
        decreases pat.len() - k,
    {
        if chars[i + k] != pat[k] {
            assert(chars@.subrange(i as int, i + pat.len())[k as int] != pat@[k as int]);
            return false;
        }
        k += 1;
    }
    assert(chars@.subrange(i as int, i + pat.len()) =~= pat@);
    true
}

/// True when `pat` occurs in `s`, as `str::contains`.
pub fn str_contains(s: &str, pat: &str) -> (r: bool)
    ensures
        r == contains_seq(s@, pat@),
{
    let chars = chars_of(s);
    let p = chars_of(pat);
    let mut i: usize = 0;
    loop
        invariant
            chars@ == s@,
            p@ == pat@,
            i <= chars.len(),
            forall|j: int| 0 <= j < i ==> !occurs_at(s@, pat@, j),
        decreases chars.len() - i,
    {
        if matches_at(&chars, &p, i) {
            return true;
        }
        if i == chars.len() {
            assert forall|j: int| !occurs_at(s@, pat@, j) by {
                if 0 <= j && j + pat@.len() <= s@.len() && j != i {
                    assert(j < i);
                }
            }
            return false;
        }
        i += 1;
    }
}

} // verus!
