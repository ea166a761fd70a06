//! XML doc-comment readers shared by the C# documentation rules: the
//! opening tag of a doc line, `<param name="...">` names, and whole-word
//! search.
use crate::text::{chars_of, first_solid, is_white_space, occurs_at, push_char, str_eq, views};
use vstd::prelude::*;

verus! {

/// The canonical rank of an XML doc tag name.
pub open spec fn rank_of_name(n: Seq<char>) -> Option<u8> {
    if n == "inheritdoc"@ {
        Some(1)
    } else if n == "summary"@ {
        Some(2)
    } else if n == "typeparam"@ {
        Some(3)
    } else if n == "param"@ {
        Some(4)
    } else if n == "returns"@ {
        Some(5)
    } else if n == "value"@ {
        Some(6)
    } else if n == "exception"@ {
        Some(7)
    } else if n == "remarks"@ {
        Some(8)
    } else if n == "example"@ {
        Some(9)
    } else if n == "seealso"@ {
        Some(10)
    } else {
        None
    }
}

/// A character that ends a tag name: `>`, `/`, or whitespace.
pub open spec fn ends_name(c: char) -> bool {
    c == '>' || c == '/' || is_white_space(c)
}

/// The first index at or after `i` of `s` holding a name-ending character.
pub open spec fn name_end(s: Seq<char>, i: int) -> Option<int>
    decreases s.len() - i,
{
    if i < 0 || i >= s.len() {
        None
    } else if ends_name(s[i]) {
        Some(i)
    } else {
        name_end(s, i + 1)
    }
}

/// The rank of the opening doc tag that starts `line` after leading
/// whitespace. A bare `<name` with no boundary before the line ends, a
/// closing tag, and mid-line markup never count.
pub open spec fn tag_rank_spec(line: Seq<char>) -> Option<u8> {
    let t = line.skip(first_solid(line, 0));
    if t.len() == 0 || t[0] != '<' {
        None
    } else {
        let rest = t.drop_first();
        match name_end(rest, 0) {
            Some(e) => rank_of_name(rest.take(e)),
            None => None,
        }
    }
}

/// The characters `chars[from..to]` as a string.
fn substring(chars: &Vec<char>, from: usize, to: usize) -> (r: String)
    requires
        from <= to <= chars.len(),
    ensures
        r@ == chars@.subrange(from as int, to as int),
{
    let mut out = String::new();
    let mut k = from;
    while k < to
        invariant
            from <= k <= to <= chars.len(),
            out@ == chars@.subrange(from as int, k as int),
        decreases to - k,
    {
        push_char(&mut out, chars[k]);
        assert(out@ =~= chars@.subrange(from as int, k + 1));
        k += 1;
    }
    out
}

fn rank_of(n: &str) -> (r: Option<u8>)
    ensures
        r == rank_of_name(n@),
{
    if str_eq(n, "inheritdoc") {
        Some(1)
    } else if str_eq(n, "summary") {
        Some(2)
    } else if str_eq(n, "typeparam") {
        Some(3)
    } else if str_eq(n, "param") {
        Some(4)
    } else if str_eq(n, "returns") {
        Some(5)
    } else if str_eq(n, "value") {
        Some(6)
    } else if str_eq(n, "exception") {
        Some(7)
    } else if str_eq(n, "remarks") {
        Some(8)
    } else if str_eq(n, "example") {
        Some(9)
    } else if str_eq(n, "seealso") {
        Some(10)
    } else {
        None
    }
}

/// The rank of the opening doc tag that starts `line`.
pub fn tag_rank(line: &str) -> (r: Option<u8>)
    ensures
        r == tag_rank_spec(line@),
{
    let chars = chars_of(line);
    let n = chars.len();
    let mut lo: usize = 0;
    while lo < n && is_space_char(chars[lo])
        invariant
            chars@ == line@,
            n == chars.len(),
            lo <= n,
            first_solid(line@, 0) == first_solid(line@, lo as int),
        decreases n - lo,
    {
        lo += 1;
    }
    assert(first_solid(line@, lo as int) == lo);
    let ghost t = line@.skip(lo as int);
    if lo >= n || chars[lo] != '<' {
        return None;
    }
    let ghost rest = t.drop_first();
    assert(rest =~= line@.skip(lo + 1));
    let mut e = lo + 1;
    while e < n && !(chars[e] == '>' || chars[e] == '/' || is_space_char(chars[e]))
        invariant
            chars@ == line@,
            n == chars.len(),
            lo < e <= n,
            rest == line@.skip(lo + 1),
            name_end(rest, 0) == name_end(rest, e - lo - 1),
        decreases n - e,
    {
        e += 1;
    }
    if e >= n {
        assert(name_end(rest, e - lo - 1) is None);
        return None;
    }
    assert(name_end(rest, e - lo - 1) == Some(e - lo - 1));
    let name = substring(&chars, lo + 1, e);
    assert(rest.take(e - lo - 1) =~= name@);
    rank_of(name.as_str())
}

fn is_space_char(c: char) -> (r: bool)
    ensures
        r == is_white_space(c),
{
    ('\t' <= c && c <= '\r') || c == ' ' || c == '\u{85}' || c == '\u{a0}' || c == '\u{1680}' || ('\u{2000}' <= c
        && c <= '\u{200a}') || c == '\u{2028}' || c == '\u{2029}' || c == '\u{202f}' || c == '\u{205f}' || c
        == '\u{3000}'
}

/// The canonical tag name of a rank.
pub open spec fn canonical_tag_spec(rank: u8) -> Seq<char> {
    if rank == 1 {
        "inheritdoc"@
    } else if rank == 2 {
        "summary"@
    } else if rank == 3 {
        "typeparam"@
    } else if rank == 4 {
        "param"@
    } else if rank == 5 {
        "returns"@
    } else if rank == 6 {
        "value"@
    } else if rank == 7 {
        "exception"@
    } else if rank == 8 {
        "remarks"@
    } else if rank == 9 {
        "example"@
    } else {
        "seealso"@
    }
}

/// The canonical tag name of `rank`.
pub fn canonical_tag(rank: u8) -> (r: &'static str)
    ensures
        r@ == canonical_tag_spec(rank),
{
    if rank == 1 {
        "inheritdoc"
    } else if rank == 2 {
        "summary"
    } else if rank == 3 {
        "typeparam"
    } else if rank == 4 {
        "param"
    } else if rank == 5 {
        "returns"
    } else if rank == 6 {
        "value"
    } else if rank == 7 {
        "exception"
    } else if rank == 8 {
        "remarks"
    } else if rank == 9 {
        "example"
    } else {
        "seealso"
    }
}

/// The index of the first `"` in `s` at or after `i`, or its length.
pub open spec fn quote_from(s: Seq<char>, i: int) -> int
    decreases s.len() - i,
{
    if i < 0 || i >= s.len() {
        s.len() as int
    } else if s[i] == '"' {
        i
    } else {
        quote_from(s, i + 1)
    }
}

/// The parameter a doc line names when it starts, after leading
/// whitespace, with `<param name="` and the name's closing quote follows.
pub open spec fn param_tag_spec(line: Seq<char>) -> Option<Seq<char>> {
    let t = line.skip(first_solid(line, 0));
    let open = "<param name=\""@;
    if t.len() >= open.len() && t.take(open.len() as int) == open {
        let rest = t.skip(open.len() as int);
        let q = quote_from(rest, 0);
        if q < rest.len() {
            Some(rest.take(q))
        } else {
            None
        }
    } else {
        None
    }
}

/// The parameter names the doc lines `docs` tag, in order.
pub open spec fn param_tags_spec(docs: Seq<Seq<char>>) -> Seq<Seq<char>>
    decreases docs.len(),
{
    if docs.len() == 0 {
        Seq::empty()
    } else {
        let rest = param_tags_spec(docs.drop_last());
        match param_tag_spec(docs.last()) {
            Some(n) => rest.push(n),
            None => rest,
        }
    }
}

/// The parameter `line` tags, if it opens a `<param name="...">` tag.
pub fn param_tag(line: &str) -> (r: Option<String>)
    ensures
        r matches Some(n) ==> param_tag_spec(line@) == Some(n@),
        r is None ==> param_tag_spec(line@) is None,
{
    let chars = chars_of(line);
    let n = chars.len();
    let mut lo: usize = 0;
    while lo < n && is_space_char(chars[lo])
        invariant
            chars@ == line@,
            n == chars.len(),
            lo <= n,
            first_solid(line@, 0) == first_solid(line@, lo as int),
        decreases n - lo,
    {
        lo += 1;
    }
    assert(first_solid(line@, lo as int) == lo);
    let ghost t = line@.skip(lo as int);
    let open = chars_of("<param name=\"");
    proof {
        reveal_strlit("<param name=\"");
    }
    if n - lo < open.len() {
        return None;
    }
    let mut k: usize = 0;
    while k < open.len()
        invariant
            chars@ == line@,
            open@ == "<param name=\""@,
            t == line@.skip(lo as int),
            first_solid(line@, 0) == lo,
            lo + open.len() <= n == chars.len(),
            k <= open.len(),
            forall|j: int| 0 <= j < k ==> chars@[lo + j] == open@[j],
        decreases open.len() - k,
    {
        if chars[lo + k] != open[k] {
            assert(t.take(open.len() as int)[k as int] == chars@[(lo + k) as int]);
            assert(t.take(open.len() as int) != open@);
            return None;
        }
        k += 1;
    }
    assert(t.take(open.len() as int) =~= open@);
    let start = lo + open.len();
    let ghost rest = t.skip(open.len() as int);
    assert(rest =~= line@.skip(start as int));
    let mut q = start;
    while q < n && chars[q] != '"'
        invariant
            chars@ == line@,
            n == chars.len(),
            start <= q <= n,
            rest == line@.skip(start as int),
            quote_from(rest, 0) == quote_from(rest, q - start),
        decreases n - q,
    {
        q += 1;
    }
    if q >= n {
        assert(quote_from(rest, q - start) == rest.len());
        return None;
    }
    assert(quote_from(rest, q - start) == q - start);
    let name = substring(&chars, start, q);
    assert(rest.take(q - start) =~= name@);
    Some(name)
}

/// The parameter names `docs` tag, in order.
pub fn param_tags(docs: &Vec<String>) -> (r: Vec<String>)
    ensures
        views(r@) == param_tags_spec(views(docs@)),
{
    let mut out: Vec<String> = Vec::new();
    let mut k: usize = 0;
    while k < docs.len()
        invariant
            k <= docs.len(),
            views(out@) == param_tags_spec(views(docs@).take(k as int)),
        decreases docs.len() - k,
    {
        let ghost pre = views(docs@).take(k + 1);
        assert(pre.drop_last() =~= views(docs@).take(k as int));
        assert(pre.last() == docs@[k as int]@);
        let ghost before = views(out@);
        match param_tag(docs[k].as_str()) {
            Some(name) => {
                out.push(name);
                assert(views(out@) =~= before.push(pre.last()).take(before.len() as int).push(
                    views(out@).last(),
                ));
            },
            None => {},
        }
        k += 1;
    }
    assert(views(docs@).take(docs.len() as int) =~= views(docs@));
    out
}

/// ASCII letter or digit.
pub open spec fn is_ascii_alnum(c: char) -> bool {
    ('a' <= c && c <= 'z') || ('A' <= c && c <= 'Z') || ('0' <= c && c <= '9')
}

/// ASCII lowercase of `c`.
pub open spec fn ascii_lower(c: char) -> char {
    if 'A' <= c && c <= 'Z' {
        ((c as u32) + 32) as char
    } else {
        c
    }
}

/// A character that may not frame a whole word.
pub open spec fn word_char(c: char) -> bool {
    is_ascii_alnum(c) || c == '_'
}

/// The first index at or after `i` where `needle` occurs in `h`.
pub open spec fn occurrence_from(h: Seq<char>, needle: Seq<char>, i: int) -> Option<int>
    decreases h.len() + 1 - i,
{
    if i < 0 || i + needle.len() > h.len() {
        None
    } else if occurs_at(h, needle, i) {
        Some(i)
    } else {
        occurrence_from(h, needle, i + 1)
    }
}

/// The whole-word search from index `start`: each occurrence in turn is
/// accepted when no word character touches it, and the search resumes
/// after a rejected occurrence.
pub open spec fn word_from(h: Seq<char>, needle: Seq<char>, start: int) -> bool
    decreases h.len() - start,
{
    if needle.len() == 0 {
        false
    } else {
        match occurrence_from(h, needle, start) {
            None => false,
            Some(abs) => {
                let after = abs + needle.len();
                let before_ok = abs == 0 || !word_char(h[abs - 1]);
                let after_ok = after >= h.len() || !word_char(h[after]);
                if before_ok && after_ok {
                    true
                } else if start <= abs && after <= h.len() {
                    word_from(h, needle, after)
                } else {
                    false
                }
            },
        }
    }
}

/// `needle` occurs in the ASCII-lowercased `haystack` as a whole word.
pub open spec fn contains_word_spec(haystack: Seq<char>, needle: Seq<char>) -> bool {
    word_from(haystack.map_values(|c: char| ascii_lower(c)), needle, 0)
}

/// `needle` stands in `h` at `p` as a whole word: no word character
/// touches it on either side.
pub open spec fn word_at(h: Seq<char>, needle: Seq<char>, p: int) -> bool {
    &&& occurs_at(h, needle, p)
    &&& (p == 0 || !word_char(h[p - 1]))
    &&& (p + needle.len() >= h.len() || !word_char(h[p + needle.len()]))
}

/// Every character of `s` is a word character.
pub open spec fn all_word_chars(s: Seq<char>) -> bool {
    forall|k: int| 0 <= k < s.len() ==> #[trigger] word_char(s[k])
}

proof fn lemma_no_occurrence_before(h: Seq<char>, needle: Seq<char>, i: int, p: int)
    requires
        0 <= i <= p,
        occurs_at(h, needle, p),
    ensures
        occurrence_from(h, needle, i) matches Some(j) && j <= p,
    decreases p - i,
{
    if !occurs_at(h, needle, i) {
        lemma_no_occurrence_before(h, needle, i + 1, p);
    }
}

/// For a needle of word characters, the whole-word search from `start`
/// succeeds exactly when the needle stands somewhere from `start` on as a
/// whole word: the occurrences it skips after a rejected one overlap that
/// one, so a word character touches them too.
pub proof fn lemma_word_from_exists(h: Seq<char>, needle: Seq<char>, start: int)
    requires
        needle.len() > 0,
        0 <= start,
        all_word_chars(needle),
    ensures
        word_from(h, needle, start) <==> exists|p: int| start <= p && #[trigger] word_at(h, needle, p),
    decreases h.len() - start,
{
    lemma_occurrence_bounds(h, needle, start);
    match occurrence_from(h, needle, start) {
        None => {
            if exists|p: int| start <= p && #[trigger] word_at(h, needle, p) {
                let p = choose|p: int| start <= p && #[trigger] word_at(h, needle, p);
                lemma_no_occurrence_before(h, needle, start, p);
            }
        },
        Some(abs) => {
            let n = needle.len();
            let after = abs + n;
            let before_ok = abs == 0 || !word_char(h[abs - 1]);
            let after_ok = after >= h.len() || !word_char(h[after]);
            if before_ok && after_ok {
                assert(word_at(h, needle, abs));
            } else {
                lemma_word_from_exists(h, needle, after);
                if exists|p: int| start <= p && #[trigger] word_at(h, needle, p) {
                    let p = choose|p: int| start <= p && #[trigger] word_at(h, needle, p);
                    lemma_no_occurrence_before(h, needle, start, p);
                    if p < after {
                        assert(p != abs);
                        assert(abs < p);
                        assert(h.subrange(abs, abs + n)[p - 1 - abs] == h[p - 1]);
                        assert(word_char(needle[p - 1 - abs]));
                        assert(false);
                    }
                    assert(word_at(h, needle, p) && after <= p);
                }
            }
        },
    }
}

/// `s` with its ASCII letters lowercased.
pub open spec fn ascii_lowered(s: Seq<char>) -> Seq<char> {
    s.map_values(|c: char| ascii_lower(c))
}

/// A whole-word match is a whole-word occurrence of the needle in the
/// lowercased text, for a needle of word characters.
pub proof fn lemma_contains_word_exists(haystack: Seq<char>, needle: Seq<char>)
    requires
        needle.len() > 0,
        all_word_chars(needle),
    ensures
        contains_word_spec(haystack, needle) <==> exists|p: int|
            #[trigger] word_at(ascii_lowered(haystack), needle, p),
{
    let h = ascii_lowered(haystack);
    lemma_word_from_exists(h, needle, 0);
    if exists|p: int| #[trigger] word_at(h, needle, p) {
        let p = choose|p: int| #[trigger] word_at(h, needle, p);
        assert(0 <= p);
    }
}

/// An occurrence found from index `i` lies at or after `i`, inside the
/// text, and really holds the needle.
pub proof fn lemma_occurrence_bounds(h: Seq<char>, needle: Seq<char>, i: int)
    ensures
        occurrence_from(h, needle, i) matches Some(j) ==> i <= j && j + needle.len() <= h.len() && occurs_at(
            h,
            needle,
            j,
        ),
    decreases h.len() + 1 - i,
{
    if i >= 0 && i + needle.len() <= h.len() && !occurs_at(h, needle, i) {
        lemma_occurrence_bounds(h, needle, i + 1);
    }
}

/// The ASCII lowercase of `c`; other characters are kept.
pub fn lower_ascii(c: char) -> (r: char)
    ensures
        r == ascii_lower(c),
{
    if 'A' <= c && c <= 'Z' {
        match c {
            'A' => 'a',
            'B' => 'b',
            'C' => 'c',
            'D' => 'd',
            'E' => 'e',
            'F' => 'f',
            'G' => 'g',
            'H' => 'h',
            'I' => 'i',
            'J' => 'j',
            'K' => 'k',
            'L' => 'l',
            'M' => 'm',
            'N' => 'n',
            'O' => 'o',
            'P' => 'p',
            'Q' => 'q',
            'R' => 'r',
            'S' => 's',
            'T' => 't',
            'U' => 'u',
            'V' => 'v',
            'W' => 'w',
            'X' => 'x',
            'Y' => 'y',
            _ => 'z',
        }
    } else {
        c
    }
}

fn is_word_char(c: char) -> (r: bool)
    ensures
        r == word_char(c),
{
    ('a' <= c && c <= 'z') || ('A' <= c && c <= 'Z') || ('0' <= c && c <= '9') || c == '_'
}

/// True when `pattern` occurs in `chars` at index `i`.
fn matches_at(chars: &Vec<char>, pattern: &Vec<char>, i: usize) -> (r: bool)
    ensures
        r == occurs_at(chars@, pattern@, i as int),
{
    if i > chars.len() || pattern.len() > chars.len() - i {
        return false;
    }
    let mut k: usize = 0;
    while k < pattern.len()
        invariant
            i + pattern.len() <= chars.len(),
            k <= pattern.len(),
            forall|j: int| 0 <= j < k ==> chars@[i + j] == pattern@[j],
        decreases pattern.len() - k,
    {
        if chars[i + k] != pattern[k] {
            assert(chars@.subrange(i as int, i + pattern.len())[k as int] != pattern@[k as int]);
            return false;
        }
        k += 1;
    }
    assert(chars@.subrange(i as int, i + pattern.len()) =~= pattern@);
    true
}

/// The first index at or after `start` where `nd` occurs in `h`.
pub(crate) fn next_occurrence(h: &Vec<char>, nd: &Vec<char>, start: usize) -> (r: Option<usize>)
    requires
        nd@.len() > 0,
    ensures
        r matches Some(a) ==> occurrence_from(h@, nd@, start as int) == Some(a as int),
        r is None ==> occurrence_from(h@, nd@, start as int) is None,
{
    let mut abs = start;
    while abs <= h.len() && nd.len() <= h.len() - abs
        invariant
            nd@.len() > 0,
            start <= abs,
            occurrence_from(h@, nd@, start as int) == occurrence_from(h@, nd@, abs as int),
        decreases h.len() + 1 - abs,
    {
        if matches_at(h, nd, abs) {
            return Some(abs);
        }
        abs += 1;
    }
    None
}

/// True when `needle` occurs in the ASCII-lowercased `haystack` as a
/// whole word: no ASCII letter, digit or `_` touches either side.
pub fn contains_word(haystack: &str, needle: &str) -> (r: bool)
    requires
        needle@.len() > 0,
    ensures
        r == contains_word_spec(haystack@, needle@),
{
    let raw = chars_of(haystack);
    let nd = chars_of(needle);
    let mut h: Vec<char> = Vec::new();
    let mut k: usize = 0;
    while k < raw.len()
        invariant
            k <= raw.len(),
            h@ == raw@.take(k as int).map_values(|c: char| ascii_lower(c)),
        decreases raw.len() - k,
    {
        h.push(lower_ascii(raw[k]));
        assert(h@ =~= raw@.take(k + 1).map_values(|c: char| ascii_lower(c)));
        k += 1;
    }
    assert(raw@.take(raw.len() as int) =~= raw@);
    assert(h@ == haystack@.map_values(|c: char| ascii_lower(c)));
    let ghost hs = h@;
    let m = nd.len();
    let mut start: usize = 0;
    loop
        invariant
            hs == h@,
            nd@ == needle@,
            m == nd.len(),
            m > 0,
            start <= h.len() + m,
            contains_word_spec(haystack@, needle@) == word_from(hs, nd@, start as int),
        decreases h.len() + m - start,
    {
        let abs = match next_occurrence(&h, &nd, start) {
            Some(a) => a,
            None => {
                return false;
            },
        };
        proof {
            lemma_occurrence_bounds(hs, nd@, start as int);
        }
        let after = abs + m;
        let before_ok = abs == 0 || !is_word_char(h[abs - 1]);
        let after_ok = after >= h.len() || !is_word_char(h[after]);
        if before_ok && after_ok {
            return true;
        }
        start = after;
    }
}

/// A whole-name opening tag `<name` starts at index `p` of `line`: the
/// name is followed by whitespace, `>` or `/`.
pub open spec fn tag_at(line: Seq<char>, name: Seq<char>, p: int) -> bool {
    &&& 0 <= p
    &&& p + 1 + name.len() < line.len()
    &&& line[p] == '<'
    &&& line.subrange(p + 1, p + 1 + name.len()) == name
    &&& ends_name(line[p + 1 + name.len()])
}

/// The index just past the first `>` at or after `i`, or the line's end.
pub open spec fn close_from(line: Seq<char>, i: int) -> int
    decreases line.len() - i,
{
    if i < 0 || i >= line.len() {
        line.len() as int
    } else if line[i] == '>' {
        i + 1
    } else {
        close_from(line, i + 1)
    }
}

/// The text of the tag opening at `p`, through its closing `>`.
pub open spec fn tag_text(line: Seq<char>, name: Seq<char>, p: int) -> Seq<char> {
    line.subrange(p, close_from(line, p + 1 + name.len()))
}

/// The whole-name `<name` tags of `line` that open at or after `i`, in order.
pub open spec fn line_tags_from(line: Seq<char>, name: Seq<char>, i: int) -> Seq<Seq<char>>
    decreases line.len() - i,
{
    if i < 0 || i >= line.len() {
        Seq::empty()
    } else if tag_at(line, name, i) {
        seq![tag_text(line, name, i)] + line_tags_from(line, name, i + 1)
    } else {
        line_tags_from(line, name, i + 1)
    }
}

/// The whole-name `<name` tags of the doc lines `docs`, line by line.
pub open spec fn tag_slices_spec(docs: Seq<Seq<char>>, name: Seq<char>) -> Seq<Seq<char>>
    decreases docs.len(),
{
    if docs.len() == 0 {
        Seq::empty()
    } else {
        tag_slices_spec(docs.drop_last(), name) + line_tags_from(docs.last(), name, 0)
    }
}

proof fn lemma_close_bounds(line: Seq<char>, i: int)
    requires
        0 <= i,
    ensures
        i <= close_from(line, i) <= line.len() || (i > line.len() && close_from(line, i) == line.len()),
    decreases line.len() - i,
{
    if i < line.len() && line[i] != '>' {
        lemma_close_bounds(line, i + 1);
    }
}

/// True when a whole-name `<name` tag opens at `p` of `chars`.
fn tag_opens_at(chars: &Vec<char>, nm: &Vec<char>, p: usize) -> (r: bool)
    ensures
        r == tag_at(chars@, nm@, p as int),
{
    if p >= chars.len() || nm.len() >= chars.len() - p - 1 {
        return false;
    }
    if chars[p] != '<' {
        return false;
    }
    let mut k: usize = 0;
    while k < nm.len()
        invariant
            p + 1 + nm.len() < chars.len(),
            k <= nm.len(),
            forall|j: int| 0 <= j < k ==> chars@[p + 1 + j] == nm@[j],
        decreases nm.len() - k,
    {
        if chars[p + 1 + k] != nm[k] {
            assert(chars@.subrange(p + 1, p + 1 + nm.len())[k as int] == chars@[p + 1 + k]);
            return false;
        }
        k += 1;
    }
    assert(chars@.subrange(p + 1, p + 1 + nm.len()) =~= nm@);
    let c = chars[p + 1 + nm.len()];
    c == '>' || c == '/' || is_space_char(c)
}

/// The whole-name `<name` tags of one line, in order.
fn line_tags(chars: &Vec<char>, nm: &Vec<char>) -> (r: Vec<String>)
    ensures
        views(r@) == line_tags_from(chars@, nm@, 0),
{
    let mut out: Vec<String> = Vec::new();
    let n = chars.len();
    let mut i: usize = 0;
    while i < n
        invariant
            n == chars.len(),
            i <= n,
            views(out@) + line_tags_from(chars@, nm@, i as int) == line_tags_from(chars@, nm@, 0),
        decreases n - i,
    {
        let ghost before = views(out@);
        let ghost rest = line_tags_from(chars@, nm@, i + 1);
        if tag_opens_at(chars, nm, i) {
            let mut e = i + 1 + nm.len();
            while e < n && chars[e] != '>'
                invariant
                    n == chars.len(),
                    i + 1 + nm.len() <= e <= n,
                    close_from(chars@, i + 1 + nm.len()) == close_from(chars@, e as int),
                decreases n - e,
            {
                e += 1;
            }
            let end = if e < n {
                e + 1
            } else {
                n
            };
            assert(close_from(chars@, e as int) == end);
            let t = substring(chars, i, end);
            out.push(t);
            assert(views(out@) =~= before.push(tag_text(chars@, nm@, i as int)));
            assert(views(out@) + rest =~= before + (seq![tag_text(chars@, nm@, i as int)] + rest));
        } else {
            assert(views(out@) == before);
        }
        i += 1;
    }
    out
}

/// The whole-name `<name` tags of the doc lines `docs`: each tag that
/// opens with `<` and the whole `name` followed by whitespace, `>` or
/// `/`, from its `<` through its closing `>` (or the line's end), line
/// by line and left to right.
pub fn tag_slices(docs: &Vec<String>, name: &str) -> (r: Vec<String>)
    ensures
        views(r@) == tag_slices_spec(views(docs@), name@),
{
    let nm = chars_of(name);
    let mut out: Vec<String> = Vec::new();
    let mut k: usize = 0;
    while k < docs.len()
        invariant
            k <= docs.len(),
            nm@ == name@,
            views(out@) == tag_slices_spec(views(docs@).take(k as int), name@),
        decreases docs.len() - k,
    {
        let ghost pre = views(docs@).take(k + 1);
        assert(pre.drop_last() =~= views(docs@).take(k as int));
        let ghost before = views(out@);
        let chars = chars_of(docs[k].as_str());
        let mut found = line_tags(&chars, &nm);
        let ghost fv = views(found@);
        out.append(&mut found);
        assert(views(out@) =~= before + fv);
        k += 1;
    }
    assert(views(docs@).take(docs.len() as int) =~= views(docs@));
    out
}

/// The `cref` value of an `<exception ...>` tag: the text between
/// `cref="` and the next `"`, or nothing when the tag has none.
pub open spec fn cref_spec(tag: Seq<char>) -> Seq<char> {
    let key = "cref=\""@;
    match occurrence_from(tag, key, 0) {
        Some(p) => {
            let rest = tag.skip(p + key.len());
            rest.take(quote_from(rest, 0))
        },
        None => Seq::empty(),
    }
}

/// The `cref` value of a tag.
pub fn cref_of(tag: &str) -> (r: String)
    ensures
        r@ == cref_spec(tag@),
{
    let chars = chars_of(tag);
    let key = chars_of("cref=\"");
    proof {
        reveal_strlit("cref=\"");
    }
    let at = match next_occurrence(&chars, &key, 0) {
        Some(a) => a,
        None => {
            return String::new();
        },
    };
    proof {
        lemma_occurrence_bounds(chars@, key@, 0);
    }
    assert(at + key.len() <= chars.len());
    let start = at + key.len();
    let ghost rest = chars@.skip(start as int);
    let mut q = start;
    while q < chars.len() && chars[q] != '"'
        invariant
            start <= q <= chars.len(),
            rest == chars@.skip(start as int),
            quote_from(rest, 0) == quote_from(rest, q - start),
        decreases chars.len() - q,
    {
        q += 1;
    }
    if q < chars.len() {
        assert(quote_from(rest, q - start) == q - start);
    } else {
        assert(quote_from(rest, q - start) == rest.len());
    }
    let v = substring(&chars, start, q);
    assert(rest.take(q - start) =~= v@);
    v
}

} // verus!
