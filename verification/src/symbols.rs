//! Symbol-policy text hints: regular expressions searched over a file's
//! original text, either whole or bounded by its comments.
//!
//! Each applicable rule searches its ranges in turn; the first rule that
//! matches at a byte offset owns that offset, and the hints come out in
//! offset order. Comment spans are supplied by the caller, which knows how
//! to recognize comments for the file's language.
use crate::diagnostic::{Diagnostic, Severity};
use crate::text::{copy_string, eq_ignore_case, owned, push_str, str_eq, str_eq_ignore_case, views};
use vstd::prelude::*;
use vstd::string::StringSliceAdditionalSpecFns;

verus! {

/// Where a text rule searches relative to comments.
#[derive(Debug, Clone, Copy, PartialEq, Eq, Structural)]
pub enum RegexComments {
    /// The whole text.
    Include,
    /// Only inside comments.
    Only,
    /// Only outside comments.
    Exclude,
}

/// One text-regex hint rule.
pub struct TextRegexRule {
    /// The regular expression, in the `regex` crate's syntax.
    pub pattern: String,
    pub comments: RegexComments,
    /// The file extensions the rule applies to, without the dot.
    pub extensions: Vec<String>,
    pub code: &'static str,
    pub severity: Severity,
    pub title: Option<String>,
    pub message: Option<String>,
}

/// What the symbol policies observed in one file: configuration warnings
/// and hints in offset order.
pub struct SymbolObservations {
    pub warnings: Vec<String>,
    pub hints: Vec<Diagnostic>,
}

/// The matches of `pattern` in the byte range `from..to` of `source`:
/// each match's start and end relative to `from`, and its text; `None`
/// when the pattern does not compile or the range is not a piece of the
/// text.
pub uninterp spec fn regex_search(pattern: Seq<char>, source: Seq<char>, from: usize, to: usize) -> Option<
    Seq<(usize, usize, Seq<char>)>,
>;

/// The plain values of a list of matches.
pub open spec fn match_views(r: Option<Vec<(usize, usize, String)>>) -> Option<Seq<(usize, usize, Seq<char>)>> {
    match r {
        Some(v) => Some(v@.map_values(|m: (usize, usize, String)| (m.0, m.1, m.2@))),
        None => None,
    }
}

/// Compile `pattern` with `regex::Regex::new` and list the leftmost-first,
/// non-overlapping matches of `Regex::find_iter` in `source[from..to]`
/// (taken with `str::get`). The contract names the result, and states what
/// the documentation gives: the range was a piece of the text, and every
/// match lies inside it.
#[verifier::external_body]
fn regex_find_in(pattern: &str, source: &str, from: usize, to: usize) -> (r: Option<Vec<(usize, usize, String)>>)
    ensures
        match_views(r) == regex_search(pattern@, source@, from, to),
        r matches Some(v) ==> from <= to && forall|k: int| 0 <= k < v.len() ==> (#[trigger] v@[k]).0 <= v@[k].1 <= to - from,
{
    let re = regex::Regex::new(pattern).ok()?;
    let text = source.get(from..to)?;
    Some(re.find_iter(text).map(|m| (m.start(), m.end(), m.as_str().to_string())).collect())
}

/// The rule applies to files with extension `ext`: one of its extensions
/// equals `ext` up to ASCII case.
pub open spec fn applies(rule: TextRegexRule, ext: Seq<char>) -> bool {
    exists|k: int| 0 <= k < rule.extensions.len() && eq_ignore_case(#[trigger] rule.extensions@[k]@, ext)
}

/// True when `list` holds `ext` up to ASCII case.
fn lists_extension(list: &Vec<String>, ext: &str) -> (r: bool)
    ensures
        r == exists|k: int| 0 <= k < list.len() && eq_ignore_case(#[trigger] list@[k]@, ext@),
{
    let mut i: usize = 0;
    while i < list.len()
        invariant
            i <= list.len(),
            forall|k: int| 0 <= k < i ==> !eq_ignore_case(#[trigger] list@[k]@, ext@),
        decreases list.len() - i,
    {
        if str_eq_ignore_case(list[i].as_str(), ext) {
            return true;
        }
        i += 1;
    }
    false
}

/// Some rule applicable to `ext` needs comment boundaries.
pub open spec fn needs_comments(rules: Seq<TextRegexRule>, ext: Seq<char>) -> bool {
    exists|k: int| 0 <= k < rules.len() && applies(#[trigger] rules[k], ext) && rules[k].comments != RegexComments::Include
}

/// The gaps between the comment spans `c`, walked in order, and the end of
/// the last one.
pub open spec fn gaps_fold(c: Seq<(usize, usize)>) -> (Seq<(usize, usize)>, usize)
    decreases c.len(),
{
    if c.len() == 0 {
        (Seq::empty(), 0)
    } else {
        let (g, st) = gaps_fold(c.drop_last());
        let r = c.last();
        (if st < r.0 {
            g.push((st, r.0))
        } else {
            g
        }, r.1)
    }
}

/// The ranges outside the comment spans `c` of a text of `len` bytes.
pub open spec fn outside_ranges(c: Seq<(usize, usize)>, len: usize) -> Seq<(usize, usize)> {
    let (g, st) = gaps_fold(c);
    if st < len || c.len() == 0 {
        g.push((st, len))
    } else {
        g
    }
}

/// The byte ranges a rule with comment mode `mode` searches.
pub open spec fn search_ranges(mode: RegexComments, comments: Option<Seq<(usize, usize)>>, len: usize) -> Seq<
    (usize, usize),
> {
    match mode {
        RegexComments::Include => seq![(0usize, len)],
        RegexComments::Only => match comments {
            Some(c) => c,
            None => Seq::empty(),
        },
        RegexComments::Exclude => match comments {
            Some(c) => outside_ranges(c, len),
            None => Seq::empty(),
        },
    }
}

/// A match found by rule `k`: its absolute start, the rule, and its text.
pub type Event = (usize, usize, Seq<char>);

/// The matches of rule `k`'s pattern in one range, made absolute.
pub open spec fn range_matches(pattern: Seq<char>, k: usize, source: Seq<char>, range: (usize, usize)) -> Seq<Event> {
    match regex_search(pattern, source, range.0, range.1) {
        Some(ms) => ms.map_values(|m: (usize, usize, Seq<char>)| ((range.0 + m.0) as usize, k, m.2)),
        None => Seq::empty(),
    }
}

/// The matches of rule `k`'s pattern in the first `m` of `ranges`.
pub open spec fn ranges_matches(pattern: Seq<char>, k: usize, source: Seq<char>, ranges: Seq<(usize, usize)>, m: int) -> Seq<
    Event,
>
    decreases m,
{
    if m <= 0 {
        Seq::empty()
    } else {
        ranges_matches(pattern, k, source, ranges, m - 1) + range_matches(pattern, k, source, ranges[m - 1])
    }
}

/// The matches of the first `n` rules that apply to `ext`, rule by rule,
/// in a text of `len` bytes.
pub open spec fn all_matches(
    rules: Seq<TextRegexRule>,
    ext: Seq<char>,
    source: Seq<char>,
    len: usize,
    comments: Option<Seq<(usize, usize)>>,
    n: int,
) -> Seq<Event>
    decreases n,
{
    if n <= 0 {
        Seq::empty()
    } else {
        let rule = rules[n - 1];
        all_matches(rules, ext, source, len, comments, n - 1) + if applies(rule, ext) {
            let ranges = search_ranges(rule.comments, comments, len);
            ranges_matches(rule.pattern@, (n - 1) as usize, source, ranges, ranges.len() as int)
        } else {
            Seq::empty()
        }
    }
}

/// The index of the first of `hits` starting at or after `s`.
pub open spec fn first_at_or_after(hits: Seq<Event>, s: usize) -> int
    decreases hits.len(),
{
    if hits.len() == 0 || hits[0].0 >= s {
        0
    } else {
        1 + first_at_or_after(hits.drop_first(), s)
    }
}

/// `hits` after meeting the match `e`: kept when no hit starts where it
/// does, in start order.
pub open spec fn hit_step(hits: Seq<Event>, e: Event) -> Seq<Event> {
    let p = first_at_or_after(hits, e.0);
    if p < hits.len() && hits[p].0 == e.0 {
        hits
    } else {
        hits.insert(p, e)
    }
}

/// `hits` after meeting each of `events` in turn.
pub open spec fn hits_from(hits: Seq<Event>, events: Seq<Event>) -> Seq<Event>
    decreases events.len(),
{
    if events.len() == 0 {
        hits
    } else {
        hit_step(hits_from(hits, events.drop_last()), events.last())
    }
}

proof fn lemma_hits_from_concat(h: Seq<Event>, a: Seq<Event>, b: Seq<Event>)
    ensures
        hits_from(h, a + b) == hits_from(hits_from(h, a), b),
    decreases b.len(),
{
    if b.len() == 0 {
        assert(a + b =~= a);
    } else {
        lemma_hits_from_concat(h, a, b.drop_last());
        assert((a + b).drop_last() =~= a + b.drop_last());
        assert((a + b).last() == b.last());
    }
}

/// The 1-based line of byte offset `s`: one more than the line feeds
/// before it.
pub open spec fn line_of(bytes: Seq<u8>, s: usize) -> int {
    1 + crate::rust::items::line_feeds(bytes.subrange(0, if s <= bytes.len() { s as int } else { bytes.len() as int })) as int
}

/// The views of an optional string.
pub open spec fn opt_str(o: Option<String>) -> Option<Seq<char>> {
    match o {
        Some(s) => Some(s@),
        None => None,
    }
}

/// `d` is rule `rule`'s hint on the text `name` at line `line`.
pub open spec fn observed(d: Diagnostic, rule: TextRegexRule, name: Seq<char>, line: int) -> bool {
    &&& opt_str(d.title) == opt_str(rule.title)
    &&& d.severity == rule.severity
    &&& d.code == rule.code
    &&& d.message@ == match rule.message {
        Some(m) => m@,
        None => Seq::empty(),
    }
    &&& d.line == line
    &&& d.item_kind@ == "text"@
    &&& opt_str(d.item_name) == Some(name)
}

/// The warning for comment-bounded rules when comments of `.ext` files
/// cannot be recognized.
pub open spec fn comments_warning(ext: Seq<char>) -> Seq<char> {
    "text regex rules with comments: exclude or only skipped for ."@ + ext
        + ": comments cannot be reliably identified; use comments: include to search all text"@
}

/// The plain values of a list of hits.
pub open spec fn hit_views(v: Seq<(usize, usize, String)>) -> Seq<Event> {
    v.map_values(|h: (usize, usize, String)| (h.0, h.1, h.2@))
}

/// The optional comment spans as plain values.
pub open spec fn opt_spans(c: Option<&Vec<(usize, usize)>>) -> Option<Seq<(usize, usize)>> {
    match c {
        Some(v) => Some(v@),
        None => None,
    }
}

/// The ranges outside the comment spans `c` of a text of `len` bytes.
fn outside(c: &Vec<(usize, usize)>, len: usize) -> (r: Vec<(usize, usize)>)
    ensures
        r@ == outside_ranges(c@, len),
{
    let mut gaps: Vec<(usize, usize)> = Vec::new();
    let mut start: usize = 0;
    let mut k: usize = 0;
    assert(c@.take(0) =~= Seq::<(usize, usize)>::empty());
    while k < c.len()
        invariant
            k <= c.len(),
            (gaps@, start) == gaps_fold(c@.take(k as int)),
        decreases c.len() - k,
    {
        assert(c@.take(k + 1).drop_last() =~= c@.take(k as int));
        assert(c@.take(k + 1).last() == c@[k as int]);
        let range = c[k];
        if start < range.0 {
            gaps.push((start, range.0));
        }
        start = range.1;
        k += 1;
    }
    assert(c@.take(k as int) =~= c@);
    if start < len || c.len() == 0 {
        gaps.push((start, len));
    }
    gaps
}

/// The byte ranges a rule with comment mode `mode` searches.
fn ranges_for(mode: RegexComments, comments: Option<&Vec<(usize, usize)>>, len: usize) -> (r: Vec<(usize, usize)>)
    ensures
        r@ == search_ranges(mode, opt_spans(comments), len),
{
    match mode {
        RegexComments::Include => {
            let mut v: Vec<(usize, usize)> = Vec::new();
            v.push((0usize, len));
            assert(v@ =~= seq![(0usize, len)]);
            assert(search_ranges(mode, opt_spans(comments), len) == seq![(0usize, len)]);
            v
        },
        RegexComments::Only => match comments {
            Some(c) => {
                let mut v: Vec<(usize, usize)> = Vec::new();
                let mut k: usize = 0;
                while k < c.len()
                    invariant
                        k <= c.len(),
                        v@ == c@.take(k as int),
                    decreases c.len() - k,
                {
                    v.push(c[k]);
                    assert(v@ =~= c@.take(k + 1));
                    k += 1;
                }
                assert(c@.take(k as int) =~= c@);
                v
            },
            None => Vec::new(),
        },
        RegexComments::Exclude => match comments {
            Some(c) => outside(c, len),
            None => Vec::new(),
        },
    }
}

/// File the match `e` among `hits`: kept, in start order, when no hit
/// starts where it does.
fn add_hit(hits: &mut Vec<(usize, usize, String)>, e: (usize, usize, String))
    ensures
        hit_views(final(hits)@) == hit_step(hit_views(old(hits)@), (e.0, e.1, e.2@)),
        forall|i: int|
            0 <= i < final(hits).len() ==> (#[trigger] final(hits)@[i]).1 == e.1 || old(hits)@.contains(final(hits)@[i]),
{
    let ghost hv = hit_views(hits@);
    let mut p: usize = 0;
    assert(hv.skip(0) =~= hv);
    while p < hits.len() && hits[p].0 < e.0
        invariant
            p <= hits.len(),
            hv == hit_views(hits@),
            first_at_or_after(hv, e.0) == p + first_at_or_after(hv.skip(p as int), e.0),
        decreases hits.len() - p,
    {
        assert(hv.skip(p as int)[0] == hv[p as int]);
        assert(hv.skip(p as int).drop_first() =~= hv.skip(p + 1));
        p += 1;
    }
    proof {
        if p < hits.len() {
            assert(hv.skip(p as int)[0] == hv[p as int]);
        }
        assert(first_at_or_after(hv.skip(p as int), e.0) == 0);
    }
    if p < hits.len() && hits[p].0 == e.0 {
        return;
    }
    let ghost ev = (e.0, e.1, e.2@);
    let ghost o = hits@;
    hits.insert(p, e);
    assert(hit_views(hits@) =~= hv.insert(p as int, ev));
    assert forall|i: int| 0 <= i < hits.len() implies (#[trigger] hits@[i]).1 == e.1 || o.contains(hits@[i]) by {
        if i < p {
            assert(hits@[i] == o[i]);
        } else if i > p {
            assert(hits@[i] == o[i - 1]);
        }
    }
}

/// The 1-based line of byte offset `s` of `bytes`.
fn line_at(bytes: &[u8], s: usize) -> (r: usize)
    requires
        bytes@.len() < usize::MAX,
    ensures
        r == line_of(bytes@, s),
{
    let end = if s <= bytes.len() {
        s
    } else {
        bytes.len()
    };
    let mut breaks: usize = 0;
    let mut i: usize = 0;
    assert(bytes@.subrange(0, 0) =~= Seq::<u8>::empty());
    while i < end
        invariant
            end <= bytes@.len() < usize::MAX,
            i <= end,
            breaks <= i,
            breaks == crate::rust::items::line_feeds(bytes@.subrange(0, i as int)),
        decreases end - i,
    {
        assert(bytes@.subrange(0, i + 1).drop_last() =~= bytes@.subrange(0, i as int));
        if bytes[i] == 10 {
            breaks += 1;
        }
        i += 1;
    }
    breaks + 1
}

/// The hint rule `rule` makes on the text `name` at line `line`.
fn observation(rule: &TextRegexRule, name: String, line: usize) -> (r: Diagnostic)
    ensures
        observed(r, *rule, name@, line as int),
{
    let title = match &rule.title {
        Some(t) => Some(copy_string(t)),
        None => None,
    };
    let message = match &rule.message {
        Some(m) => copy_string(m),
        None => String::new(),
    };
    Diagnostic {
        severity: rule.severity,
        code: rule.code,
        title,
        message,
        line,
        item_kind: owned("text"),
        item_name: Some(name),
    }
}

/// Hints of the text-regex rules that apply to files with extension `ext`,
/// searched in `source`: whole, inside the `comment_spans`, or outside
/// them, as each rule says. The first rule to match at a byte offset owns
/// it; hints come out in offset order. Comment-bounded rules are skipped,
/// with one warning, when the comments could not be recognized
/// (`comment_spans` is `None`).
///
/// # Returns
///
/// The warnings and the hints.
pub fn text_regex_hints(
    source: &str,
    ext: &str,
    comment_spans: Option<&Vec<(usize, usize)>>,
    rules: &Vec<TextRegexRule>,
) -> (r: SymbolObservations)
    requires
        source.spec_bytes().len() < usize::MAX,
    ensures
        views(r.warnings@) == if needs_comments(rules@, ext@) && comment_spans is None {
            seq![comments_warning(ext@)]
        } else {
            Seq::empty()
        },
        ({
            let hits = hits_from(
                Seq::empty(),
                all_matches(
                    rules@,
                    ext@,
                    source@,
                    source.spec_bytes().len() as usize,
                    opt_spans(comment_spans),
                    rules.len() as int,
                ),
            );
            &&& r.hints.len() == hits.len()
            &&& forall|i: int|
                0 <= i < hits.len() ==> observed(
                    #[trigger] r.hints@[i],
                    rules@[hits[i].1 as int],
                    hits[i].2,
                    line_of(source.spec_bytes(), hits[i].0),
                )
        }),
{
    let bytes = source.as_bytes();
    let len = bytes.len();
    let ghost cs = opt_spans(comment_spans);
    let mut warnings: Vec<String> = Vec::new();
    let mut needs = false;
    let mut k: usize = 0;
    while k < rules.len()
        invariant
            k <= rules.len(),
            needs == exists|j: int| 0 <= j < k && applies(#[trigger] rules@[j], ext@) && rules@[j].comments != RegexComments::Include,
        decreases rules.len() - k,
    {
        if lists_extension(&rules[k].extensions, ext) && rules[k].comments != RegexComments::Include {
            needs = true;
            assert(applies(rules@[k as int], ext@));
        }
        k += 1;
    }
    if needs && comment_spans.is_none() {
        let mut w = owned("text regex rules with comments: exclude or only skipped for .");
        push_str(&mut w, ext);
        push_str(&mut w, ": comments cannot be reliably identified; use comments: include to search all text");
        warnings.push(w);
        assert(views(warnings@) =~= seq![comments_warning(ext@)]);
    } else {
        assert(views(warnings@) =~= Seq::empty());
    }
    let mut hits: Vec<(usize, usize, String)> = Vec::new();
    let mut k: usize = 0;
    assert(hit_views(hits@) =~= Seq::empty());
    while k < rules.len()
        invariant
            k <= rules.len(),
            len == source.spec_bytes().len(),
            cs == opt_spans(comment_spans),
            hit_views(hits@) == hits_from(Seq::empty(), all_matches(rules@, ext@, source@, len, cs, k as int)),
            forall|i: int| 0 <= i < hits.len() ==> (#[trigger] hits@[i]).1 < k,
        decreases rules.len() - k,
    {
        let rule = &rules[k];
        let ghost before = all_matches(rules@, ext@, source@, len, cs, k as int);
        if lists_extension(&rule.extensions, ext) {
            let ranges = ranges_for(rule.comments, comment_spans, len);
            let mut m: usize = 0;
            while m < ranges.len()
                invariant
                    m <= ranges.len(),
                    k < rules.len(),
                    rule == &rules@[k as int],
                    ranges@ == search_ranges(rule.comments, cs, len),
                    hit_views(hits@) == hits_from(
                        Seq::empty(),
                        before + ranges_matches(rule.pattern@, k, source@, ranges@, m as int),
                    ),
                    forall|i: int| 0 <= i < hits.len() ==> (#[trigger] hits@[i]).1 <= k,
                decreases ranges.len() - m,
            {
                let range = ranges[m];
                let ghost prior = before + ranges_matches(rule.pattern@, k, source@, ranges@, m as int);
                let ghost here = range_matches(rule.pattern@, k, source@, range);
                proof {
                    lemma_hits_from_concat(Seq::empty(), prior, here);
                    assert(prior + here =~= before + ranges_matches(rule.pattern@, k, source@, ranges@, m + 1));
                }
                match regex_find_in(rule.pattern.as_str(), source, range.0, range.1) {
                    Some(found) => {
                        let mut j: usize = 0;
                        let ghost base = hit_views(hits@);
                        assert(here.take(0) =~= Seq::<Event>::empty());
                        while j < found.len()
                            invariant
                                j <= found.len(),
                                k < rules.len(),
                                base == hits_from(Seq::empty(), prior),
                                match_views(Some(found)) == regex_search(rule.pattern@, source@, range.0, range.1),
                                range.0 <= range.1,
                                forall|q: int| 0 <= q < found.len() ==> (#[trigger] found@[q]).0 <= found@[q].1 <= range.1 - range.0,
                                here == range_matches(rule.pattern@, k, source@, range),
                                hit_views(hits@) == hits_from(base, here.take(j as int)),
                                forall|i: int| 0 <= i < hits.len() ==> (#[trigger] hits@[i]).1 <= k,
                            decreases found.len() - j,
                        {
                            let (s, _, t) = (found[j].0, found[j].1, copy_string(&found[j].2));
                            assert(found@[j as int].0 <= range.1 - range.0);
                            let e = (range.0 + s, k, t);
                            proof {
                                assert(here.take(j + 1).drop_last() =~= here.take(j as int));
                                assert(here.take(j + 1).last() == (e.0, e.1, e.2@));
                            }
                            let ghost hb = hits@;
                            add_hit(&mut hits, e);
                            proof {
                                assert forall|i: int| 0 <= i < hits.len() implies (#[trigger] hits@[i]).1 <= k by {
                                    if hits@[i].1 != k {
                                        let q = choose|q: int| 0 <= q < hb.len() && hb[q] == hits@[i];
                                        assert(hb[q].1 <= k);
                                    }
                                }
                            }
                            j += 1;
                        }
                        assert(here.take(j as int) =~= here);
                    },
                    None => {
                        assert(here =~= Seq::<Event>::empty());
                        assert(prior + here =~= prior);
                    },
                }
                m += 1;
            }
            assert(all_matches(rules@, ext@, source@, len, cs, k + 1) =~= before + ranges_matches(
                rule.pattern@,
                k,
                source@,
                ranges@,
                ranges.len() as int,
            ));
        } else {
            assert(all_matches(rules@, ext@, source@, len, cs, k + 1) =~= before);
        }
        k += 1;
    }
    let mut out: Vec<Diagnostic> = Vec::new();
    let mut i: usize = 0;
    while i < hits.len()
        invariant
            i <= hits.len(),
            bytes@ == source.spec_bytes(),
            bytes@.len() < usize::MAX,
            out.len() == i,
            forall|q: int| 0 <= q < hits.len() ==> (#[trigger] hits@[q]).1 < rules.len(),
            forall|q: int|
                0 <= q < i ==> observed(
                    #[trigger] out@[q],
                    rules@[hits@[q].1 as int],
                    hits@[q].2@,
                    line_of(source.spec_bytes(), hits@[q].0),
                ),
        decreases hits.len() - i,
    {
        let line = line_at(bytes, hits[i].0);
        let d = observation(&rules[hits[i].1], copy_string(&hits[i].2), line);
        out.push(d);
        i += 1;
    }
    SymbolObservations { warnings, hints: out }
}

} // verus!
