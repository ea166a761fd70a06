//! Doc-section helpers shared by the Rust documentation rules: header
//! recognition, section lookup and bodies, and the finding shape for an
//! item.
//!
//! Headers match on the whole trimmed line, ignoring ASCII case, so
//! `# Errors`, `# errors` and `  # ERRORS ` are the same header.
use crate::diagnostic::{Diagnostic, Severity};
use crate::rust::items::{kind_label, kind_label_spec, SourceItem};
use crate::text::{
    copy_string, eq_ignore_case, owned, str_eq_ignore_case, str_starts_with, trim, trim_spec, views,
};
use vstd::prelude::*;

verus! {

/// A header that introduces parameter documentation.
pub open spec fn is_arguments_header(t: Seq<char>) -> bool {
    eq_ignore_case(t, "# Arguments"@) || eq_ignore_case(t, "# Argument"@) || eq_ignore_case(t, "# Parameters"@)
        || eq_ignore_case(t, "# Parameter"@) || eq_ignore_case(t, "# Params"@) || eq_ignore_case(t, "# Param"@)
}

/// A header that introduces return-value documentation.
pub open spec fn is_returns_header(t: Seq<char>) -> bool {
    eq_ignore_case(t, "# Returns"@) || eq_ignore_case(t, "# Return"@)
}

/// The header that introduces error documentation.
pub open spec fn is_errors_header(t: Seq<char>) -> bool {
    eq_ignore_case(t, "# errors"@)
}

/// Which section a lookup searches for.
#[derive(Clone, Copy, PartialEq, Eq, Structural)]
pub enum Section {
    Arguments,
    Returns,
    Errors,
}

/// Doc line `line` is a header of `section`.
pub open spec fn is_header(line: Seq<char>, section: Section) -> bool {
    let t = trim_spec(line);
    match section {
        Section::Arguments => is_arguments_header(t),
        Section::Returns => is_returns_header(t),
        Section::Errors => is_errors_header(t),
    }
}

/// The first index at or after `i` whose line is a header of `section`.
pub open spec fn header_from(docs: Seq<Seq<char>>, i: int, section: Section) -> Option<int>
    decreases docs.len() - i,
{
    if i < 0 || i >= docs.len() {
        None
    } else if is_header(docs[i], section) {
        Some(i)
    } else {
        header_from(docs, i + 1, section)
    }
}

/// True when `line` is a header of `section`.
pub fn line_is_header(line: &str, section: Section) -> (r: bool)
    ensures
        r == is_header(line@, section),
{
    let t = trim(line);
    let s = t.as_str();
    match section {
        Section::Arguments => str_eq_ignore_case(s, "# Arguments") || str_eq_ignore_case(s, "# Argument")
            || str_eq_ignore_case(s, "# Parameters") || str_eq_ignore_case(s, "# Parameter")
            || str_eq_ignore_case(s, "# Params") || str_eq_ignore_case(s, "# Param"),
        Section::Returns => str_eq_ignore_case(s, "# Returns") || str_eq_ignore_case(s, "# Return"),
        Section::Errors => str_eq_ignore_case(s, "# errors"),
    }
}

/// The index of the first header of `section` in `docs`.
pub fn find_section(docs: &Vec<String>, section: Section) -> (r: Option<usize>)
    ensures
        r matches Some(k) ==> k < docs.len(),
        r matches Some(k) ==> header_from(views(docs@), 0, section) == Some(k as int),
        r is None ==> header_from(views(docs@), 0, section) is None,
{
    let n = docs.len();
    let mut i: usize = 0;
    while i < n
        invariant
            n == docs.len(),
            i <= n,
            header_from(views(docs@), 0, section) == header_from(views(docs@), i as int, section),
        decreases n - i,
    {
        assert(views(docs@)[i as int] == docs@[i as int]@);
        if line_is_header(docs[i].as_str(), section) {
            return Some(i);
        }
        i += 1;
    }
    None
}

/// The index of the `# Errors` header in `docs`.
pub fn find_errors_section(docs: &Vec<String>) -> (r: Option<usize>)
    ensures
        r matches Some(k) ==> k < docs.len(),
        r matches Some(k) ==> header_from(views(docs@), 0, Section::Errors) == Some(k as int),
        r is None ==> header_from(views(docs@), 0, Section::Errors) is None,
{
    find_section(docs, Section::Errors)
}

/// The index of a parameter-documentation header in `docs`: `# Arguments`,
/// `# Parameters` or `# Params`, singular or plural.
pub fn find_arguments_section(docs: &Vec<String>) -> (r: Option<usize>)
    ensures
        r matches Some(k) ==> k < docs.len(),
        r matches Some(k) ==> header_from(views(docs@), 0, Section::Arguments) == Some(k as int),
        r is None ==> header_from(views(docs@), 0, Section::Arguments) is None,
{
    find_section(docs, Section::Arguments)
}

/// A trimmed line that opens any `# ` section.
pub open spec fn opens_section(line: Seq<char>) -> bool {
    let t = trim_spec(line);
    t.len() >= 2 && t.take(2) == "# "@
}

/// The index of the first line at or after `i` that opens a section, or
/// the number of lines.
pub open spec fn section_end(docs: Seq<Seq<char>>, i: int) -> int
    decreases docs.len() - i,
{
    if i < 0 || i >= docs.len() {
        docs.len() as int
    } else if opens_section(docs[i]) {
        i
    } else {
        section_end(docs, i + 1)
    }
}

proof fn lemma_section_end_bounds(docs: Seq<Seq<char>>, i: int)
    requires
        0 <= i <= docs.len(),
    ensures
        i <= section_end(docs, i) <= docs.len(),
    decreases docs.len() - i,
{
    if i < docs.len() && !opens_section(docs[i]) {
        lemma_section_end_bounds(docs, i + 1);
    }
}

/// The body of the section whose header is at `start`: the lines after it
/// up to the next `# ` header or the end.
pub open spec fn section_body_spec(docs: Seq<Seq<char>>, start: int) -> Seq<Seq<char>> {
    docs.subrange(start + 1, section_end(docs, start + 1))
}

/// The lines of the section whose header is at `start`.
pub fn section_body(docs: &Vec<String>, start: usize) -> (r: Vec<String>)
    requires
        start < docs.len(),
    ensures
        views(r@) == section_body_spec(views(docs@), start as int),
{
    let ghost all = views(docs@);
    proof {
        lemma_section_end_bounds(all, start + 1);
    }
    let mut out: Vec<String> = Vec::new();
    let mut i = start + 1;
    while i < docs.len()
        invariant
            all == views(docs@),
            start + 1 <= i <= section_end(all, start + 1) <= docs.len(),
            section_end(all, start + 1) == section_end(all, i as int),
            views(out@) == all.subrange(start + 1, i as int),
        decreases docs.len() - i,
    {
        let t = trim(docs[i].as_str());
        assert(all[i as int] == docs@[i as int]@);
        if str_starts_with(t.as_str(), "# ") {
            proof {
                reveal_strlit("# ");
            }
            assert(opens_section(all[i as int]));
            return out;
        }
        proof {
            reveal_strlit("# ");
        }
        assert(!opens_section(all[i as int]));
        let ghost before = views(out@);
        out.push(copy_string(&docs[i]));
        proof {
            assert(views(out@) =~= before.push(all[i as int]));
            lemma_section_end_bounds(all, i + 1);
            assert(views(out@) =~= all.subrange(start + 1, i + 1));
        }
        i += 1;
    }
    out
}

/// The view of an optional string.
pub open spec fn opt_view(o: Option<String>) -> Option<Seq<char>> {
    match o {
        Some(s) => Some(s@),
        None => None,
    }
}

/// A copy of an optional string.
pub fn copy_opt(o: &Option<String>) -> (r: Option<String>)
    ensures
        opt_view(r) == opt_view(*o),
{
    match o {
        Some(s) => Some(copy_string(s)),
        None => None,
    }
}

/// `d` reports on `item` with this code, severity, title and message.
pub open spec fn item_finding(
    d: Diagnostic,
    item: SourceItem,
    code: Seq<char>,
    severity: Severity,
    title: Option<Seq<char>>,
    message: Seq<char>,
) -> bool {
    &&& d.code@ == code
    &&& d.severity == severity
    &&& opt_view(d.title) == title
    &&& d.message@ == message
    &&& d.line == item.start_line
    &&& d.item_kind@ == kind_label_spec(item.kind)
    &&& opt_view(d.item_name) == opt_view(item.name)
}

/// The finding on `item` with the given code, severity, title and message.
pub fn item_diagnostic(
    item: &SourceItem,
    code: &'static str,
    severity: Severity,
    title: Option<&str>,
    message: String,
) -> (r: Diagnostic)
    ensures
        item_finding(
            r,
            *item,
            code@,
            severity,
            match title {
                Some(t) => Some(t@),
                None => None,
            },
            message@,
        ),
{
    Diagnostic {
        severity,
        code,
        title: match title {
            Some(t) => Some(owned(t)),
            None => None,
        },
        message,
        line: item.start_line,
        item_kind: kind_label(item.kind),
        item_name: copy_opt(&item.name),
    }
}

} // verus!
