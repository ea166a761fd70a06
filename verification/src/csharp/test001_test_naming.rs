//! `TEST001`: a test method uses a discouraged name: the bare `test`,
//! a `test_` or `case_` prefix, or `test` followed only by digits, in any
//! ASCII case.
use crate::codes::CODE_TEST_NAMING;
use crate::csharp::declarations::{decl_diagnostic, decl_finding, Declaration};
use crate::csharp::doc_tags::ascii_lower;
use crate::diagnostic::{Diagnostic, Severity};
use crate::text::{chars_of, owned, push_str};
use vstd::prelude::*;

verus! {

/// `name` with its ASCII letters lowercased.
pub open spec fn lowered(name: Seq<char>) -> Seq<char> {
    name.map_values(|c: char| ascii_lower(c))
}

/// `s` starts with `prefix`.
pub open spec fn starts_with(s: Seq<char>, prefix: Seq<char>) -> bool {
    prefix.len() <= s.len() && s.take(prefix.len() as int) == prefix
}

/// A test name in a discouraged pattern.
pub open spec fn bad_test_name(name: Seq<char>) -> bool {
    let lower = lowered(name);
    ||| lower == "test"@
    ||| starts_with(lower, "test_"@)
    ||| starts_with(lower, "case_"@)
    ||| (starts_with(lower, "test"@) && lower.len() > 4 && forall|i: int|
        4 <= i < lower.len() ==> '0' <= #[trigger] lower[i] <= '9')
}

/// TEST001 applies to `decl`.
pub open spec fn fires(decl: Declaration) -> bool {
    &&& decl.test_marked
    &&& decl.name matches Some(n) && bad_test_name(n@)
}

/// The TEST001 message for the test `name`.
pub open spec fn message(name: Seq<char>) -> Seq<char> {
    "test method `"@ + name
        + "` uses a discouraged naming pattern.\n\nWhy: Behavioral names help readers understand a test's claim without opening its body.\n\nSuggestions:\n- Rename it to describe the subject and expected behavior, adding a condition only when it matters.\n- Use `subject_should_expectation[_when_condition]` in the project's casing style."@
}

/// `d` is the TEST001 finding on `decl`.
pub open spec fn expected(d: Diagnostic, decl: Declaration) -> bool {
    decl.name matches Some(n) && decl_finding(
        d,
        decl,
        CODE_TEST_NAMING@,
        Severity::Warning,
        "discouraged test name"@,
        message(n@),
    )
}

/// True when `chars` starts with `prefix`.
fn has_prefix(chars: &Vec<char>, prefix: &str) -> (r: bool)
    ensures
        r == starts_with(chars@, prefix@),
{
    let p = chars_of(prefix);
    if p.len() > chars.len() {
        return false;
    }
    let mut k: usize = 0;
    while k < p.len()
        invariant
            p@ == prefix@,
            p.len() <= chars.len(),
            k <= p.len(),
            forall|j: int| 0 <= j < k ==> chars@[j] == p@[j],
        decreases p.len() - k,
    {
        if chars[k] != p[k] {
            assert(chars@.take(p.len() as int)[k as int] != p@[k as int]);
            return false;
        }
        k += 1;
    }
    assert(chars@.take(p.len() as int) =~= p@);
    true
}

/// True when `name` is a test name in a discouraged pattern.
pub fn is_bad_test_name(name: &str) -> (r: bool)
    ensures
        r == bad_test_name(name@),
{
    let raw = chars_of(name);
    let mut lower: Vec<char> = Vec::new();
    let mut k: usize = 0;
    while k < raw.len()
        invariant
            k <= raw.len(),
            lower@ == raw@.take(k as int).map_values(|c: char| ascii_lower(c)),
        decreases raw.len() - k,
    {
        let c = raw[k];
        let l = if 'A' <= c && c <= 'Z' {
            crate::csharp::doc_tags::lower_ascii(c)
        } else {
            c
        };
        lower.push(l);
        assert(lower@ =~= raw@.take(k + 1).map_values(|c: char| ascii_lower(c)));
        k += 1;
    }
    assert(raw@.take(raw.len() as int) =~= raw@);
    assert(lower@ == lowered(name@));
    proof {
        reveal_strlit("test");
    }
    let is_test = lower.len() == 4 && has_prefix(&lower, "test");
    assert(is_test == (lower@ == "test"@)) by {
        if lower@ == "test"@ {
            assert(lower@.take(4) =~= lower@);
        }
        if is_test {
            assert(lower@ =~= "test"@);
        }
    }
    if is_test {
        return true;
    }
    if has_prefix(&lower, "test_") || has_prefix(&lower, "case_") {
        return true;
    }
    if !has_prefix(&lower, "test") || lower.len() <= 4 {
        return false;
    }
    let mut i: usize = 4;
    while i < lower.len()
        invariant
            4 <= i <= lower.len(),
            lower@ == lowered(name@),
            lower@ != "test"@,
            !starts_with(lower@, "test_"@),
            !starts_with(lower@, "case_"@),
            starts_with(lower@, "test"@),
            forall|j: int| 4 <= j < i ==> '0' <= #[trigger] lower@[j] <= '9',
        decreases lower.len() - i,
    {
        if !('0' <= lower[i] && lower[i] <= '9') {
            return false;
        }
        i += 1;
    }
    true
}

/// Report a test method with a discouraged name.
///
/// # Returns
///
/// One TEST001 warning for a discouraged name, else nothing.
pub fn check(decl: &Declaration) -> (r: Vec<Diagnostic>)
    ensures
        r.len() == (if fires(*decl) {
            1int
        } else {
            0int
        }),
        r.len() == 1 ==> expected(r@[0], *decl),
{
    let mut out: Vec<Diagnostic> = Vec::new();
    if !decl.test_marked {
        return out;
    }
    let name = match &decl.name {
        Some(n) => n,
        None => return out,
    };
    if !is_bad_test_name(name.as_str()) {
        return out;
    }
    let mut message = owned("test method `");
    push_str(&mut message, name.as_str());
    push_str(
        &mut message,
        "` uses a discouraged naming pattern.\n\nWhy: Behavioral names help readers understand a test's claim without opening its body.\n\nSuggestions:\n- Rename it to describe the subject and expected behavior, adding a condition only when it matters.\n- Use `subject_should_expectation[_when_condition]` in the project's casing style.",
    );
    out.push(decl_diagnostic(decl, CODE_TEST_NAMING, Severity::Warning, "discouraged test name", message));
    out
}

} // verus!
