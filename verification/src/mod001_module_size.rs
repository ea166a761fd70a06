//! `MOD001`: a source file over its line budget.
//!
//! Files of any language count every physical line, blanks, comments and
//! tests included; the Rust rule supplies its own test-aware count to
//! [`diagnostic`]. The warning encourages cohesive splits rather than
//! mechanical line reduction.
use crate::codes::CODE_MODULE_SIZE;
use crate::diagnostic::{Diagnostic, Severity};
use crate::text::{chars_of, decimal, decimal_string, owned, push_str};
use vstd::prelude::*;

verus! {

/// The number of `\n` characters in `s`.
pub open spec fn newlines(s: Seq<char>) -> nat
    decreases s.len(),
{
    if s.len() == 0 {
        0
    } else {
        newlines(s.drop_last()) + (if s.last() == '\n' {
            1nat
        } else {
            0nat
        })
    }
}

/// The physical lines of `s`, as `str::lines` splits them: a final line
/// without a newline counts, and a trailing newline opens no extra line.
pub open spec fn physical_lines(s: Seq<char>) -> nat {
    newlines(s) + (if s.len() > 0 && s.last() != '\n' {
        1nat
    } else {
        0nat
    })
}

/// The MOD001 message for a file of `lines` counted lines against the
/// budget `max_lines`, with `exclusions` naming what the count leaves out.
pub open spec fn message(lines: nat, max_lines: nat, exclusions: Seq<char>) -> Seq<char> {
    "file has "@ + decimal(lines) + " lines"@ + exclusions + ",\nover the "@ + decimal(max_lines)
        + "-line budget (module_size.max_lines).\n- Large files make readers search farther and keep more context in mind.\n- Split distinct responsibilities into focused, domain-named modules.\n  Keep closely related code together.\n- Keep a clear starting point for callers and readers. Consider keeping\n  main entry points and high-level orchestration together, with\n  implementation details in focused modules or types.\n- Preserve the intended interface without widening visibility or\n  adding forwarding wrappers just to centralize entry points.\n- Update module or type overview docs, where supported, to explain\n  responsibilities and direct readers to relevant entry points.\n- Do not split mechanically or remove useful documentation to meet\n  the line budget."@
}

/// `d` is the MOD001 warning for `lines` counted lines, reported at
/// `line`.
pub open spec fn finding(d: Diagnostic, lines: nat, line: nat, max_lines: nat, exclusions: Seq<char>) -> bool {
    &&& d.code@ == CODE_MODULE_SIZE@
    &&& d.severity == Severity::Warning
    &&& d.title is None
    &&& d.message@ == message(lines, max_lines, exclusions)
    &&& d.line == line
    &&& d.item_kind@ == "file"@
    &&& d.item_name is None
}

/// The shared MOD001 warning.
///
/// # Arguments
///
/// - `lines` - the counted lines of the file.
/// - `crossing_line` - the line the finding reports at.
/// - `max_lines` - the budget.
/// - `exclusions` - what the count leaves out, as the message words it.
pub fn diagnostic(lines: usize, crossing_line: usize, max_lines: usize, exclusions: &str) -> (r: Diagnostic)
    ensures
        finding(r, lines as nat, crossing_line as nat, max_lines as nat, exclusions@),
{
    let mut message = owned("file has ");
    push_str(&mut message, decimal_string(lines).as_str());
    push_str(&mut message, " lines");
    push_str(&mut message, exclusions);
    push_str(&mut message, ",\nover the ");
    push_str(&mut message, decimal_string(max_lines).as_str());
    push_str(
        &mut message,
        "-line budget (module_size.max_lines).\n- Large files make readers search farther and keep more context in mind.\n- Split distinct responsibilities into focused, domain-named modules.\n  Keep closely related code together.\n- Keep a clear starting point for callers and readers. Consider keeping\n  main entry points and high-level orchestration together, with\n  implementation details in focused modules or types.\n- Preserve the intended interface without widening visibility or\n  adding forwarding wrappers just to centralize entry points.\n- Update module or type overview docs, where supported, to explain\n  responsibilities and direct readers to relevant entry points.\n- Do not split mechanically or remove useful documentation to meet\n  the line budget.",
    );
    Diagnostic {
        severity: Severity::Warning,
        code: CODE_MODULE_SIZE,
        title: None,
        message,
        line: crossing_line,
        item_kind: owned("file"),
        item_name: None,
    }
}

/// A sequence holds at most as many newlines as characters.
proof fn lemma_newlines_bound(s: Seq<char>)
    ensures
        newlines(s) <= s.len(),
    decreases s.len(),
{
    if s.len() > 0 {
        lemma_newlines_bound(s.drop_last());
    }
}

/// The physical lines of `source`.
fn count_lines(source: &str) -> (r: usize)
    ensures
        r == physical_lines(source@),
{
    let chars = chars_of(source);
    let mut n: usize = 0;
    let mut i: usize = 0;
    while i < chars.len()
        invariant
            i <= chars.len(),
            n == newlines(chars@.take(i as int)),
            n <= i,
        decreases chars.len() - i,
    {
        assert(chars@.take(i + 1).drop_last() =~= chars@.take(i as int));
        if chars[i] == '\n' {
            n += 1;
        }
        i += 1;
    }
    assert(chars@.take(chars.len() as int) =~= chars@);
    if chars.len() > 0 && chars[chars.len() - 1] != '\n' {
        proof {
            lemma_newlines_bound(chars@.drop_last());
        }
        n + 1
    } else {
        n
    }
}

/// Check a whole file against the `module_size.max_lines` budget.
///
/// # Returns
///
/// A warning at line `max_lines + 1` when the file has more physical
/// lines than the budget; exactly `max_lines` stays silent.
pub fn check(source: &str, max_lines: usize) -> (r: Option<Diagnostic>)
    ensures
        r is Some <==> physical_lines(source@) > max_lines,
        r matches Some(d) ==> finding(d, physical_lines(source@), (max_lines + 1) as nat, max_lines as nat, ""@),
{
    let lines = count_lines(source);
    if lines > max_lines {
        Some(diagnostic(lines, max_lines + 1, max_lines, ""))
    } else {
        None
    }
}

} // verus!
