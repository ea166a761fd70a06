use llm_tidy_lint::codes::CODE_MODULE_SIZE;
use llm_tidy_lint::diagnostic::{Diagnostic, Severity};
use llm_tidy_lint::mod001_module_size::check as file_check;
use llm_tidy_lint::parser::parse_rust;
use llm_tidy_lint::rust::mod001_module_size::{check_with_options, count_lines_outside_spans, is_tests_path};
use llm_tidy_lint::syntax::SyntaxTree;
use std::path::Path;

/// A parsed Rust source with its text.
struct ParseResult {
    tree: SyntaxTree,
    source: String,
}

/// Parse `source` with the Rust backend's parser.
fn parse(source: &str) -> ParseResult {
    ParseResult { tree: parse_rust(source).unwrap(), source: source.to_string() }
}

/// Exercise the default test-excluding policy.
fn check(parsed: &ParseResult, path: &Path, max_lines: usize) -> Option<Diagnostic> {
    check_with_options(&parsed.tree, parsed.source.as_bytes(), path.to_str().unwrap(), max_lines, false, false)
}

/// `count` private fn lines: no docs, visibility, or test attrs.
fn fn_lines(count: usize) -> String {
    (0..count).map(|i| format!("fn filler_{i}() {{}}\n")).collect()
}

// Over the budget: one warning at the first line past the budget.
#[test]
fn fires_when_non_test_lines_exceed_the_threshold() {
    let parsed = parse(&fn_lines(3));

    let diagnostic = check(&parsed, Path::new("src/lib.rs"), 2).expect("3 lines > 2");

    assert_eq!(diagnostic.code, CODE_MODULE_SIZE);
    assert_eq!(diagnostic.severity, Severity::Warning);
    assert_eq!(diagnostic.line, 3, "the first line past the budget");
    assert_eq!(diagnostic.item_kind, "file");
    assert!(diagnostic.item_name.is_none());
    assert!(
        diagnostic.message.starts_with(
            "file has 3 lines outside `#[cfg(test)]` mod regions,\n\
                 over the 2-line budget (module_size.max_lines).\n"
        ),
        "the Rust warning must explain the test exclusion: {}",
        diagnostic.message
    );
}

// Exactly at the budget: silent (strictly greater fires).
#[test]
fn stays_silent_at_exactly_the_threshold() {
    let parsed = parse(&fn_lines(2));

    assert!(check(&parsed, Path::new("src/lib.rs"), 2).is_none());
}

// Under the budget: silent.
#[test]
fn stays_silent_under_the_threshold() {
    let parsed = parse(&fn_lines(1));

    assert!(check(&parsed, Path::new("src/lib.rs"), 500).is_none());
}

// Blank lines are file lines and count toward the budget.
#[test]
fn counts_blank_lines_toward_the_budget() {
    let parsed = parse("fn a() {}\n\nfn b() {}\n");

    let diagnostic = check(&parsed, Path::new("src/lib.rs"), 2).expect("3 lines > 2");

    assert_eq!(diagnostic.line, 3);
}

// The whole `#[cfg(test)]` mod span, attribute through closing brace,
// leaves the count.
#[test]
fn excludes_cfg_test_mod_regions_from_the_count() {
    let source = format!(
        "{}#[cfg(test)]\nmod tests {{\n{}\n}}\n",
        fn_lines(2),
        "    fn helper() {{}}\n".repeat(5)
    );
    let parsed = parse(&source);

    // 10 physical lines, 2 counted.
    assert!(
        check(&parsed, Path::new("src/lib.rs"), 8).is_none(),
        "test-module lines must not count toward the budget"
    );
    let diagnostic = check(&parsed, Path::new("src/lib.rs"), 1).expect("2 non-test lines > 1");
    assert_eq!(diagnostic.line, 2);
}

// Every test-module region drops out, not just the first.
#[test]
fn excludes_every_cfg_test_mod_region() {
    let source = format!(
        "{}#[cfg(test)]\nmod a {{\n}}\n#[cfg(test)]\nmod b {{\n}}\n",
        fn_lines(2)
    );
    let parsed = parse(&source);

    // 8 physical lines, 2 counted.
    assert!(check(&parsed, Path::new("src/lib.rs"), 5).is_none());
}

// A line mixing a test module with trailing production code still
// counts: the production item started on that line keeps it in the
// budget.
#[test]
fn counts_a_line_mixing_a_test_module_with_production_code() {
    let parsed = parse("fn a() {}\nfn b() {}\n#[cfg(test)] mod t {} fn c() {}\n");

    let diagnostic = check(&parsed, Path::new("src/lib.rs"), 2).expect("3 non-test lines > 2");

    assert_eq!(
        diagnostic.line, 3,
        "the mixed line is the first past the budget"
    );
    assert!(
        check(&parsed, Path::new("src/lib.rs"), 3).is_none(),
        "exactly 3 non-test lines"
    );
}

// A test module's closing brace sharing its line with a following
// production item keeps that line in the count too.
#[test]
fn counts_a_closing_brace_line_shared_with_production_code() {
    let parsed = parse("fn a() {}\nfn b() {}\n#[cfg(test)]\nmod t {\n} fn c() {}\n");

    let diagnostic = check(&parsed, Path::new("src/lib.rs"), 2).expect("3 non-test lines > 2");

    assert_eq!(
        diagnostic.line, 5,
        "the shared closing-brace line crosses the budget"
    );
}

// CRLF input: fully covered test-module lines stay excluded even
// though each line ends with `\r`.
#[test]
fn excludes_fully_covered_crlf_test_module_lines() {
    let source = "fn a() {}\r\n#[cfg(test)]\r\nmod t {\r\n}\r\nfn b() {}\r\n";
    let parsed = parse(source);

    let diagnostic = check(&parsed, Path::new("src/lib.rs"), 1).expect("2 non-test lines > 1");

    assert_eq!(diagnostic.line, 5, "fn b's CRLF line crosses the budget");
}

// Direct helper contract, unreachable through `check` (its spans
// always end past the newline). A span may stop at the `\r` and
// still cover the line.
#[test]
fn covers_a_line_whose_span_stops_at_the_carriage_return() {
    let (count, crossing) = count_lines_outside_spans("fn a() {}\r\n".as_bytes(), &[(0, 9)], &[], 0);

    assert_eq!(
        (count, crossing),
        (0, None),
        "the span still covers the line"
    );
}

// A `#[cfg(test)]` attribute on a non-`mod` item is not a module
// region: its lines count.
#[test]
fn counts_cfg_test_attributes_on_non_mod_items() {
    let parsed = parse("#[cfg(test)]\nfn gated() {}\nfn other() {}\n");

    let diagnostic = check(&parsed, Path::new("src/lib.rs"), 2).expect("3 lines > 2");

    assert_eq!(diagnostic.line, 3);
}

// The crossing line lands after a mid-file test region, on the line
// holding the `max_lines + 1`-th counted line.
#[test]
fn reports_the_crossing_line_after_test_regions() {
    let source = format!(
        "{}#[cfg(test)]\nmod tests {{\n}}\n{}",
        fn_lines(2),
        fn_lines(2)
    );
    let parsed = parse(&source);

    // Counted lines sit at file lines 1, 2, 6, 7.
    let diagnostic = check(&parsed, Path::new("src/lib.rs"), 3).expect("4 counted > 3");

    assert_eq!(diagnostic.line, 7);
}

#[test]
fn never_fires_under_an_integration_tests_root() {
    let parsed = parse(&fn_lines(600));
    assert!(check(&parsed, Path::new("tests/integration.rs"), 500).is_none());
}

#[test]
fn never_fires_under_a_nested_tests_directory() {
    let parsed = parse(&fn_lines(600));
    assert!(check(&parsed, Path::new("src/cli/tests/config.rs"), 500).is_none());
}

#[test]
fn fires_for_a_file_named_tests() {
    let parsed = parse(&fn_lines(3));
    assert!(check(&parsed, Path::new("src/tests.rs"), 2).is_some());
}

#[test]
fn fires_under_a_singular_test_directory() {
    let parsed = parse(&fn_lines(3));
    assert!(check(&parsed, Path::new("src/test/config.rs"), 2).is_some());
}

#[test]
fn is_tests_path_should_match_only_whole_components() {
    assert!(is_tests_path("tests"));
    assert!(is_tests_path("a/tests/b.rs"));
    assert!(!is_tests_path("a/mytests/b.rs"));
    assert!(!is_tests_path("a/tests.rs"));
    assert!(!is_tests_path(""));
}

#[test]
fn include_test_files_should_check_files_under_tests() {
    let parsed = parse(&fn_lines(3));
    let found = check_with_options(&parsed.tree, parsed.source.as_bytes(), "tests/a.rs", 2, false, true);
    let message = found.expect("3 lines > 2").message;
    assert!(message.ends_with("- Rust files in `tests/` directories are checked."));
}

#[test]
fn include_in_file_tests_should_count_test_modules_and_omit_the_exclusion() {
    let source = format!("{}#[cfg(test)]\nmod tests {{\n}}\n", fn_lines(2));
    let parsed = parse(&source);
    let found = check_with_options(&parsed.tree, parsed.source.as_bytes(), "src/lib.rs", 4, true, false)
        .expect("5 lines > 4");
    assert_eq!(found.line, 5);
    assert!(found.message.starts_with("file has 5 lines,\nover the 4-line budget (module_size.max_lines).\n"));
    assert!(found.message.contains("- Top-level `#[cfg(test)]` test modules are counted."));
    assert!(check_with_options(&parsed.tree, parsed.source.as_bytes(), "src/lib.rs", 5, true, false).is_none());
}

#[test]
fn rust_message_should_append_module_root_guidance() {
    let parsed = parse(&fn_lines(3));
    let found = check(&parsed, Path::new("src/lib.rs"), 2).unwrap();
    let expected = "file has 3 lines outside `#[cfg(test)]` mod regions,
over the 2-line budget (module_size.max_lines).
- Large files make readers search farther and keep more context in mind.
- Split distinct responsibilities into focused, domain-named modules.
  Keep closely related code together.
- Keep a clear starting point for callers and readers. Consider keeping
  main entry points and high-level orchestration together, with
  implementation details in focused modules or types.
- Preserve the intended interface without widening visibility or
  adding forwarding wrappers just to centralize entry points.
- Update module or type overview docs, where supported, to explain
  responsibilities and direct readers to relevant entry points.
- Do not split mechanically or remove useful documentation to meet
  the line budget.
- When splitting a Rust module, consider keeping main entry points and
  high-level orchestration in the module root (`mod.rs` or `foo.rs`).
  Put implementation details in child modules.
- If entry points belong in child modules, consider selective re-exports
  through the root without widening visibility.
- Update root docs to explain the module's purpose and direct readers
  to main entry points and relevant child modules.
- Top-level `#[cfg(test)]` test modules are excluded.
  Other lines count, including comments and blank lines.
- Rust files in `tests/` directories are skipped.";
    assert_eq!(found.message, expected);
}

/// The lint-level check's finding line for `source` under `max_lines`.
fn file_line(source: &str, max_lines: usize) -> Option<usize> {
    let finding = file_check(source, max_lines);
    if let Some(finding) = &finding {
        assert_eq!(finding.code, CODE_MODULE_SIZE);
        assert_eq!(finding.severity, Severity::Warning);
        assert!(finding.message.starts_with("file has 3 lines,\n"));
        assert_eq!(finding.item_kind, "file");
        assert!(finding.item_name.is_none());
    }
    finding.map(|d| d.line)
}

#[test]
fn file_check_should_stay_silent_for_an_empty_file() {
    assert_eq!(file_line("", 1), None);
}

#[test]
fn file_check_should_stay_silent_below_and_at_the_budget() {
    assert_eq!(file_line("code\n", 2), None);
    assert_eq!(file_line("code\n\n", 2), None);
}

#[test]
fn file_check_should_report_over_the_budget() {
    assert_eq!(file_line("code\n\n// comment\n", 2), Some(3));
}

#[test]
fn file_check_should_count_an_unterminated_last_line() {
    assert_eq!(file_line("code\n\n// comment", 2), Some(3));
}

#[test]
fn file_check_should_count_crlf_lines_once() {
    assert_eq!(file_line("code\r\n\r\n// comment\r\n", 2), Some(3));
}

#[test]
fn file_check_should_stay_silent_at_the_maximum_budget() {
    assert_eq!(file_line("code\n", usize::MAX), None);
}

#[test]
fn count_lines_outside_spans_should_report_the_crossing_line() {
    let (count, crossing) = count_lines_outside_spans("a\nb\nc\n".as_bytes(), &[(2, 4)], &[], 1);
    assert_eq!((count, crossing), (2, Some(3)));
    let (count, crossing) = count_lines_outside_spans("a\nb\nc\n".as_bytes(), &[(2, 4)], &[2], 1);
    assert_eq!((count, crossing), (3, Some(2)));
}
