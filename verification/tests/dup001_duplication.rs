use llm_tidy_lint::codes::CODE_DUPLICATION;
use llm_tidy_lint::diagnostic::{Diagnostic, Severity};
use llm_tidy_lint::dup001_duplication::groups::{select_sites, Group};
use llm_tidy_lint::dup001_duplication::source::Lines;
use llm_tidy_lint::dup001_duplication::{analyze, check, ChangedLines, DuplicationConfig};

const BLOCK: &str = "load();\nclassify();\nrecord();\nflush();\nfinish();\n";

/// The eligible lines `first..=last`.
fn lines(first: usize, last: usize) -> ChangedLines {
    ChangedLines::new(vec![(first, last)])
}

/// A config with `min_meaningful_lines` changed.
fn with_lines(min_meaningful_lines: usize) -> DuplicationConfig {
    DuplicationConfig { min_meaningful_lines, ..DuplicationConfig::default() }
}

/// Every field of each finding, for comparing two runs.
fn rendered(findings: &[Diagnostic]) -> Vec<String> {
    findings.iter().map(|d| format!("{d:?}")).collect()
}

fn whitespace_case(third: &str, exact_whitespace: bool) -> usize {
    let source = format!("a\nb\na\nb\n{third}");
    let config = DuplicationConfig { min_meaningful_lines: 2, exact_whitespace, ..DuplicationConfig::default() };
    check(&source, &lines(5, 6), config).len()
}

#[test]
fn check_should_compare_only_selected_whitespace_normalization_indentation() {
    assert_eq!(whitespace_case(" a \n b\t\n", false), 1);
}

#[test]
fn check_should_compare_only_selected_whitespace_normalization_exact_indentation() {
    assert_eq!(whitespace_case(" a \n b\t\n", true), 0);
}

#[test]
fn check_should_compare_only_selected_whitespace_normalization_line_endings() {
    assert_eq!(whitespace_case("a\r\nb\r\n", false), 1);
}

#[test]
fn check_should_compare_only_selected_whitespace_normalization_exact_endings() {
    assert_eq!(whitespace_case("a\r\nb\r\n", true), 0);
}

#[test]
fn check_should_compare_only_selected_whitespace_normalization_internal_space() {
    assert_eq!(whitespace_case("a a\nb\n", false), 0);
}

#[test]
fn check_should_compare_only_selected_whitespace_normalization_identifier() {
    assert_eq!(whitespace_case("x\nb\n", false), 0);
}

#[test]
fn check_should_compare_only_selected_whitespace_normalization_exact_equal() {
    assert_eq!(whitespace_case("a\nb\n", true), 1);
}

#[test]
fn check_should_count_non_overlapping_sites_overlapping_only() {
    let source = "a\n".repeat(7);
    assert_eq!(check(&source, &ChangedLines::all(&source), with_lines(3)).len(), 0);
}

#[test]
fn check_should_count_non_overlapping_sites_independent() {
    let source = "a\n".repeat(9);
    assert_eq!(check(&source, &ChangedLines::all(&source), with_lines(3)).len(), 1);
}

fn literal_case(indented: &str, unindented: &str) {
    let source = format!("{indented}{indented}{unindented}");
    let config = with_lines(3);
    let eligible = lines(indented.lines().count() * 2 + 1, source.lines().count());

    let normalized = check(&source, &eligible, config);
    let exact = check(&source, &eligible, DuplicationConfig { exact_whitespace: true, ..config });

    assert_eq!(normalized.len(), 1, "{normalized:?}");
    assert!(exact.is_empty(), "{exact:?}");
}

#[test]
fn check_should_expose_literal_and_indentation_limits_multiline_string() {
    literal_case("text = '''\n  alpha\n  beta\n'''\n", "text = '''\nalpha\nbeta\n'''\n");
}

#[test]
fn check_should_expose_literal_and_indentation_limits_heredoc() {
    literal_case("cat <<EOF\n  alpha\n  beta\nEOF\n", "cat <<EOF\nalpha\nbeta\nEOF\n");
}

#[test]
fn check_should_expose_literal_and_indentation_limits_indentation_language() {
    literal_case("if ready:\n  load()\n  save()\n", "if ready:\nload()\nsave()\n");
}

#[test]
fn check_should_include_a_query_that_overlaps_an_earlier_match() {
    let source = "a\n".repeat(10);

    let diagnostics = check(&source, &lines(2, 4), with_lines(3));

    assert_eq!(diagnostics.len(), 1);
    assert_eq!(diagnostics[0].line, 2);
    assert!(diagnostics[0].message.contains("Locations: 2-4, 5-7, 8-10."));
}

#[test]
fn check_should_keep_distinct_overlapping_groups() {
    let source = "a\nb\nc\nx\na\nb\ny\na\nb\nz\nb\nc\nw\nb\nc\n";

    let diagnostics = check(source, &ChangedLines::all(source), with_lines(2));

    assert_eq!(diagnostics.len(), 2, "{diagnostics:?}");
    assert_eq!(diagnostics.iter().map(|d| d.line).collect::<Vec<_>>(), [1, 2]);
}

#[test]
fn check_should_keep_rendered_results_stable_across_runs() {
    let source = format!("{}unique();\n{}", BLOCK.repeat(3), "x\ny\nz\n".repeat(3));
    let config = with_lines(3);
    let eligible = ChangedLines::all(&source);
    let expected = rendered(&check(&source, &eligible, config));

    for _ in 0..10 {
        assert_eq!(rendered(&check(&source, &eligible, config)), expected);
    }
}

fn collision_case(groups: usize) {
    let config = DuplicationConfig::default();
    let source: String = (0..groups)
        .map(|group| {
            let block: String =
                (0..config.min_meaningful_lines).map(|line| format!("step_{group}_{line}();\n")).collect();
            (0..config.min_occurrences).map(|site| format!("{block}separator_{group}_{site}();\n")).collect::<String>()
        })
        .collect();
    let eligible = ChangedLines::all(&source);

    let normal = check(&source, &eligible, config);
    let collisions = analyze(&source, &eligible, config, 0);

    assert_eq!(normal.len(), groups);
    assert_eq!(rendered(&normal), rendered(&collisions));
}

#[test]
fn check_should_preserve_consumed_findings_under_growing_collision_load_small() {
    collision_case(30);
}

#[test]
fn check_should_preserve_consumed_findings_under_growing_collision_load_medium() {
    collision_case(120);
}

fn preserved_case(original: &str, third: &str) -> usize {
    let source = format!("{original}{original}{third}");
    let start = original.lines().count() * 2 + 1;
    check(&source, &lines(start, source.lines().count()), with_lines(2)).len()
}

#[test]
fn check_should_preserve_non_whitespace_source_text_blank() {
    assert_eq!(preserved_case("a\n\nb\n", "a\nb\n"), 0);
}

#[test]
fn check_should_preserve_non_whitespace_source_text_punctuation() {
    assert_eq!(preserved_case("a\n{}\nb\n", "a\n[]\nb\n"), 0);
}

#[test]
fn check_should_preserve_non_whitespace_source_text_preserved() {
    assert_eq!(preserved_case("a\n{}\n\nb\n", "a\n{}\n\nb\n"), 1);
}

#[test]
fn check_should_preserve_non_whitespace_source_text_comments() {
    assert_eq!(preserved_case("// alpha\n// beta\n", "// alpha\n// beta\n"), 1);
}

#[test]
fn check_should_preserve_non_whitespace_source_text_literal_value() {
    assert_eq!(preserved_case("x = 1;\ny = 2;\n", "x = 1;\ny = 3;\n"), 0);
}

#[test]
fn check_should_preserve_non_whitespace_source_text_unicode() {
    assert_eq!(preserved_case("α();\nβ();\n", "α();\nβ();\n"), 1);
}

#[test]
fn check_should_render_identically_despite_fingerprint_collisions() {
    let source = format!("{BLOCK}unique();\n{BLOCK}different();\n{BLOCK}");
    let eligible = ChangedLines::all(&source);
    let config = DuplicationConfig::default();

    let normal = check(&source, &eligible, config);
    let collisions = analyze(&source, &eligible, config, 0);

    assert!(!normal.is_empty());
    assert_eq!(rendered(&normal), rendered(&collisions));
}

fn query_run_case(ranges: Vec<(usize, usize)>, count: usize) {
    let config = DuplicationConfig::default();
    let source = BLOCK.repeat(config.min_occurrences);

    let diagnostics = check(&source, &ChangedLines::new(ranges), config);

    assert_eq!(diagnostics.len(), count, "{diagnostics:?}");
    if count != 0 {
        assert_eq!(diagnostics[0].line, 11);
        assert!(diagnostics[0].message.contains("Locations: 1-5, 6-10, 11-15."));
    }
}

#[test]
fn check_should_require_a_complete_query_run_whole_third() {
    query_run_case(vec![(11, 15)], 1);
}

#[test]
fn check_should_require_a_complete_query_run_one_old_line() {
    query_run_case(vec![(12, 12)], 0);
}

#[test]
fn check_should_require_a_complete_query_run_separate_short_runs() {
    query_run_case(vec![(11, 12), (14, 15)], 0);
}

#[test]
fn check_should_require_a_complete_query_run_empty_diff() {
    query_run_case(vec![], 0);
}

#[test]
fn check_should_require_a_complete_query_run_query_cannot_borrow_context() {
    query_run_case(vec![(12, 15)], 0);
}

fn default_case(source: &str) -> usize {
    check(source, &ChangedLines::all(source), DuplicationConfig::default()).len()
}

#[test]
fn check_should_require_default_thresholds_empty() {
    assert_eq!(default_case(""), 0);
}

#[test]
fn check_should_require_default_thresholds_one() {
    assert_eq!(default_case(BLOCK), 0);
}

#[test]
fn check_should_require_default_thresholds_two() {
    assert_eq!(default_case(&"a\nb\nc\nd\ne\n".repeat(2)), 0);
}

#[test]
fn check_should_require_default_thresholds_three() {
    assert_eq!(default_case(&"a\nb\nc\nd\ne\n".repeat(3)), 1);
}

fn threshold_case(meaningful_lines: usize, occurrences: usize) -> usize {
    let block: String = (0..meaningful_lines).map(|index| format!("step_{index}();\n")).collect();
    let source = block.repeat(occurrences);
    check(&source, &lines(1, meaningful_lines), DuplicationConfig::default()).len()
}

#[test]
fn check_should_respect_threshold_boundaries_below_line_threshold() {
    assert_eq!(threshold_case(4, 3), 0);
}

#[test]
fn check_should_respect_threshold_boundaries_at_line_threshold() {
    assert_eq!(threshold_case(5, 3), 1);
}

#[test]
fn check_should_respect_threshold_boundaries_above_line_threshold() {
    assert_eq!(threshold_case(6, 3), 1);
}

#[test]
fn check_should_respect_threshold_boundaries_below_site_threshold() {
    assert_eq!(threshold_case(5, 2), 0);
}

#[test]
fn check_should_respect_threshold_boundaries_above_site_threshold() {
    assert_eq!(threshold_case(5, 4), 1);
}

#[test]
fn check_should_retain_shorter_groups_with_extra_occurrences() {
    let source = "a\nb\nc\nx\na\nb\nc\ny\na\nb\nc\nz\na\nb\n";

    let diagnostics = check(source, &ChangedLines::all(source), with_lines(2));

    assert_eq!(diagnostics.len(), 2, "{diagnostics:?}");
    assert!(diagnostics.iter().any(|d| d.message.contains("3 meaningful lines repeat at 3")));
    assert!(diagnostics.iter().any(|d| d.message.contains("2 meaningful lines repeat at 4")));
}

#[test]
fn check_should_skip_nul_containing_source() {
    let source = format!("\0{}", BLOCK.repeat(DuplicationConfig::default().min_occurrences));

    let findings = check(&source, &ChangedLines::all(&source), DuplicationConfig::default());

    assert!(findings.is_empty());
}

#[test]
fn check_should_render_the_whole_finding() {
    let source = BLOCK.repeat(3);

    let findings = check(&source, &lines(11, 15), DuplicationConfig::default());

    assert_eq!(findings.len(), 1);
    let d = &findings[0];
    assert_eq!(d.severity, Severity::Reminder);
    assert_eq!(d.code, CODE_DUPLICATION);
    assert_eq!(d.title, None);
    assert_eq!(d.line, 11);
    assert_eq!(d.item_kind, "source sequence");
    assert_eq!(d.item_name, None);
    assert_eq!(
        d.message,
        "5 meaningful lines repeat at 3 non-overlapping sites in this file. Locations: 1-5, 6-10, 11-15.\n\n\
         Why:\n- Less repeated code is easier to audit and keep consistent.\n\n\
         Suggestions:\n- Consider a constructor or helper if it preserves behavior, contracts, and performance.\n\
         - A useful refactor may not clear this reminder. That is OK; do not force further changes just to silence it."
    );
}

#[test]
fn check_should_order_findings_by_line() {
    let source = format!("{}{}", "p\nq\n".repeat(3), "r\ns\nt\n".repeat(3));

    let findings = check(&source, &ChangedLines::all(&source), with_lines(2));

    let lines: Vec<usize> = findings.iter().map(|d| d.line).collect();
    let mut sorted = lines.clone();
    sorted.sort();
    assert_eq!(lines, sorted);
    assert!(findings.len() >= 2, "{findings:?}");
}

#[test]
fn changed_lines_all_should_cover_every_line() {
    assert!(ChangedLines::all("").is_empty());
    assert_eq!(ChangedLines::all("a\nb").ranges(), &vec![(1, 2)]);
    assert_eq!(ChangedLines::all("a\nb\n").ranges(), &vec![(1, 2)]);
}

#[test]
fn lines_number_identities_by_first_occurrence() {
    let source = "a\r\nb\n a \n";
    let eligible = ChangedLines::new(vec![(3, 3)]);
    let lines = Lines::new(source, &eligible, false);
    assert_eq!(lines.ids, vec![1, 2, 1]);
    assert_eq!(lines.meaningful, vec![0, 1, 2]);
    assert_eq!(lines.query_end, vec![0, 0, 3]);
    assert_eq!(Lines::new(source, &eligible, true).ids, vec![1, 2, 3]);
}

#[test]
fn select_sites_takes_the_earliest_anchor_of_a_large_enough_packing() {
    let group = Group { starts: vec![0, 1, 3, 5], length: 2, meaningful: 2 };
    let query_end = vec![7; 7];
    assert_eq!(select_sites(&group, &query_end, 3), Some((0, vec![0, 3, 5])));
    assert_eq!(select_sites(&group, &query_end, 4), None);
}

#[test]
fn select_sites_refuses_overlapping_occurrences() {
    let group = Group { starts: vec![0, 1], length: 2, meaningful: 2 };
    assert_eq!(select_sites(&group, &vec![3; 3], 2), None);
    let spaced = Group { starts: vec![0, 1, 2], length: 2, meaningful: 2 };
    assert_eq!(select_sites(&spaced, &vec![4; 4], 2), Some((0, vec![0, 2])));
}

#[test]
fn select_sites_needs_an_eligible_anchor() {
    let group = Group { starts: vec![0, 3], length: 2, meaningful: 2 };
    let mut query_end = vec![0; 5];
    query_end[3] = 5;
    assert_eq!(select_sites(&group, &query_end, 2), Some((3, vec![0, 3])));
}
