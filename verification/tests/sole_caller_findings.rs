use llm_tidy_lint::codes::CODE_MOD004;
use llm_tidy_lint::diagnostic::{Diagnostic, Severity};
use llm_tidy_lint::sole_caller::SoleCallerFindings;

/// One MOD004 finding, tagged by name for assertions.
fn finding(name: &str) -> Diagnostic {
    Diagnostic {
        severity: Severity::Hint,
        code: CODE_MOD004,
        title: None,
        message: String::new(),
        line: 1,
        item_kind: "mod".to_string(),
        item_name: Some(name.to_string()),
    }
}

/// Two anchor files: `a.rs` holds two findings, `b.rs` one.
fn grouped() -> SoleCallerFindings {
    SoleCallerFindings::new(vec![
        ("a.rs".to_string(), vec![finding("one"), finding("two")]),
        ("b.rs".to_string(), vec![finding("three")]),
    ])
}

#[test]
fn for_file_should_return_anchored_diagnostics_when_key_matches() {
    let findings = grouped();

    let found = findings.for_file("a.rs");

    let names: Vec<_> = found.iter().map(|d| d.item_name.as_deref()).collect();
    assert_eq!(names, [Some("one"), Some("two")]);
}

#[test]
fn all_should_yield_every_anchor_files_diagnostics() {
    let findings = grouped();

    let count = findings.all().len();

    assert_eq!(count, 3);
}

#[test]
fn merge_should_combine_scopes_and_append_shared_anchors() {
    let mut accumulator = SoleCallerFindings::new(Vec::new());
    let second = vec![("b.rs".to_string(), vec![finding("three")])];
    let first = vec![("a.rs".to_string(), vec![finding("one")]), ("b.rs".to_string(), vec![finding("four")])];

    accumulator.merge(SoleCallerFindings::new(second));
    accumulator.merge(SoleCallerFindings::new(first));

    let names: Vec<_> = accumulator.for_file("b.rs").iter().map(|d| d.item_name.as_deref()).collect();
    assert_eq!(names, [Some("three"), Some("four")]);
    assert_eq!(accumulator.all().len(), 3);
}

#[test]
fn retain_anchors_should_drop_findings_when_anchor_is_not_owned() {
    let mut findings = grouped();

    findings.retain_anchors(|file| file != "a.rs");

    assert!(findings.for_file("a.rs").is_empty());
    assert_eq!(findings.all().len(), 1, "b.rs keeps its finding");
}

#[test]
fn for_file_should_return_empty_when_file_anchors_nothing() {
    let findings = grouped();

    assert!(findings.for_file("other.rs").is_empty());
}

#[test]
fn new_should_append_findings_of_a_repeated_anchor() {
    let findings = SoleCallerFindings::new(vec![
        ("a.rs".to_string(), vec![finding("one")]),
        ("a.rs".to_string(), vec![finding("two")]),
    ]);
    let names: Vec<_> = findings.for_file("a.rs").iter().map(|d| d.item_name.as_deref()).collect();
    assert_eq!(names, [Some("one"), Some("two")]);
}
