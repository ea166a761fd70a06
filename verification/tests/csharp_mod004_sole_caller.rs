use llm_tidy_lint::codes::CODE_MOD004;
use llm_tidy_lint::csharp::mod004_sole_caller::{analyze, dot_segments, NamespaceEdge};
use llm_tidy_lint::diagnostic::{Diagnostic, Severity};
use llm_tidy_lint::sole_caller::SoleCallerFindings;

/// A reference from the namespace `from` to `target`, on `line` of `file`.
fn edge(from: &str, target: &str, file: &str, line: usize) -> NamespaceEdge {
    NamespaceEdge { from: from.to_string(), target: target.to_string(), file: file.to_string(), line }
}

/// Every finding across all anchor files, sorted by line.
fn all_findings(findings: &SoleCallerFindings) -> Vec<&Diagnostic> {
    let mut found = findings.all();
    found.sort_by_key(|d| d.line);
    found
}

/// The edge of `Runner`'s `Widget value;` field: `App.Run` names a type of
/// `App.Core` on line 7 of `file`.
fn run_caller(file: &str) -> NamespaceEdge {
    edge("App.Run", "App.Core", file, 7)
}

#[test]
fn analyze_should_flag_namespace_when_sibling_is_sole_caller() {
    let edges = vec![run_caller("run.cs")];

    let findings = analyze(&edges);

    let found = findings.for_file("run.cs");
    assert_eq!(found.len(), 1, "one finding at the caller's file");
    let d = &found[0];
    assert_eq!(d.code, CODE_MOD004);
    assert_eq!(d.severity, Severity::Hint);
    assert_eq!(d.line, 7, "anchored at the first referencing line");
    assert_eq!(d.item_kind, "namespace");
    assert_eq!(d.item_name.as_deref(), Some("Core"));
    assert_eq!(d.title.as_deref(), Some("sole-caller namespace placement"));
    assert_eq!(
        d.message,
        "namespace `App.Core` is referenced only by `App.Run` (1 reference).\n\
         Why:\n\
         - Nesting helpers under their callers lets readers follow call flow\n\
         through the file layout.\n\
         Suggestions:\n\
         - Consider nesting `App.Core` as `App.Run.Core`, with folders to match.\n\
         Update references and preserve behavior and any public API.\n\
         - Keep the current layout if reuse or readability favors it."
    );
}

#[test]
fn csharp_analyze_should_emit_one_finding_when_caller_spans_two_files() {
    let edges = vec![run_caller("run1.cs"), run_caller("run2.cs")];

    let findings = analyze(&edges);

    let found = all_findings(&findings);
    assert_eq!(found.len(), 1, "caller aggregates by namespace");
    assert!(found[0].message.contains("2 references"), "{}", found[0].message);
    let at_run1 = findings.for_file("run1.cs");
    let at_run2 = findings.for_file("run2.cs");
    assert_eq!(at_run1.len() + at_run2.len(), 1, "one anchor file only");
    assert_eq!(at_run1.len(), 1, "the first edge anchors");
}

#[test]
fn analyze_should_stay_silent_when_caller_is_parent_namespace() {
    let edges = vec![edge("App", "App.Core", "lib.cs", 7)];

    let findings = analyze(&edges);

    assert!(all_findings(&findings).is_empty(), "parent references never flag");
}

#[test]
fn analyze_should_stay_silent_when_two_caller_namespaces_exist() {
    let edges = vec![run_caller("run.cs"), edge("App.Codec", "App.Core", "codec.cs", 7)];

    let findings = analyze(&edges);

    assert!(all_findings(&findings).is_empty(), "shared namespaces stay silent");
}

#[test]
fn csharp_analyze_should_stay_silent_when_pair_is_mutual() {
    let edges = vec![edge("App.A", "App.B", "lib.cs", 7), edge("App.B", "App.A", "lib.cs", 16)];

    let findings = analyze(&edges);

    assert!(all_findings(&findings).is_empty(), "mutual pairs stay silent");
}

#[test]
fn analyze_should_stay_silent_when_target_is_root_namespace() {
    let edges = vec![edge("App.Run", "", "lib.cs", 7)];

    let findings = analyze(&edges);

    assert!(all_findings(&findings).is_empty());
}

#[test]
fn csharp_for_file_should_return_only_that_files_findings() {
    let edges = vec![run_caller("run.cs")];

    let findings = analyze(&edges);

    assert!(!findings.for_file("run.cs").is_empty());
    assert!(findings.for_file("lib.cs").is_empty(), "the callee anchors nothing");
    assert!(findings.for_file("other.cs").is_empty(), "unrelated files anchor nothing");
}

#[test]
fn analyze_should_ignore_references_from_nested_namespaces() {
    let edges = vec![edge("App.Core.Inner", "App.Core", "inner.cs", 3), run_caller("run.cs")];

    let findings = analyze(&edges);

    let found = findings.for_file("run.cs");
    assert_eq!(found.len(), 1, "App.Run remains the sole caller");
    assert!(findings.for_file("inner.cs").is_empty());
}

#[test]
fn analyze_should_count_a_nested_caller_at_the_namespace_depth() {
    let edges = vec![edge("App.Run.Deep", "App.Core", "deep.cs", 4), run_caller("run.cs")];

    let findings = analyze(&edges);

    let found = findings.for_file("deep.cs");
    assert_eq!(found.len(), 1, "App.Run.Deep and App.Run are one caller unit");
    assert_eq!(found[0].line, 4);
    assert!(found[0].message.contains("referenced only by `App.Run` (2 references)"));
    assert!(found[0].message.contains("as `App.Run.Core`"));
}

#[test]
fn analyze_should_keep_namespace_order_when_anchor_holds_two_findings() {
    let edges = vec![edge("App.Run", "App.Zeta", "run.cs", 9), edge("App.Run", "App.Alpha", "run.cs", 12)];

    let findings = analyze(&edges);

    let names: Vec<_> = findings.for_file("run.cs").iter().map(|d| d.item_name.clone().unwrap()).collect();
    assert_eq!(names, vec!["Alpha".to_string(), "Zeta".to_string()]);
}

#[test]
fn analyze_should_flag_a_namespace_called_only_from_the_root() {
    let edges = vec![edge("", "App.Core", "main.cs", 2)];

    let findings = analyze(&edges);

    let found = findings.for_file("main.cs");
    assert_eq!(found.len(), 1);
    assert!(found[0].message.contains("is referenced only by `` (1 reference)"));
}

#[test]
fn dot_segments_should_split_like_str_split() {
    assert_eq!(dot_segments("App.Core"), vec!["App".to_string(), "Core".to_string()]);
    assert_eq!(dot_segments(""), vec![String::new()]);
    assert_eq!(dot_segments("A..B"), vec!["A".to_string(), String::new(), "B".to_string()]);
}
