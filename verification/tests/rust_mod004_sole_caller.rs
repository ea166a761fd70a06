use llm_tidy_lint::codes::CODE_MOD004;
use llm_tidy_lint::diagnostic::Severity;
use llm_tidy_lint::rust::mod004_sole_caller::{analyze, CrateReferences, ReferenceEdge};

/// A file with its module path below `crate`.
fn file(path: &str, segments: &[&str]) -> (String, Vec<String>) {
    (path.to_string(), segments.iter().map(|s| s.to_string()).collect())
}

/// A reference from `from` to `target` on `line`.
fn edge(from: &str, target: &str, line: usize) -> ReferenceEdge {
    ReferenceEdge { from: from.to_string(), target: target.to_string(), line }
}

#[test]
fn analyze_should_flag_module_when_sibling_is_sole_caller() {
    let facts = CrateReferences {
        files: vec![file("src/lib.rs", &[]), file("src/load/mod.rs", &["load"]), file("src/xbe.rs", &["xbe"])],
        edges: vec![edge("src/load/mod.rs", "src/xbe.rs", 2), edge("src/load/mod.rs", "src/xbe.rs", 3)],
    };

    let findings = analyze(&facts);

    let found = findings.for_file("src/load/mod.rs");
    assert_eq!(found.len(), 1, "one finding at the caller's file");
    let d = &found[0];
    assert_eq!(d.code, CODE_MOD004);
    assert_eq!(d.severity, Severity::Hint);
    assert_eq!(d.line, 2, "anchored at the first referencing line");
    assert_eq!(d.item_kind, "mod");
    assert_eq!(d.item_name.as_deref(), Some("xbe"));
    assert_eq!(d.title.as_deref(), Some("sole-caller module placement"));
    assert_eq!(
        d.message,
        "module `crate::xbe` is referenced only by `crate::load` (2 references).\n\
         Why:\n\
         - Nesting code under its caller makes call flow easier to follow.\n\
         Suggestions:\n\
         - Consider moving `xbe` to `crate::load::xbe`.\n\
         Update references; preserve behavior and public APIs.\n\
         - Keep the current layout if it better supports reuse or readability."
    );
}

#[test]
fn analyze_should_flag_module_when_reference_targets_its_child() {
    let facts = CrateReferences {
        files: vec![
            file("src/lib.rs", &[]),
            file("src/load/mod.rs", &["load"]),
            file("src/xbe/mod.rs", &["xbe"]),
            file("src/xbe/hdr.rs", &["xbe", "hdr"]),
        ],
        edges: vec![edge("src/load/mod.rs", "src/xbe/hdr.rs", 1)],
    };

    let findings = analyze(&facts);

    let found = findings.all();
    assert_eq!(found.len(), 1, "only the outermost subtree emits");
    assert_eq!(found[0].item_name.as_deref(), Some("xbe"));
    assert!(found[0].message.contains("(1 reference)"));
}

#[test]
fn analyze_should_flag_module_when_caller_sits_above_parent() {
    let facts = CrateReferences {
        files: vec![file("src/lib.rs", &[]), file("src/a/mod.rs", &["a"]), file("src/a/b.rs", &["a", "b"])],
        edges: vec![edge("src/lib.rs", "src/a/b.rs", 2)],
    };

    let findings = analyze(&facts);

    let found = findings.for_file("src/lib.rs");
    assert_eq!(found.len(), 1);
    assert_eq!(found[0].item_name.as_deref(), Some("b"));
    assert_eq!(found[0].line, 2);
    assert!(found[0].message.contains("is referenced only by `crate`"));
}

#[test]
fn analyze_should_emit_one_finding_when_caller_spans_two_files() {
    let facts = CrateReferences {
        files: vec![
            file("src/lib.rs", &[]),
            file("src/load/mod.rs", &["load"]),
            file("src/load/util.rs", &["load", "util"]),
            file("src/xbe.rs", &["xbe"]),
        ],
        edges: vec![edge("src/load/mod.rs", "src/xbe.rs", 2), edge("src/load/util.rs", "src/xbe.rs", 1)],
    };

    let findings = analyze(&facts);

    let found = findings.for_file("src/load/mod.rs");
    assert_eq!(found.len(), 1, "caller aggregates by module unit");
    assert_eq!(found[0].line, 2, "first edge in edge order anchors");
    assert!(found[0].message.contains("2 references"), "{}", found[0].message);
    assert!(findings.for_file("src/load/util.rs").is_empty(), "the second file anchors nothing");
}

#[test]
fn analyze_should_keep_module_order_when_anchor_holds_two_findings() {
    let facts = CrateReferences {
        files: vec![file("src/c.rs", &["c"]), file("src/a.rs", &["a"]), file("src/b.rs", &["b"])],
        edges: vec![edge("src/c.rs", "src/b.rs", 1), edge("src/c.rs", "src/a.rs", 2)],
    };

    let findings = analyze(&facts);

    let names: Vec<_> = findings.for_file("src/c.rs").iter().map(|d| d.item_name.as_deref()).collect();
    assert_eq!(names, [Some("a"), Some("b")]);
}

#[test]
fn analyze_should_stay_silent_for_a_mutual_pair() {
    let facts = CrateReferences {
        files: vec![file("src/a.rs", &["a"]), file("src/b.rs", &["b"])],
        edges: vec![edge("src/a.rs", "src/b.rs", 1), edge("src/b.rs", "src/a.rs", 1)],
    };

    assert!(analyze(&facts).all().is_empty());
}

#[test]
fn analyze_should_stay_silent_when_two_units_call() {
    let facts = CrateReferences {
        files: vec![file("src/a.rs", &["a"]), file("src/b.rs", &["b"]), file("src/x.rs", &["x"])],
        edges: vec![edge("src/a.rs", "src/x.rs", 1), edge("src/b.rs", "src/x.rs", 1)],
    };

    assert!(analyze(&facts).all().is_empty());
}

#[test]
fn analyze_should_stay_silent_when_the_parent_calls_its_child() {
    let facts = CrateReferences {
        files: vec![file("src/a/mod.rs", &["a"]), file("src/a/b.rs", &["a", "b"])],
        edges: vec![edge("src/a/mod.rs", "src/a/b.rs", 1)],
    };

    assert!(analyze(&facts).all().is_empty());
}

#[test]
fn analyze_should_ignore_references_from_inside_the_subtree() {
    let facts = CrateReferences {
        files: vec![file("src/x/mod.rs", &["x"]), file("src/x/y.rs", &["x", "y"]), file("src/a.rs", &["a"])],
        edges: vec![edge("src/x/y.rs", "src/x/mod.rs", 1), edge("src/a.rs", "src/x/mod.rs", 4)],
    };

    let found = analyze(&facts);
    let names: Vec<_> = found.for_file("src/a.rs").iter().map(|d| d.item_name.as_deref()).collect();
    assert_eq!(names, [Some("x")]);
    assert!(found.for_file("src/a.rs")[0].message.contains("(1 reference)"));
}
