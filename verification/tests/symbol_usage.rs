use llm_tidy_lint::diagnostic::Severity;
use llm_tidy_lint::parser::{parse_csharp, parse_rust};
use llm_tidy_lint::symbol_policy::{
    SymbolAction, SymbolError, SymbolLanguage, SymbolMatcher, SymbolRule, SymbolTarget, SymbolUsage,
};
use llm_tidy_lint::symbol_policy::SymbolDeclaration;
use llm_tidy_lint::symbol_usage::{check_file, excluded_ranges, excludes_post_process, language_for, usages_of};

fn rust_usages(source: &str) -> Vec<SymbolUsage> {
    let tree = parse_rust(source).unwrap();
    usages_of(&tree, source.as_bytes(), SymbolLanguage::Rust)
}

fn hint_rule(name: &str, target: SymbolTarget) -> SymbolRule {
    SymbolRule {
        matcher: SymbolMatcher::Literal(name.to_string()),
        target,
        action: SymbolAction::Hint,
        exclude_lints: 0,
        exclude_edits: false,
        array_kind: None,
        zero_arguments: None,
        no_initializer: None,
        capacity_reminder: false,
        code: "SYM001",
        severity: Severity::Reminder,
        title: None,
        message: Some("avoid".to_string()),
    }
}

#[test]
fn usages_read_paths_methods_and_macros_in_order() {
    let found = rust_usages("fn f(v: Vec<u8>) {\n    foo::bar(1);\n    v.push(2);\n    println!(\"x\");\n}\n");
    let paths: Vec<&str> = found.iter().map(|u| u.path.as_str()).collect();
    assert_eq!(paths, vec!["foo::bar", "push", "println!"]);
    let kinds: Vec<&str> = found.iter().map(|u| u.kind.as_str()).collect();
    assert_eq!(kinds, vec!["call", "call", "macro"]);
    let lines: Vec<usize> = found.iter().map(|u| u.line).collect();
    assert_eq!(lines, vec![2, 3, 4]);
    assert!(!found[0].zero_arguments);
    assert!(found[2].empty_argument_list);
}

#[test]
fn usages_mark_calls_without_arguments() {
    let found = rust_usages("fn f() { let v = Vec::new(); }\n");
    assert_eq!(found.len(), 1);
    assert_eq!(found[0].path, "Vec::new");
    assert!(found[0].zero_arguments);
    assert!(found[0].empty_argument_list);
    assert_eq!(found[0].written_name, "Vec::new");
    assert!(found[0].array_kind.is_none());
}

#[test]
fn usages_ignore_unrelated_syntax() {
    assert!(rust_usages("struct S { a: u8 }\n").is_empty());
}

#[test]
fn language_follows_the_extension() {
    assert_eq!(language_for("rs"), Some(SymbolLanguage::Rust));
    assert_eq!(language_for("cs"), Some(SymbolLanguage::Csharp));
    assert_eq!(language_for("py"), None);
}

#[test]
fn check_file_hints_at_a_matching_call() {
    let source = "fn f() {\n    std::mem::drop(1);\n}\n";
    let tree = parse_rust(source).unwrap();
    let rules = vec![hint_rule("drop", SymbolTarget::Usage)];
    let found = check_file(&tree, source.as_bytes(), &Vec::new(), "rs", &rules, true).unwrap();
    assert_eq!(found.hints.len(), 1);
    assert_eq!(found.hints[0].line, 2);
    assert_eq!(found.hints[0].item_name.as_deref(), Some("std::mem::drop"));
}

#[test]
fn check_file_observes_nothing_for_other_languages() {
    let source = "fn f() { exit(1); }\n";
    let tree = parse_rust(source).unwrap();
    let rules = vec![hint_rule("exit", SymbolTarget::Usage)];
    let found = check_file(&tree, source.as_bytes(), &Vec::new(), "txt", &rules, true).unwrap();
    assert!(found.hints.is_empty());
}

#[test]
fn check_file_fails_closed_on_syntax_errors() {
    let source = "fn f( {\n";
    let tree = parse_rust(source).unwrap();
    let rules = vec![hint_rule("f", SymbolTarget::Declaration)];
    let got = check_file(&tree, source.as_bytes(), &Vec::new(), "rs", &rules, true);
    assert!(matches!(got, Err(SymbolError::SyntaxErrors)));
}

#[test]
fn csharp_usages_name_creations_and_arrays() {
    let source = "class C { void M() { var a = new List<int>(); var b = new int[3]; } }\n";
    let tree = parse_csharp(source).unwrap();
    let found = usages_of(&tree, source.as_bytes(), SymbolLanguage::Csharp);
    assert_eq!(found.len(), 2);
    assert_eq!(found[0].path, "List::new");
    assert_eq!(found[0].kind, "creation");
    assert_eq!(found[0].written_name, "List");
    assert!(found[0].zero_arguments);
    assert_eq!(found[1].path, "new[]");
    assert_eq!(found[1].kind, "array creation");
}

fn exclude_rule(name: &str, edits: bool) -> SymbolRule {
    let mut r = hint_rule(name, SymbolTarget::Declaration);
    r.action = SymbolAction::Exclude;
    r.exclude_edits = edits;
    r
}

fn declaration(path: &str, start: usize, end: usize) -> SymbolDeclaration {
    SymbolDeclaration { path: path.to_string(), start, end, line: 1 }
}

#[test]
fn excluded_ranges_keep_protected_declarations() {
    let source = "mod generated { fn run() {} }\nfn other() {}\n";
    let tree = parse_rust(source).unwrap();
    let decls = vec![declaration("generated::run", 16, 27), declaration("other", 30, 43)];
    let rules = vec![exclude_rule("run", true)];
    assert_eq!(excluded_ranges(&tree, &decls, "rs", &rules), Ok(vec![(16, 27)]));
    assert_eq!(excluded_ranges(&tree, &decls, "md", &rules), Ok(vec![]));
    let lint_only = vec![exclude_rule("run", false)];
    assert_eq!(excluded_ranges(&tree, &decls, "rs", &lint_only), Ok(vec![]));
}

#[test]
fn excluded_ranges_fail_closed_on_syntax_errors() {
    let source = "fn run( {\n";
    let tree = parse_rust(source).unwrap();
    let rules = vec![exclude_rule("run", true)];
    assert_eq!(excluded_ranges(&tree, &Vec::new(), "rs", &rules), Err(SymbolError::SyntaxErrors));
}

#[test]
fn post_processing_opt_out_needs_a_matching_declaration() {
    let source = "fn run() {}\n";
    let tree = parse_rust(source).unwrap();
    let decls = vec![declaration("run", 0, 11)];
    assert_eq!(excludes_post_process(&tree, &decls, &vec![exclude_rule("run", false)]), Ok(true));
    assert_eq!(excludes_post_process(&tree, &decls, &vec![exclude_rule("walk", false)]), Ok(false));
    let broken = parse_rust("fn run( {\n").unwrap();
    assert_eq!(excludes_post_process(&broken, &decls, &vec![]), Err(SymbolError::SyntaxErrors));
}
