//! PERF001 over Rust sources.
use llm_tidy_lint::codes::CODE_PERF001;
use llm_tidy_lint::diagnostic::{Diagnostic, Severity};
use llm_tidy_lint::parser::parse_rust;
use llm_tidy_lint::rust::perf001_allocation_hints::{default_hints, PerfHint};
use llm_tidy_lint::syntax::SyntaxTree;

/// A parsed source: its tree and its text.
struct Parsed {
    tree: SyntaxTree,
    source: String,
}

/// Parse Rust `source`.
fn parse_source(source: &str) -> Result<Parsed, ()> {
    match parse_rust(source) {
        Some(tree) => Ok(Parsed { tree, source: source.to_string() }),
        None => Err(()),
    }
}

/// Run PERF001 with a base and an extra reminder list.
fn check(parsed: &Parsed, hints: impl AsRef<[PerfHint]>, extra: impl AsRef<[PerfHint]>) -> Vec<Diagnostic> {
    llm_tidy_lint::rust::perf001_allocation_hints::check(
        &parsed.tree,
        parsed.source.as_bytes(),
        &hints.as_ref().to_vec(),
        &extra.as_ref().to_vec(),
    )
}

fn hint(pattern: &str, message: &str) -> PerfHint {
        PerfHint {
            pattern: pattern.to_string().into(),
            message: message.to_string().into(),
        }
    }

fn default_check(source: &str) -> Vec<Diagnostic> {
        check(&parse_source(source).unwrap(), default_hints(), &[])
    }

fn findings(source: &str) -> Vec<(usize, String)> {
        default_check(source)
            .iter()
            .map(|d| (d.line, d.message.clone()))
            .collect()
    }

fn builtin(pattern: &str) -> String {
        default_hints()
            .iter()
            .find(|hint| hint.pattern == pattern)
            .unwrap_or_else(|| panic!("no built-in reminder for {pattern}"))
            .message
            .to_string()
    }

#[test]
fn mod_builtin_messages_should_carry_why_and_suggestions() {
        for hint in default_hints() {
            let message = hint.message.as_str();
            let (_, rest) = message
                .split_once("\n\nWhy: ")
                .unwrap_or_else(|| panic!("{}: missing Why section", hint.pattern));
            let (_, suggestions) = rest
                .split_once("\n\nSuggestions:\n")
                .unwrap_or_else(|| panic!("{}: missing Suggestions section", hint.pattern));
            assert!(
                suggestions.starts_with("- "),
                "{}: suggestions must open with a bullet",
                hint.pattern
            );
        }
    }

#[test]
fn builtins_should_match_qualified_and_generic_construction() {
        let source =
            "fn f() {\n    let a = std::vec::Vec::new();\n    let b = Vec::<u8>::new();\n}\n";
        let expected = builtin("Vec::new");
        assert_eq!(
            findings(source),
            vec![(2, expected.clone()), (3, expected)],
            "qualification and turbofish must not hide the constructor"
        );
    }

#[test]
fn builtins_should_stay_silent_on_non_matching_or_mentioned_apis() {
        let source = &[
            "fn f() {\n",
            "    let a = Vec::with_capacity(4);\n",
            "    let b = OtherVec::new();\n",
            "    let c = \"Vec::new\";\n",
            "    // Vec::new()\n",
            "    let d = Vec::new;\n",
            "}\n",
        ].concat();
        assert!(
            default_check(source).is_empty(),
            "only zero-argument matching calls may fire:\n{source}"
        );
    }

#[test]
fn separator_only_patterns_should_match_nothing() {
        let parsed = parse_source("fn f() {\n    let v = Vec::new();\n}\n").unwrap();
        for pattern in ["::", "<u8>::"] {
            let extra = [hint(pattern, "catch-all")];
            assert!(
                check(&parsed, &[], &extra).is_empty(),
                "the {pattern:?} pattern must not match"
            );
        }
    }

#[test]
fn patterns_should_stay_silent_when_longer_than_the_callee() {
        let source = "fn f() {\n    let v = new();\n}\n";
        assert!(
            default_check(source).is_empty(),
            "a short callee must not match a longer pattern:\n{source}"
        );
    }

#[test]
fn constructor_patterns_should_require_zero_arguments() {
        let extra = [hint("new", "check the new call")];
        let source = "fn f() {\n    let a = thing::new();\n    let b = thing::new(3);\n}\n";
        assert_eq!(
            check(&parse_source(source).unwrap(), &[], &extra)
                .iter()
                .map(|d| (d.line, d.message.clone()))
                .collect::<Vec<_>>(),
            vec![(2, "check the new call".to_string())],
            "the argument-taking new call must stay silent"
        );
    }

#[test]
fn method_and_macro_patterns_should_match_invocations() {
        let extra = [
            hint("to_uppercase", "consider borrow or hoist"),
            hint("format!", "consider write instead"),
        ];
        let source = &[
            "fn f(prefix: &str, row: usize) {\n",
            "    let label = prefix.to_uppercase();\n",
            "    let text = format!(\"{prefix}{row}\");\n",
            "}\n",
        ].concat();
        assert_eq!(
            check(&parse_source(source).unwrap(), &[], &extra)
                .iter()
                .map(|d| (d.line, d.message.clone()))
                .collect::<Vec<_>>(),
            vec![
                (2, "consider borrow or hoist".to_string()),
                (3, "consider write instead".to_string()),
            ],
        );
    }

#[test]
fn nested_invocations_should_each_remind() {
        let source =
            "fn f() {\n    let a = takes(Vec::new());\n    let b = takes(Vec::new());\n}\n";
        assert_eq!(findings(source).len(), 2, "each call matches once");
    }

#[test]
fn mod_extras_should_apply_after_the_base_list() {
        let parsed = parse_source("fn f() {\n    let v = Vec::new();\n}\n").unwrap();
        let extra = [hint("Vec::new", "extra message")];

        let overlap = check(&parsed, default_hints(), &extra);
        assert_eq!(
            overlap
                .iter()
                .map(|d| d.message.clone())
                .collect::<Vec<_>>(),
            vec![builtin("Vec::new")],
            "the base entry wins without a duplicate finding"
        );

        let extras_only = check(&parsed, &[], &extra);
        assert_eq!(
            extras_only
                .iter()
                .map(|d| d.message.clone())
                .collect::<Vec<_>>(),
            vec!["extra message".to_string()],
            "an empty base leaves only the extras"
        );
    }

#[test]
fn findings_should_be_hints_naming_the_invocation() {
        let findings = default_check("fn f() {\n    let v = std::vec::Vec::new();\n}\n");
        assert_eq!(findings.len(), 1);
        assert_eq!(findings[0].code, CODE_PERF001);
        assert_eq!(findings[0].severity, Severity::Hint);
        assert_eq!(findings[0].item_kind, "call");
        assert_eq!(findings[0].item_name.as_deref(), Some("std::vec::Vec::new"));
    }

#[test]
fn mod_check_should_return_nothing_for_empty_lists() {
        let source = "fn f() {\n    let v = Vec::new();\n}\n";
        assert!(check(&parse_source(source).unwrap(), &[], &[]).is_empty());
    }

#[test]
fn builtins_should_remind_on_each_zero_argument_construction() {
    for call in ["Vec::new", "String::new", "VecDeque::new", "BinaryHeap::new", "HashMap::new", "HashSet::new"] {
        let source = format!("fn f() {{\n    let v = {call}();\n}}\n");
        assert_eq!(
            findings(&source),
            vec![(2, builtin(call))],
            "the {call} call must carry its built-in reminder"
        );
    }
}

#[test]
fn macro_patterns_should_accept_the_bare_name() {
    let extra = [hint("format", "bare macro name")];
    let source = "fn f() {\n    let s = format!(\"x\");\n}\n";
    let found = check(&parse_source(source).unwrap(), &[], &extra);
    assert_eq!(found.len(), 1);
    assert_eq!(found[0].item_kind, "macro");
    assert_eq!(found[0].item_name.as_deref(), Some("format"));
}
