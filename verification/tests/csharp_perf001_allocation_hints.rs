//! PERF001 over C# sources.
use llm_tidy_lint::codes::CODE_PERF001;
use llm_tidy_lint::csharp::perf001_allocation_hints::{bare_type_name, default_hints};
use llm_tidy_lint::diagnostic::{Diagnostic, Severity};
use llm_tidy_lint::parser::parse_csharp;
use llm_tidy_lint::perf_hint::PerfHint;
use llm_tidy_lint::syntax::SyntaxTree;

/// A parsed source: its tree and its text.
struct Parsed {
    tree: SyntaxTree,
    source: String,
}

/// Parse C# `source`.
fn parse(source: &str) -> Result<Parsed, ()> {
    match parse_csharp(source) {
        Some(tree) => Ok(Parsed { tree, source: source.to_string() }),
        None => Err(()),
    }
}

/// Run PERF001 with a base and an extra reminder list.
fn check(parsed: &Parsed, hints: impl AsRef<[PerfHint]>, extra: impl AsRef<[PerfHint]>) -> Vec<Diagnostic> {
    llm_tidy_lint::csharp::perf001_allocation_hints::check(
        &parsed.tree,
        parsed.source.as_bytes(),
        &hints.as_ref().to_vec(),
        &extra.as_ref().to_vec(),
    )
}

fn hint(pattern: &str, message: &str) -> PerfHint {
        PerfHint {
            pattern: pattern.to_string().into(),
            message: message.to_string().into(),
        }
    }

fn default_check(source: &str) -> Vec<Diagnostic> {
        check(&parse(source).unwrap(), default_hints(), &[])
    }

fn findings(source: &str) -> Vec<(usize, String)> {
        default_check(source)
            .iter()
            .map(|d| (d.line, d.message.clone()))
            .collect()
    }

fn builtin(created: &str) -> String {
        let pattern = format!("{}::new", bare_type_name(created));
        default_hints()
            .iter()
            .find(|hint| hint.pattern == pattern)
            .unwrap_or_else(|| panic!("no built-in reminder for {pattern}"))
            .message
            .to_string()
    }

#[test]
fn csharp_mod_builtin_messages_should_carry_why_and_suggestions() {
        for hint in default_hints() {
            let message = hint.message.as_str();
            let (_, rest) = message
                .split_once("\n\nWhy: ")
                .unwrap_or_else(|| panic!("{}: missing Why section", hint.pattern));
            let (_, suggestions) = rest
                .split_once("\n\nSuggestions:\n")
                .unwrap_or_else(|| panic!("{}: missing Suggestions section", hint.pattern));
            assert!(
                suggestions.starts_with("- "),
                "{}: suggestions must open with a bullet",
                hint.pattern
            );
        }
    }

#[test]
fn builtins_should_stay_silent_on_shaped_or_initialized_construction() {
        let source = &[
            "class C {\n",
            "    void M(int[] items) {\n",
            "        var a = new List<int>(10);\n",
            "        var b = new List<int>(items);\n",
            "        var c = new List<int> { 1, 2, 3 };\n",
            "        var d = new System.Text.StringBuilder(64);\n",
            "    }\n",
            "}\n",
        ].concat();
        assert!(
            default_check(source).is_empty(),
            "shaped constructions already choose an overload:\n{source}"
        );
    }

#[test]
fn builtins_should_stay_silent_on_mentions_and_unrelated_types() {
        let source = &[
            "class C {\n",
            "    void M() {\n",
            "        var a = \"new List<int>()\";\n",
            "        // new List<int>()\n",
            "        var b = new LinkedList<int>();\n",
            "    }\n",
            "}\n",
        ].concat();
        assert!(
            default_check(source).is_empty(),
            "only matching zero-argument creations may fire:\n{source}"
        );
    }

#[test]
fn call_patterns_should_match_member_and_plain_invocations() {
        let extra = [
            hint("ToString", "consider invariant culture"),
            hint("Render", "plain reminder"),
        ];
        let source = &[
            "class C {\n",
            "    void M(string prefix, int row) {\n",
            "        Render();\n",
            "        var a = prefix.ToString();\n",
            "        var b = prefix.ToString(\"X\");\n",
            "    }\n",
            "}\n",
        ].concat();
        assert_eq!(
            check(&parse(source).unwrap(), &[], &extra)
                .iter()
                .map(|d| (d.line, d.message.clone()))
                .collect::<Vec<_>>(),
            vec![
                (3, "plain reminder".to_string()),
                (4, "consider invariant culture".to_string()),
                (5, "consider invariant culture".to_string()),
            ],
        );
    }

#[test]
fn nested_creation_should_remind_inside_an_enclosing_call() {
        let source = "class C {\n    void M() { Take(new List<int>()); }\n}\n";
        assert_eq!(
            findings(source),
            vec![(2, builtin("List<int>"))],
            "the nested creation must carry its built-in reminder"
        );
    }

#[test]
fn csharp_mod_extras_should_apply_after_the_base_list() {
        let parsed = parse("class C {\n    void M() { var v = new List<int>(); }\n}\n").unwrap();
        let extra = [hint("List::new", "extra message")];

        let overlap = check(&parsed, default_hints(), &extra);
        assert_eq!(
            overlap
                .iter()
                .map(|d| d.message.clone())
                .collect::<Vec<_>>(),
            vec![builtin("List<int>")],
            "the base entry wins without a duplicate finding"
        );

        let extras_only = check(&parsed, &[], &extra);
        assert_eq!(
            extras_only
                .iter()
                .map(|d| d.message.clone())
                .collect::<Vec<_>>(),
            vec!["extra message".to_string()],
            "an empty base leaves only the extras"
        );
    }

#[test]
fn findings_should_be_hints_naming_the_creation() {
        let findings = default_check("class C {\n    void M() { var v = new List<int>(); }\n}\n");
        assert_eq!(findings.len(), 1);
        assert_eq!(findings[0].code, CODE_PERF001);
        assert_eq!(findings[0].severity, Severity::Hint);
        assert_eq!(findings[0].item_kind, "creation");
        assert_eq!(findings[0].item_name.as_deref(), Some("List"));
    }

#[test]
fn csharp_mod_check_should_return_nothing_for_empty_lists() {
        let source = "class C {\n    void M() { var v = new List<int>(); }\n}\n";
        assert!(check(&parse(source).unwrap(), &[], &[]).is_empty());
    }

#[test]
fn builtins_should_remind_on_each_zero_argument_creation() {
    for created in [
        "List<int>",
        "System.Collections.Generic.Dictionary<string, int>",
        "HashSet<int>",
        "Queue<int>",
        "Stack<string>",
        "PriorityQueue<int, int>",
        "SortedList<string, int>",
        "System.Collections.ArrayList",
        "System.Collections.Hashtable",
        "System.Text.StringBuilder",
    ] {
        let source = format!("class C {{\n    void M() {{ var v = new {created}(); }}\n}}\n");
        assert_eq!(
            findings(&source),
            vec![(2, builtin(created))],
            "the {created} creation must carry its built-in reminder"
        );
    }
}

#[test]
fn bare_type_name_drops_generics_and_namespaces() {
    assert_eq!(bare_type_name("System.Collections.Generic.List<T>"), "List");
    assert_eq!(bare_type_name("Queue"), "Queue");
    assert_eq!(bare_type_name(" Outer.Inner "), "Inner");
}
