//! LEN001 over Rust sources.
use llm_tidy_lint::codes::CODE_LEN001;
use llm_tidy_lint::diagnostic::{Diagnostic, Severity};
use llm_tidy_lint::parser::parse_rust;
use llm_tidy_lint::rust::len001_method_length::check;

/// Parse `source` and measure it against `max_lines`.
fn checks(source: &str, max_lines: usize) -> Vec<Diagnostic> {
    check(&parse_rust(source).unwrap(), source.as_bytes(), max_lines)
}

/// `fn sized()` whose body holds exactly `count` measured lines: one
/// statement per line, no blanks or comments.
fn sized_fn(count: usize) -> String {
    let body: String = (0..count)
        .map(|i| format!("    let _v{i} = {i};\n"))
        .collect();
    format!("fn sized() {{\n{body}}}\n")
}

#[test]
fn check_should_emit_a_hint_when_measured_lines_exceed_the_threshold() {
        let diags = checks(&sized_fn(3), 2);

        assert_eq!(diags.len(), 1, "3 measured lines > budget 2");
        assert_eq!(diags[0].code, CODE_LEN001);
        assert_eq!(diags[0].severity, Severity::Hint);
        assert_eq!(diags[0].line, 1, "the fn item's own line");
        assert_eq!(diags[0].item_kind, "fn");
        assert_eq!(diags[0].item_name.as_deref(), Some("sized"));
        assert!(
            diags[0].message.starts_with(
                "fn `sized` has 3 body lines (blank and comment-only lines excluded),\n\
                 over the 2-line budget (method_length.max_lines)."
            ),
            "the hint must state the measured count and the budget: {}",
            diags[0].message
        );
        assert!(
            diags[0].message.contains(
                "Consider extracting cohesive steps into functions named for what they do"
            ),
            "the advice must be actionable: {}",
            diags[0].message
        );
    }

#[test]
fn excludes_blank_and_comment_only_lines_from_the_count() {
        let source = "\
fn sized() {
    let _a = 1; // trailing comment

    // comment-only line
    let _b = 2;

    /* a block comment
       spanning two lines */
    let _c = 3;
}
";

        assert!(
            checks(source, 3).is_empty(),
            "3 code lines must not exceed the budget of 3"
        );
        let diags = checks(source, 2);
        assert_eq!(diags.len(), 1);
        assert!(
            diags[0].message.starts_with("fn `sized` has 3 body lines"),
            "only the code lines count: {}",
            diags[0].message
        );
    }

#[test]
fn never_counts_the_signature_line_or_brace_only_lines() {
        let source = "\
fn sized(
    input: u32,
)
{
    let _a = 1;
    let _b = 2;
}
";

        assert!(checks(source, 2).is_empty());
        let diags = checks(source, 1);
        assert_eq!(diags.len(), 1);
        assert!(
            diags[0].message.starts_with("fn `sized` has 2 body lines"),
            "only the two statements count: {}",
            diags[0].message
        );
    }

#[test]
fn ignores_trailing_code_on_the_closing_brace_line() {
        let source = "\
fn sized() {
    let _a = 1;
    let _b = 2;
} fn following() { let _c = 3; }
";

        assert!(
            checks(source, 2).is_empty(),
            "sized measures 2 and following 1; both stay within 2"
        );
        let diags = checks(source, 1);
        assert_eq!(diags.len(), 1, "only sized crosses the budget of 1");
        assert_eq!(diags[0].item_name.as_deref(), Some("sized"));
        assert!(
            diags[0].message.starts_with("fn `sized` has 2 body lines"),
            "the trailing item must not count toward sized: {}",
            diags[0].message
        );
    }

#[test]
fn handles_crlf_line_endings() {
        let source =
            "fn sized() {\r\n    let _a = 1;\r\n    let _b = 2;\r\n    let _c = 3;\r\n}\r\n";

        let diags = checks(source, 2);
        assert_eq!(diags.len(), 1);
        assert!(
            diags[0].message.starts_with("fn `sized` has 3 body lines"),
            "carriage returns are line dressing: {}",
            diags[0].message
        );
    }

#[test]
fn measures_methods_in_impl_blocks() {
        let source = format!(
            "struct T;\nimpl T {{\n    fn sized() {{\n{}}} \n}}\n",
            "        let _v = 1;\n".repeat(3)
        );

        let diags = checks(&source, 2);
        assert_eq!(diags.len(), 1);
        assert_eq!(diags[0].line, 3, "the method's `fn` line");
        assert_eq!(diags[0].item_kind, "fn");
        assert_eq!(diags[0].item_name.as_deref(), Some("sized"));
        assert!(
            diags[0].message.starts_with("fn `sized` has 3 body lines"),
            "{}",
            diags[0].message
        );
    }

#[test]
fn measures_test_functions_like_any_other() {
        let source = format!(
            "#[test]\nfn sized_behavior() {{\n{}}}\n",
            "    let _v = 1;\n".repeat(3)
        );

        let diags = checks(&source, 2);
        assert_eq!(diags.len(), 1);
        assert_eq!(diags[0].line, 2, "the `fn` line, not the attribute");
        assert_eq!(diags[0].item_name.as_deref(), Some("sized_behavior"));
    }

#[test]
fn measures_inner_functions_and_their_enclosing_function() {
        let source = "\
fn outer() {
    let _a = 1;
    fn inner() {
        let _b = 2;
        let _c = 3;
    }
    let _d = 4;
}
";
        // outer measures 6: two own statements, four inner-fn lines.
        // inner measures 2.

        let diags = checks(source, 5);
        assert_eq!(diags.len(), 1, "only outer crosses 5");
        assert_eq!(diags[0].item_name.as_deref(), Some("outer"));
        assert!(
            diags[0].message.starts_with("fn `outer` has 6 body lines"),
            "the inner fn's lines count toward outer: {}",
            diags[0].message
        );

        let diags = checks(source, 1);
        assert_eq!(diags.len(), 2, "both cross 1");
        assert_eq!(
            (diags[0].item_name.as_deref(), diags[1].item_name.as_deref()),
            (Some("outer"), Some("inner")),
            "document order: the enclosing fn first"
        );
    }

#[test]
fn reports_each_oversized_function_in_document_order() {
        let source = format!("{}{}", sized_fn(3), sized_fn(3).replace("sized", "later"));

        let diags = checks(&source, 2);

        assert_eq!(
            diags
                .iter()
                .map(|d| (d.line, d.item_name.as_deref()))
                .collect::<Vec<_>>(),
            vec![(1, Some("sized")), (6, Some("later"))]
        );
    }

#[test]
fn stays_silent_for_an_empty_body() {
    assert!(checks(&sized_fn(0), 1).is_empty());
}

#[test]
fn len001_stays_silent_at_the_threshold() {
    assert!(checks(&sized_fn(2), 2).is_empty());
}

#[test]
fn len001_stays_silent_under_the_threshold() {
    assert!(checks(&sized_fn(1), 500).is_empty());
}

#[test]
fn skips_a_bare_open_brace_at_eof() {
    assert!(checks("fn sized() {", 0).is_empty());
}

#[test]
fn skips_statements_running_into_eof() {
    assert!(checks("fn sized() {\n    let _a = 1;\n    let _b = 2;", 0).is_empty());
}

#[test]
fn message_spells_multi_digit_counts_in_full() {
    let diags = checks(&sized_fn(12), 10);
    assert_eq!(diags.len(), 1);
    assert_eq!(
        diags[0].message,
        "fn `sized` has 12 body lines (blank and comment-only lines excluded),\n\
         over the 10-line budget (method_length.max_lines).\n\
         Why:\n\
         - Long functions can make readers track too much control flow and local state.\n\
         - Named, cohesive steps can help readers follow the flow without tracking every detail.\n\
         Suggestions:\n\
         - Consider extracting cohesive steps into functions named for what they do,\n  \
         so the outer function reads as an overview of the flow.\n\
         - Keep closely related work together. Avoid new types, forwarding wrappers,\n  \
         or a wider public API solely to shorten the body.\n\
         - Preserve behavior and performance. Avoid extra allocations, cloning, or\n  \
         repeated work; measure performance-sensitive changes.\n\
         - Mark extracted functions as `#[inline]` if needed.\n\
         - Inner functions still count toward the enclosing body.\n\
         - Keep the body intact if splitting would make it harder to follow or slower."
    );
}

#[test]
fn comment_markers_inside_strings_are_code() {
    let source = "fn sized() {\n    let _a = \"// not a comment\";\n    let _b = \"/* nor this */\";\n}\n";
    let diags = checks(source, 1);
    assert_eq!(diags.len(), 1);
    assert!(diags[0].message.starts_with("fn `sized` has 2 body lines"));
}
