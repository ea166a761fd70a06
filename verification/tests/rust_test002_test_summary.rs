//! TEST002 over Rust items.
use llm_tidy_lint::parser::parse_rust;
use llm_tidy_lint::rust::items::{source_items, SourceItem};
use llm_tidy_lint::rust::test002_test_summary::check;

/// Parse `source` and return its first item.
fn parse_one(source: &str) -> SourceItem {
    let tree = parse_rust(source).unwrap();
    source_items(&tree, source.as_bytes())
        .into_iter()
        .next()
        .expect("expected at least one item")
}



#[test]
fn test002_test_summary_check_should_emit_the_documented_message_when_the_summary_is_missing() {
        let item = parse_one("#[test]\nfn parses() {}");

        let diags = check(&item);

        assert_eq!(diags.len(), 1);
        assert_eq!(
            diags[0].message,
            "test function `parses` is missing a short explanatory comment above its attributes.\n\n\
             Why: Readers need to understand why this test matters without tracing its body.\n\n\
             Suggestions:\n\
             - Explain the requirement, edge case, or regression the test protects against.\n\
             - Add context rather than restating the test name.\n\
             - Consider Arrange–Act–Assert: setup, action, then assertions, separated by comments."
        );
    }

#[test]
fn check_should_skip_when_the_function_is_not_a_test() {
        let item = parse_one("fn helper() {}");

        assert!(check(&item).is_empty());
    }

#[test]
fn check_should_accept_when_a_comment_opens_the_attribute_block() {
    for source in [
        "/// Verifies the parser.\n#[test]\nfn parses() {}",
        "// Verifies the parser.\n#[test]\nfn parses() {}",
        "/// One.\n/// Two.\n#[test]\nfn parses() {}",
        "/** Verifies the parser. */\n#[test]\nfn parses() {}",
        "/// Old.\n\n// Verifies the parser.\n#[test]\nfn parses() {}",
        "// Verifies the parser.\n#[ignore]\n#[test]\nfn parses() {}",
        "// Verifies the parser.\n#[rstest]\nfn parses() {}",
        "// Verifies the parser.\n#[test_case]\nfn parses() {}",
    ] {
        let item = parse_one(source);
        assert!(check(&item).is_empty(), "a leading comment satisfies TEST002: {source}");
    }
}

#[test]
fn check_should_report_when_no_comment_opens_the_attribute_block() {
    for source in [
        "#[test]\nfn parses() {}",
        "// Verifies the parser.\n\n#[test]\nfn parses() {}",
        "/// Verifies the parser.\n\n#[test]\nfn parses() {}",
        "/** Verifies the parser. */\n\n#[test]\nfn parses() {}",
        "#[test]\n// Verifies the parser.\nfn parses() {}",
        "#[ignore]\n#[test]\nfn parses() {}",
        "#[rstest]\nfn parses() {}",
    ] {
        let item = parse_one(source);
        let diags = check(&item);
        assert_eq!(diags.len(), 1, "expected one TEST002 finding: {source}");
        assert_eq!(diags[0].code, "TEST002");
        assert_eq!(diags[0].title.as_deref(), Some("test missing its summary comment"));
    }
}
