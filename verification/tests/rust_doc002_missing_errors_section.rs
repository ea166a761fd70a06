//! DOC002 over Rust items.
use llm_tidy_lint::codes::CODE_MISSING_ERRORS;
use llm_tidy_lint::parser::parse_rust;
use llm_tidy_lint::rust::doc002_missing_errors_section::check;
use llm_tidy_lint::rust::items::{source_items, SourceItem};

/// Parse `source` and return its first item.
fn parse_one(source: &str) -> SourceItem {
    let tree = parse_rust(source).unwrap();
    source_items(&tree, source.as_bytes())
        .into_iter()
        .next()
        .expect("expected at least one item")
}



#[test]
fn check_should_request_actual_error_contract_when_section_is_missing() {
        let item = parse_one("pub fn load() -> Result<(), String> { Ok(()) }");

        let diags = check(&item);

        assert_eq!(diags.len(), 1);
        assert_eq!(diags[0].code, CODE_MISSING_ERRORS);
        assert_eq!(
            diags[0].message,
            "pub fn returning Result is missing a `# Errors` doc section.\n\n\
             Why: Readers need to understand possible failures and when they occur.\n\n\
             Suggestions:\n\
             - Add a `# Errors` section describing each error the implementation can return and its specific trigger.\n\
             - If it cannot return an error, say so.\n\
             - Do not invent errors or change behavior to satisfy this lint."
        );
    }

#[test]
fn test_missing_errors_has_section() {
        let item = parse_one(
            "/// Loads a file.\n///\n/// # Errors\n///\n/// Returns nothing.\npub fn load() -> Result<(), String> { Ok(()) }",
        );
        assert!(check(&item).is_empty());
    }

#[test]
fn test_missing_errors_lowercase_header() {
        let item = parse_one(
            "/// Loads a file.\n///\n/// # errors\n///\n/// Returns nothing.\npub fn load() -> Result<(), String> { Ok(()) }",
        );
        assert!(check(&item).is_empty());
    }

#[test]
fn test_missing_errors_not_result() {
        let item = parse_one("pub fn load() -> u32 { 0 }");
        assert!(check(&item).is_empty());
    }

#[test]
fn test_missing_errors_private_skipped() {
        let item = parse_one("fn load() -> Result<(), String> { Ok(()) }");
        assert!(check(&item).is_empty());
    }
