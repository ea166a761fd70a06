//! DOC003 over Rust items.
use llm_tidy_lint::codes::CODE_VAGUE_ERRORS;
use llm_tidy_lint::diagnostic::Severity;
use llm_tidy_lint::parser::parse_rust;
use llm_tidy_lint::rust::doc003_vague_errors::check;
use llm_tidy_lint::rust::items::{source_items, SourceItem};

/// Parse `source` and return its first item.
fn parse_one(source: &str) -> SourceItem {
    let tree = parse_rust(source).unwrap();
    source_items(&tree, source.as_bytes())
        .into_iter()
        .next()
        .expect("expected at least one item")
}



#[test]
fn check_should_request_actual_errors_when_section_has_no_variant_path() {
        let item = parse_one(
            "/// Loads.\n///\n/// # Errors\n///\n/// Returns an error if loading fails.\npub fn load() -> Result<(), String> { Ok(()) }",
        );

        let diags = check(&item);

        assert_eq!(diags.len(), 1);
        assert_eq!(diags[0].code, CODE_VAGUE_ERRORS);
        assert_eq!(diags[0].severity, Severity::Warning);
        assert_eq!(
            diags[0].message,
            "`# Errors` section has no `::` path naming a concrete error variant.\n\n\
             Why: Concrete error names help readers connect failure conditions to handling code.\n\n\
             Suggestions:\n\
             - Document each error the implementation can return and its specific trigger.\n\
             - Use variant paths where they exist.\n\
             - If the error type has no variants or the function cannot fail, document that contract.\n\
             - Do not invent variants or change behavior to silence this warning."
        );
    }

#[test]
fn test_vague_errors_empty_section() {
        let item = parse_one(
            "/// Loads.\n///\n/// # Errors\npub fn load() -> Result<(), String> { Ok(()) }",
        );
        let diags = check(&item);
        assert_eq!(diags.len(), 1);
        assert_eq!(diags[0].code, CODE_VAGUE_ERRORS);
    }

#[test]
fn test_vague_errors_with_variants() {
        let item = parse_one(
            "/// Loads.\n///\n/// # Errors\n///\n/// Returns [Error::NotFound] if missing.\npub fn load() -> Result<(), String> { Ok(()) }",
        );
        assert!(check(&item).is_empty());
    }

#[test]
fn test_vague_errors_no_section_skipped() {
        let item = parse_one("pub fn load() -> Result<(), String> { Ok(()) }");
        assert!(check(&item).is_empty());
    }

#[test]
fn test_vague_errors_generic_link() {
        let item = parse_one(
            "/// Loads.\n///\n/// # Errors\n///\n/// See [the configuration guide].\npub fn load() -> Result<(), String> { Ok(()) }",
        );
        let diags = check(&item);
        assert_eq!(diags.len(), 1);
        assert_eq!(diags[0].code, CODE_VAGUE_ERRORS);
    }
