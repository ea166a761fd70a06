//! DOC008 over Rust items.
use llm_tidy_lint::codes::CODE_ERROR_VARIANT_ORDER;
use llm_tidy_lint::diagnostic::{Diagnostic, Severity};
use llm_tidy_lint::parser::parse_rust;
use llm_tidy_lint::rust::doc008_error_variant_order::check;
use llm_tidy_lint::rust::items::{source_items, top_level_enum_names, SourceItem};

/// Parse `source` and return its first item.
fn parse_one(source: &str) -> SourceItem {
    let tree = parse_rust(source).unwrap();
    source_items(&tree, source.as_bytes())
        .into_iter()
        .next()
        .expect("expected at least one item")
}

/// Run the DOC008 rule over every item of `source`.
fn lint(source: &str) -> Vec<Diagnostic> {
    let tree = parse_rust(source).unwrap();
    let items = source_items(&tree, source.as_bytes());
    let enum_names = top_level_enum_names(&items);
    items.iter().flat_map(|item| check(item, &enum_names)).collect()
}

fn documented_fn(errors_body: &str) -> String {
        format!(
            "/// Doc.\npub enum Error {{ NotFound, Denied }}\n/// Loads.\n///\n/// # Errors\n///\n{errors_body}\npub fn load() -> Result<(), Error> {{ Ok(()) }}\n"
        )
    }

#[test]
fn fires_when_variants_out_of_order() {
        let source = documented_fn("/// Returns [Error::NotFound] then [Error::Denied].");
        let diags = lint(&source);
        assert_eq!(diags.len(), 1);
        assert_eq!(diags[0].code, CODE_ERROR_VARIANT_ORDER);
        assert_eq!(diags[0].severity, Severity::Error);
        assert!(diags[0].message.contains("Error"));
    }

#[test]
fn silent_when_variants_alphabetical() {
        let source = documented_fn("/// Returns [Error::Denied] then [Error::NotFound].");
        assert!(lint(&source).is_empty());

        // Non-decreasing: a repeated variant does not break the order.
        let source = documented_fn("/// Returns [Error::Denied] then [Error::Denied].");
        assert!(lint(&source).is_empty());
    }

#[test]
fn silent_when_error_type_out_of_crate() {
        let source = "\
/// Doc.\npub enum Other {{ A, B }}\n\
/// Loads.\n\
///\n/// # Errors\n///\n\
/// Returns [Error::B] then [Error::A].\n\
pub fn load() -> Result<(), std::io::Error> { Ok(()) }\n";
        assert!(lint(source).is_empty());
    }

#[test]
fn silent_when_error_type_is_not_an_enum() {
        let source = "\
/// Doc.\npub struct Wrapper;\n\
/// Loads.\n\
///\n/// # Errors\n///\n\
/// Returns [Wrapper::B] then [Wrapper::A].\n\
pub fn load() -> Result<(), Wrapper> { Ok(()) }\n";
        assert!(lint(source).is_empty());
    }

#[test]
fn fires_when_path_qualified_links_out_of_order() {
        let source =
            documented_fn("/// Returns [crate::Error::NotFound] then [crate::Error::Denied].");
        assert_eq!(lint(&source).len(), 1);
    }

#[test]
fn ignores_prose_and_other_enum_links() {
        let source = documented_fn(
            "/// Fails hard sometimes.\n/// See [Other::Z] for context.\n/// Returns [Error::Denied] then [Error::NotFound].",
        );
        // The two participating links are alphabetical -> silent.
        assert!(lint(&source).is_empty());

        let source = documented_fn(
            "/// Returns [Error::NotFound].\n/// See [Other::A] between.\n/// Then [Error::Denied].",
        );
        assert_eq!(lint(&source).len(), 1);
    }

#[test]
fn fires_when_backticked_links_out_of_order() {
        let source = documented_fn("/// Returns [`Error::NotFound`] then [`Error::Denied`].");
        assert_eq!(lint(&source).len(), 1);
    }

#[test]
fn silent_when_backticked_and_plain_links_alphabetical() {
        let source = documented_fn("/// Returns [`crate::Error::Denied`] then [Error::Denied].");
        assert!(lint(&source).is_empty());
    }

#[test]
fn silent_when_no_variant_links() {
        let source = documented_fn("/// Returns an error if loading fails.");
        assert!(lint(&source).is_empty());
    }
