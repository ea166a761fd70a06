//! DOC011 over Rust items.
use llm_tidy_lint::codes::CODE_MISSING_RETURNS;
use llm_tidy_lint::diagnostic::Severity;
use llm_tidy_lint::parser::parse_rust;
use llm_tidy_lint::rust::doc011_missing_returns::{check, BOOL_MESSAGE, VALUE_MESSAGE};
use llm_tidy_lint::rust::items::{source_items, SourceItem};

/// Parse `source` and return its first item.
fn parse_one(source: &str) -> SourceItem {
    let tree = parse_rust(source).unwrap();
    source_items(&tree, source.as_bytes())
        .into_iter()
        .next()
        .expect("expected at least one item")
}



#[test]
fn check_should_warn_when_value_fn_has_no_returns_section() {
        let item = parse_one("/// Doubles.\npub fn double(x: u32) -> u32 { x * 2 }");

        let diags = check(&item);

        assert_eq!(diags.len(), 1);
        assert_eq!(diags[0].code, CODE_MISSING_RETURNS);
        assert_eq!(diags[0].severity, Severity::Warning);
        assert_eq!(diags[0].message, VALUE_MESSAGE);
    }

#[test]
fn check_should_remind_when_bool_fn_has_no_returns_section() {
        let item =
            parse_one("/// Checks emptiness.\npub fn is_empty(s: &str) -> bool { s.is_empty() }");

        let diags = check(&item);

        assert_eq!(diags.len(), 1);
        assert_eq!(diags[0].severity, Severity::Reminder);
        assert_eq!(diags[0].message, BOOL_MESSAGE);
    }

#[test]
fn test_missing_returns_rejects_unknown_header() {
        let item = parse_one(
            "/// Doubles.\n///\n/// # Output\n///\n/// The doubled value.\npub fn double() -> u32 { 2 }",
        );

        assert_eq!(
            check(&item).len(),
            1,
            "`# Output` is not a recognized returns header"
        );
    }

#[test]
fn test_missing_returns_skips_result_unit() {
        let item = parse_one(
            "/// Docs.\n///\n/// # Errors\n///\n/// Fails always.\npub fn fallible() -> Result<(), String> { Err(String::new()) }",
        );

        assert!(check(&item).is_empty());
    }

#[test]
fn check_should_stay_quiet_for_each_returns_header_variant() {
    for header in ["# Returns", "# Return", "# returns", "# RETURNS", "# rEtUrN"] {
        let source = format!(
            "/// Doubles.\n///\n/// {header}\n///\n/// The doubled value.\npub fn double() -> u32 {{ 2 }}"
        );
        let item = parse_one(&source);
        assert!(check(&item).is_empty(), "header `{header}` should suppress DOC011");
    }
}

#[test]
fn check_should_stay_quiet_for_trivial_return_kinds() {
    for source in [
        "/// Docs.\npub fn unit() {}",
        "/// Docs.\npub fn unit_explicit() -> () {}",
        "/// Docs.\npub fn never() -> ! { loop {} }",
    ] {
        let item = parse_one(source);
        assert!(check(&item).is_empty(), "trivial return should stay DOC011-quiet: {source}");
    }
}

#[test]
fn check_should_stay_quiet_for_non_public_fns() {
    for source in ["/// Docs.\nfn private() -> u32 { 2 }", "/// Docs.\npub(crate) fn restricted() -> u32 { 2 }"] {
        let item = parse_one(source);
        assert!(check(&item).is_empty(), "non-pub fn should be skipped: {source}");
    }
}

#[test]
fn check_should_title_and_locate_the_finding() {
    let item = parse_one("\n\n/// Doubles.\npub fn double(x: u32) -> u32 { x * 2 }");
    let diags = check(&item);
    assert_eq!(diags.len(), 1);
    assert_eq!(diags[0].title.as_deref(), Some("missing `# Returns` section"));
    assert_eq!(diags[0].line, 4);
    assert_eq!(diags[0].item_kind, "fn");
    assert_eq!(diags[0].item_name.as_deref(), Some("double"));
}
