//! DOC010 over Rust items.
use llm_tidy_lint::codes::CODE_SECTION_ORDER;
use llm_tidy_lint::diagnostic::{Diagnostic, Severity};
use llm_tidy_lint::parser::parse_rust;
use llm_tidy_lint::rust::doc010_section_order::{canonical_header, check, CANONICAL_ORDER};
use llm_tidy_lint::rust::items::{source_items, SourceItem};

/// Parse `source` and return its first item.
fn parse_one(source: &str) -> SourceItem {
    let tree = parse_rust(source).unwrap();
    source_items(&tree, source.as_bytes())
        .into_iter()
        .next()
        .expect("expected at least one item")
}

fn documented_fn(sections: &str) -> String {
        format!("/// Loads.\n///\n{sections}\npub fn load() {{}}\n")
    }

fn lint(source: &str) -> Vec<Diagnostic> {
        check(&parse_one(source))
    }

#[test]
fn check_should_report_offending_pair_when_errors_precedes_arguments() {
        let source = documented_fn(
            "/// # Errors\n///\n/// Fails sometimes.\n///\n/// # Arguments\n///\n/// - none",
        );

        let diags = lint(&source);

        assert_eq!(diags.len(), 1);
        assert_eq!(diags[0].code, CODE_SECTION_ORDER);
        assert_eq!(diags[0].severity, Severity::Error);
        assert_eq!(diags[0].line, parse_one(&source).start_line());
        assert_eq!(
            diags[0].message,
            "sections out of canonical order: found `# Errors` before `# Arguments`.\n\n\
             Why: A consistent section order is easier for the reader to review.\n\n\
             Suggestions:\n\
             - Move the sections into canonical order: `# Arguments`, `# Returns`, \
             `# Examples`, `# Errors`, `# Panics`, `# Safety`, `# Remarks`."
        );
    }

#[test]
fn check_should_stay_silent_when_sections_in_canonical_order() {
        let source = documented_fn(
            "/// # Arguments\n///\n/// - none\n///\n/// # Returns\n///\n/// Nothing.\n///\n\
             /// # Examples\n///\n/// Nothing.\n///\n/// # Errors\n///\n/// Never.\n///\n\
             /// # Panics\n///\n/// Never.\n///\n/// # Safety\n///\n/// Safe.\n///\n\
             /// # Remarks\n///\n/// None.",
        );
        assert!(lint(&source).is_empty());
    }

#[test]
fn check_should_stay_silent_when_optional_sections_are_ordered() {
        let source = documented_fn(
            "/// # Errors\n///\n/// Fails sometimes.\n///\n/// # Remarks\n///\n/// None.",
        );
        assert!(lint(&source).is_empty());
    }

#[test]
fn check_should_use_alias_rank_when_comparing_sections() {
        // `# Params` (rank 1) before `# Errors` (rank 4): ordered.
        let source =
            documented_fn("/// # Params\n///\n/// - none\n///\n/// # Errors\n///\n/// Fails.");
        assert!(lint(&source).is_empty());

        // `# Errors` before `# Params`: fires, reporting the canonical name.
        let source =
            documented_fn("/// # Errors\n///\n/// Fails.\n///\n/// # Params\n///\n/// - none");
        let diags = lint(&source);
        assert_eq!(diags.len(), 1);
        assert!(diags[0].message.starts_with(
            "sections out of canonical order: found `# Errors` before `# Arguments`."
        ));
    }

#[test]
fn check_should_stay_silent_when_section_repeats() {
        let source = documented_fn(
            "/// # Errors\n///\n/// Fails.\n///\n/// # Errors\n///\n/// Fails again.",
        );
        assert!(lint(&source).is_empty());
    }

#[test]
fn check_should_stay_silent_when_unknown_header_lies_between_sections() {
        let source =
            documented_fn("/// # Errors\n///\n/// Fails.\n///\n/// # Ordering\n///\n/// Whatever.");
        assert!(lint(&source).is_empty());
    }

#[test]
fn check_should_stay_silent_when_item_is_private() {
        let source =
            "/// # Errors\n///\n/// Fails.\n///\n/// # Arguments\n///\n/// - none\nfn load() {}\n";
        assert!(lint(source).is_empty());
    }

#[test]
fn check_should_fire_when_pub_struct_docs_are_out_of_order() {
        let source = "/// A record.\n///\n/// # Remarks\n///\n/// None.\n///\n/// # Examples\n///\n/// None.\npub struct Record;\n";
        let diags = lint(source);
        assert_eq!(diags.len(), 1);
        assert!(diags[0].message.starts_with(
            "sections out of canonical order: found `# Remarks` before `# Examples`."
        ));
    }

#[test]
fn check_should_fire_when_headers_differ_only_in_case() {
        let source =
            documented_fn("/// # ERRORS\n///\n/// Fails.\n///\n/// # arguments\n///\n/// - none");
        assert_eq!(lint(&source).len(), 1);
    }

#[test]
fn check_should_stay_silent_when_only_one_section_present() {
        let source = documented_fn("/// # Errors\n///\n/// Fails sometimes.");
        assert!(lint(&source).is_empty());
    }

#[test]
fn doc010_section_order_canonical_order_should_list_all_ranks_in_rank_order() {
        let derived = format!(
            "`{}`",
            (1u8..=7)
                .map(canonical_header)
                .collect::<Vec<_>>()
                .join("`, `")
        );
        assert_eq!(CANONICAL_ORDER, derived);
    }
