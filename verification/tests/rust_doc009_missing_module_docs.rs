//! DOC009 over Rust sources.
use llm_tidy_lint::codes::CODE_MISSING_MODULE_DOCS;
use llm_tidy_lint::diagnostic::{Diagnostic, Severity};
use llm_tidy_lint::parser::parse_rust;
use llm_tidy_lint::rust::doc009_missing_module_docs::check;

/// Run the DOC009 rule over `source`.
fn lint(source: &str) -> Vec<Diagnostic> {
    check(&parse_rust(source).unwrap(), source.as_bytes())
}

#[test]
fn fires_when_items_have_no_module_docs() {
        let diags = lint("pub fn load() {}\n");

        assert_eq!(diags.len(), 1);
        assert_eq!(diags[0].code, CODE_MISSING_MODULE_DOCS);
        assert_eq!(diags[0].severity, Severity::Error);
        assert_eq!(diags[0].line, 1);
        assert_eq!(diags[0].item_kind, "file");
        assert_eq!(diags[0].item_name, None);
        assert!(
            diags[0]
                .message
                .starts_with("module file is missing `//!` module docs.\n\nWhy:")
        );
        assert!(diags[0].message.contains("\n\nSuggestions:\n"));
        assert!(
            diags[0]
                .message
                .contains("- Add `//!` docs before the first top-level item.")
        );
    }

#[test]
fn fires_when_only_outer_docs_on_first_item() {
        let diags = lint("/// Loads the thing.\npub fn load() {}\n");
        assert_eq!(diags.len(), 1);
    }

#[test]
fn silent_when_preamble_carries_module_docs() {
        assert!(lint("//! Loads records.\npub fn load() {}\n").is_empty());
    }

#[test]
fn silent_when_module_docs_follow_inner_attributes() {
        let source = "#![allow(dead_code)]\n//! Loads records.\npub fn load() {}\n";
        assert!(lint(source).is_empty());
    }

#[test]
fn silent_when_file_has_no_items() {
        let source = "// Only a comment.\n#![allow(dead_code)]\n";
        assert!(lint(source).is_empty());
    }

#[test]
fn fires_when_module_doc_lookalike_follows_first_item() {
        let source = "fn a() {}\n//! lookalike\nfn b() {}\n";
        assert_eq!(lint(source).len(), 1);
    }

#[test]
fn silent_when_module_doc_line_is_indented() {
        let source = "    //! Loads records.\npub fn load() {}\n";
        assert!(lint(source).is_empty());
    }

#[test]
fn fires_when_lookalike_sits_inside_plain_comment() {
        let source = "// //! not a module doc\npub fn load() {}\n";
        assert_eq!(lint(source).len(), 1);
    }

#[test]
fn silent_when_syntax_is_malformed() {
        let source = "pub fn load() {}\nfn broken( {}\n";
        assert!(lint(source).is_empty());
    }

#[test]
fn fires_when_doc_attribute_carries_module_doc_text() {
        let source = "#![doc = \"//! Loads records.\"]\npub fn load() {}\n";
        assert_eq!(lint(source).len(), 1);
    }

#[test]
fn message_carries_the_header_guidance_verbatim() {
    let diags = lint("pub fn load() {}\n");
    assert_eq!(diags.len(), 1);
    assert_eq!(
        diags[0].message,
        "module file is missing `//!` module docs.\n\n\
         Why: A purpose-first header helps readers understand the module\n\
         without reading its implementation.\n\n\
         Suggestions:\n\
         - Read the module and relevant callers; document only supported facts.\n\
         - Start with one concise sentence explaining what the module does and why.\n  \
         Do not just restate its name. A simple module needs no more.\n\
         - If more detail is useful, put it below the summary, separated by a blank doc line.\n\
         - Use that detail to outline major responsibilities, entry points, or non-obvious constraints.\n\
         - Use bullets for multiple topics.\n\
         - Link to item docs instead of repeating their details.\n\
         - Add `//!` docs before the first top-level item.\n\
         - For a module root (`mod.rs`, or `foo.rs` with child modules), identify\n  \
         main entry points and relevant child-module responsibilities.\n\
         - Keep this change to header writing; do not move code."
    );
    assert_eq!(diags[0].title.as_deref(), Some("module file without top-level docs"));
}

#[test]
fn silent_when_a_use_item_follows_module_docs() {
    assert!(lint("//! Re-exports.\nuse std::fmt;\n").is_empty());
    assert_eq!(lint("use std::fmt;\n").len(), 1);
}
