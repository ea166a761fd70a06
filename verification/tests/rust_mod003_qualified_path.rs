//! MOD003 over Rust sources, with explicit roots.
use llm_tidy_lint::codes::CODE_QUALIFIED_PATH;
use llm_tidy_lint::diagnostic::{Diagnostic, Severity};
use llm_tidy_lint::parser::parse_rust;
use llm_tidy_lint::rust::mod003_qualified_path::check;

/// Run MOD003 over a parse of `source`.
fn lint(source: &str) -> Vec<Diagnostic> {
    let tree = parse_rust(source).unwrap();
    check(&tree, source.as_bytes())
}

#[test]
fn mod_check_should_not_advise_import_when_guarded_import_exists() {
        let diagnostics =
            lint("#[cfg(unix)] use std::sync::Arc;\nfn f() { std::sync::Arc::new(1); }");

        assert!(diagnostics.is_empty());
    }

#[test]
fn mod_fires_when_fully_qualified_path_is_already_imported() {
        let diags = lint(
            "use std::collections::HashMap;\n\
             fn f() -> std::collections::HashMap {\n\
             Default::default()\n\
             }\n",
        );

        assert_eq!(diags.len(), 1);
        assert_eq!(diags[0].code, CODE_QUALIFIED_PATH);
        assert_eq!(diags[0].severity, Severity::Hint);
        assert_eq!(diags[0].line, 2);
        assert_eq!(diags[0].item_kind, "fn");
        assert_eq!(diags[0].item_name.as_deref(), Some("f"));
        assert!(diags[0].message.contains("`std::collections::HashMap`"));
        assert!(diags[0].message.contains("`HashMap` is already imported"));
    }

#[test]
fn mod_self_in_a_group_binds_the_group_prefix() {
        let diags = lint(
            "use crate::a::b::{self};\n\
             fn f() {\n\
             let _ = crate::a::b;\n\
             }\n",
        );

        assert_eq!(diags.len(), 1);
        assert!(diags[0].message.contains("`b` is already imported"));
    }

#[test]
fn mod_fires_for_each_member_of_a_grouped_import() {
        let diags = lint(
            "use crate::a::b::{C, D};\n\
             fn f() {\n\
             let _ = (crate::a::b::C, crate::a::b::D);\n\
             }\n",
        );

        assert_eq!(diags.len(), 2);
        assert!(diags[0].message.contains("`C`"));
        assert!(diags[1].message.contains("`D`"));
    }

#[test]
fn mod_fires_with_the_alias_when_import_renames() {
        let diags = lint(
            "use crate::a::b::E as F;\n\
             fn f() {\n\
             let _ = crate::a::b::E;\n\
             }\n",
        );

        assert_eq!(diags.len(), 1);
        assert!(diags[0].message.contains("`crate::a::b::E`"));
        assert!(diags[0].message.contains("`F` is already imported"));
    }

#[test]
fn mod_fires_in_nested_modules_under_a_top_level_import() {
        let diags = lint(
            "use crate::a::b::C;\n\
             mod tests {\n\
             fn t() {\n\
             let _ = crate::a::b::C;\n\
             }\n\
             }\n",
        );

        assert_eq!(diags.len(), 1);
        assert!(diags[0].message.contains("`C` is already imported"));
    }

#[test]
fn mod_check_should_suggest_import_when_existing_import_is_out_of_scope() {
        let diags = lint(
            "mod inner {\n\
             pub use crate::a::b::C;\n\
             }\n\
             fn f() {\n\
             crate::a::b::C;\n\
             }\n",
        );

        assert_eq!(diags.len(), 1);
        assert!(diags[0].message.contains("add `use crate::a::b::C;`"));
    }

#[test]
fn mod_check_should_apply_import_advice_when_use_follows_the_occurrence() {
        let diags = lint("fn f() { std::sync::Arc::new(1); }\nuse std::sync::Arc;");

        assert_eq!(diags.len(), 1);
        assert!(diags[0].message.contains("`Arc` is already imported"));
        assert!(!diags[0].message.contains("Add `use"));
    }

#[test]
fn mod_check_should_hint_at_every_occurrence() {
        let diags = lint(
            "fn f() {\n\
             std::mem::drop(1);\n\
             std::mem::drop(2);\n\
             std::mem::drop(3);\n\
             }\n",
        );

        assert_eq!(diags.len(), 3);
        assert_eq!(diags[0].severity, Severity::Hint);
        assert_eq!(diags[0].line, 2);
        assert_eq!(diags[0].item_kind, "fn");
        assert_eq!(diags[0].item_name.as_deref(), Some("f"));
        assert!(diags[0].message.contains("`std::mem::drop`"));
        assert!(diags[0].message.contains("use `drop`"));
        assert!(diags[0].message.contains("use std::mem::drop;"));
    }

#[test]
fn mod_repeated_associated_item_chain_advises_the_importable_prefix() {
        let diags = lint(
            "fn f() {\n\
             std::sync::Arc::new(1);\n\
             std::sync::Arc::new(2);\n\
             std::sync::Arc::new(3);\n\
             }\n",
        );

        assert_eq!(diags.len(), 3);
        assert!(diags[0].message.contains("`std::sync::Arc::new`"));
        assert!(diags[0].message.contains("use std::sync::Arc;"));
        assert!(!diags[0].message.contains("use std::sync::Arc::new;"));
    }

#[test]
fn mod_silent_inside_macro_invocation_and_definition_spans() {
        let diags = lint(
            "use log::debug;\n\
             macro_rules! probe {\n\
             () => {\n\
             std::old::Thing::x();\n\
             };\n\
             }\n\
             fn f() {\n\
             log::debug!(\"a\");\n\
             log::debug!(\"b\");\n\
             log::debug!(\"c\");\n\
             }\n",
        );

        assert!(diags.is_empty());
    }

#[test]
fn mod_silent_inside_attribute_spans() {
        let diags = lint(
            "#[std::old::marker::Probe]\n\
             fn a() {}\n\
             #[std::old::marker::Probe]\n\
             fn b() {}\n\
             #[std::old::marker::Probe]\n\
             fn c() {}\n",
        );

        assert!(diags.is_empty());
    }

#[test]
fn mod_use_declaration_text_is_never_flagged() {
        let diags = lint(
            "use std::collections::HashMap;\n\
             use crate::a::b::{C, D};\n\
             use crate::a::b::E as F;\n",
        );

        assert!(diags.is_empty());
    }

#[test]
fn mod_silent_when_short_name_is_shadowed_by_a_local_binding() {
        let diags = lint(
            "use crate::a::b::C;\n\
             fn f(C: u8) {\n\
             let _ = crate::a::b::C;\n\
             }\n\
             fn g() {\n\
             let C = 1;\n\
             let _ = crate::a::b::C;\n\
             }\n",
        );

        assert!(diags.is_empty());
    }

#[test]
fn mod_silent_when_short_name_is_shadowed_by_a_same_named_item() {
        let diags = lint(
            "use crate::a::b::C;\n\
             struct C;\n\
             fn f() {\n\
             let _ = crate::a::b::C;\n\
             }\n",
        );

        assert!(diags.is_empty());
    }

#[test]
fn mod_silent_when_a_top_level_function_shares_the_short_name() {
        let diags = lint(
            "fn probe() {}\n\
             fn f() {\n\
             let _ = crate::x::probe;\n\
             let _ = crate::x::probe;\n\
             let _ = crate::x::probe;\n\
             }\n",
        );

        assert!(diags.is_empty());
    }

#[test]
fn mod_silent_when_a_top_level_item_shares_the_advised_import_name() {
        let diags = lint(
            "struct Arc;\n\
             fn f() {\n\
             std::sync::Arc::new(1);\n\
             std::sync::Arc::new(2);\n\
             std::sync::Arc::new(3);\n\
             }\n",
        );

        assert!(diags.is_empty());
    }

#[test]
fn mod_fires_before_and_suppresses_after_a_shadowing_let() {
        let diags = lint(
            "use crate::a::b::C;\n\
             fn g() {\n\
             let _ = crate::a::b::C;\n\
             let C = 1;\n\
             let _ = crate::a::b::C;\n\
             }\n",
        );

        assert_eq!(diags.len(), 1);
        assert_eq!(diags[0].line, 3);
        assert!(diags[0].message.contains("`C` is already imported"));
    }

#[test]
fn mod_silent_when_short_name_is_shadowed_by_an_if_let_pattern() {
        let diags = lint(
            "use crate::a::b::C;\n\
             fn g() {\n\
             if let C = 1 {}\n\
             let _ = crate::a::b::C;\n\
             }\n",
        );

        assert!(diags.is_empty());
    }

#[test]
fn mod_silent_when_short_name_is_shadowed_by_a_destructuring_let() {
        let diags = lint(
            "use crate::a::b::C;\n\
             fn g() {\n\
             let (d, C) = (1, 2);\n\
             let _ = crate::a::b::C;\n\
             }\n",
        );

        assert!(diags.is_empty());
    }

#[test]
fn mod_silent_when_short_name_is_shadowed_by_a_loop_pattern() {
        let diags = lint(
            "use crate::a::b::C;\n\
             fn g() {\n\
             for C in 0..1 {\n\
             let _ = crate::a::b::C;\n\
             }\n\
             }\n",
        );

        assert!(diags.is_empty());
    }

#[test]
fn mod_silent_when_short_name_is_shadowed_by_a_closure_parameter() {
        let diags = lint(
            "use crate::a::b::C;\n\
             fn g() {\n\
             let h = |C| crate::a::b::C;\n\
             }\n",
        );

        assert!(diags.is_empty());
    }

#[test]
fn mod_silent_when_short_name_is_shadowed_by_a_match_arm_pattern() {
        let diags = lint(
            "use crate::a::b::C;\n\
             fn g() {\n\
             match 1 {\n\
             C => crate::a::b::C,\n\
             _ => 2,\n\
             };\n\
             }\n",
        );

        assert!(diags.is_empty());
    }

#[test]
fn mod_check_should_suppress_advice_when_covering_import_is_shadowed() {
        let diags = lint(
            "use std::sync::Arc;\n\
             fn f(Arc: u8) {\n\
             let _ = std::sync::Arc::new(1);\n\
             let _ = std::sync::Arc::new(2);\n\
             let _ = std::sync::Arc::new(3);\n\
             }\n",
        );

        assert!(diags.is_empty());
    }

#[test]
fn mod_one_segment_imports_never_cover_a_path() {
        let diags = lint(
            "use std;\n\
             fn f() {\n\
             std::mem::drop(1);\n\
             }\n",
        );

        assert_eq!(diags.len(), 1);
        assert!(diags[0].message.contains("add `use std::mem::drop;`"));
    }

#[test]
fn mod_silent_when_short_name_is_ambiguous_across_imports() {
        let diags = lint(
            "use crate::a::X;\n\
             use crate::b::X;\n\
             fn f() {\n\
             let _ = crate::a::X;\n\
             let _ = crate::a::X;\n\
             let _ = crate::a::X;\n\
             }\n",
        );

        assert!(diags.is_empty());
    }

#[test]
fn mod_check_should_suggest_explicit_import_when_only_glob_exists() {
        let diags = lint(
            "use ::a::b::*;\n\
             fn f() {\n\
             let _ = ::a::b::C;\n\
             }\n",
        );

        assert_eq!(diags.len(), 1);
        assert!(diags[0].message.contains("add `use ::a::b::C;`"));
    }

#[test]
fn mod_check_should_order_hints_by_occurrence() {
        let diags = lint(
            "fn f() {\n\
             std::mem::drop(1);\n\
             std::mem::drop(2);\n\
             std::mem::drop(3);\n\
             std::io::copy(&mut a, &mut b);\n\
             std::io::copy(&mut a, &mut b);\n\
             std::io::copy(&mut a, &mut b);\n\
             }\n",
        );

        assert_eq!(diags.len(), 6);
        assert!(diags[0].message.contains("`std::mem::drop`"));
        assert!(diags[3].message.contains("`std::io::copy`"));
        assert!(diags[0].line < diags[1].line);
    }

#[test]
fn mod_check_should_order_same_line_hints_by_occurrence() {
        let diags = lint(
            "fn f(mut a: u8, mut b: u8) {\n\
             let _ = (std::mem::drop(&a), std::io::copy(&mut a, &mut b));\n\
             let _ = (std::mem::drop(&a), std::io::copy(&mut a, &mut b));\n\
             let _ = (std::mem::drop(&a), std::io::copy(&mut a, &mut b));\n\
             }\n",
        );

        assert_eq!(diags.len(), 6);
        assert_eq!(diags[0].line, 2);
        assert_eq!(diags[1].line, 2);
        assert!(diags[0].message.contains("`std::mem::drop`"));
        assert!(diags[1].message.contains("`std::io::copy`"));
    }

#[test]
fn mod_silent_for_paths_without_a_rooted_first_segment() {
        let diags = lint(
            "enum Error { X }\n\
             fn f() {\n\
             let _ = Error::X;\n\
             let _ = Error::X;\n\
             let _ = Error::X;\n\
             }\n",
        );

        assert!(diags.is_empty());
    }

fn explained(path: &str, advice: &str) -> String {
    format!(
        "path `{path}` includes the full namespace.\n\
         - Shorten with imports only if the meaning remains clear at the call site.\n\
         {advice}\n\
         - Import a parent module if the bare name loses context: for example, import `std::process` and use `process::id()`, not `id()`.\n\
         - Keep the full path if shortening would reduce clarity or create a name conflict."
    )
}

fn assert_explains(source: &str, path: &str, advice: &str) {
    let diagnostics = lint(source);
    assert_eq!(diagnostics.len(), 1);
    assert_eq!(diagnostics[0].severity, Severity::Hint);
    assert_eq!(diagnostics[0].message, explained(path, advice));
}

#[test]
fn check_should_explain_first_occurrence_absolute_crate_import() {
    assert_explains(
        "use ::std; fn f() { ::std::sync::Arc::new(1); }",
        "::std::sync::Arc::new",
        "- If clear at the call site, add `use ::std::sync::Arc;` at module scope and use `Arc::new`.",
    );
}

#[test]
fn check_should_explain_first_occurrence_mixed_full_and_partial() {
    assert_explains(
        "use std::fs; fn f() { std::fs::create_dir_all(\"a\"); fs::create_dir_all(\"b\"); }",
        "std::fs::create_dir_all",
        "- If clear at the call site, use `fs::create_dir_all`; `fs` is already imported.",
    );
}

#[test]
fn check_should_explain_first_occurrence_process_id_missing() {
    assert_explains(
        "fn f() { std::process::id(); }",
        "std::process::id",
        "- If clear at the call site, add `use std::process::id;` at module scope and use `id`.",
    );
}

#[test]
fn check_should_explain_first_occurrence_process_id_imported() {
    assert_explains(
        "use std::process::id; fn f() { std::process::id(); }",
        "std::process::id",
        "- If clear at the call site, use `id`; `id` is already imported.",
    );
}
