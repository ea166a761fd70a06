//! MOD002 over Rust sources.
use llm_tidy_lint::codes::CODE_MOD002;
use llm_tidy_lint::diagnostic::{Diagnostic, Severity};
use llm_tidy_lint::parser::parse_rust;
use llm_tidy_lint::rust::mod002_fn_local_use::check;

/// Parses `source` and runs MOD002 over it.
fn checks(source: &str) -> Vec<Diagnostic> {
    check(&parse_rust(source).unwrap(), source.as_bytes())
}

#[test]
fn check_should_explain_hoisting_when_use_is_unguarded() {
        let diags = checks("fn f() {\n    use std::io;\n}\n");

        assert_eq!(diags.len(), 1);
        assert_eq!(diags[0].code, CODE_MOD002);
        assert_eq!(diags[0].severity, Severity::Error);
        assert_eq!(diags[0].line, 2);
        assert_eq!(
            diags[0].message,
            "function-local `use` lacks its own `#[cfg]`.\n\
             - Hoist it to module scope so dependencies are easy to find.\n\
             - Keep it local only if it needs conditional compilation, \
             with `#[cfg]` on the `use`."
        );
    }

#[test]
fn guarded_fn_local_use_stays_quiet() {
        assert!(checks("fn f() {\n    #[cfg(unix)]\n    use std::os::unix::fs;\n}\n").is_empty());
    }

#[test]
fn enclosing_cfg_and_cfg_attr_do_not_exempt_the_use() {
        let cfg_fn = "#[cfg(unix)]\nfn f() {\n    use std::os::unix::fs;\n}\n";
        assert_eq!(checks(cfg_fn).len(), 1);
        let cfg_attr = "fn f() {\n    #[cfg_attr(unix, allow(unused))]\n    use std::io;\n}\n";
        assert_eq!(checks(cfg_attr).len(), 1);
    }

#[test]
fn module_level_use_stays_quiet() {
        assert!(
            checks("use std::io;\n#[cfg(unix)]\nuse std::os::unix::fs;\nfn f() {}\n").is_empty()
        );
    }

#[test]
fn nested_block_and_closure_uses_error() {
        let source = "fn f() {\n    let g = || {\n        use std::io;\n    };\n    {\n        use std::fmt;\n    }\n    let _ = g;\n}\n";
        let diags = checks(source);
        assert_eq!(diags.len(), 2);
        assert_eq!(diags[0].line, 3);
        assert_eq!(diags[1].line, 6);
    }

#[test]
fn test_functions_are_not_exempt() {
        let test_fn = "#[test]\nfn t() {\n    use std::io;\n}\n";
        assert_eq!(checks(test_fn).len(), 1);
        let cfg_test_fn = "#[cfg(test)]\nfn t() {\n    use std::io;\n}\n";
        assert_eq!(checks(cfg_test_fn).len(), 1);
    }

#[test]
fn inner_function_use_errors_once() {
        let source =
            "fn outer() {\n    fn inner() {\n        use std::io;\n    }\n    inner();\n}\n";
        assert_eq!(checks(source).len(), 1);
    }

#[test]
fn cfg_among_several_attributes_still_guards() {
    let source = "fn f() {\n    #[cfg(unix)]\n    #[allow(unused)]\n    use std::io;\n}\n";
    assert!(checks(source).is_empty());
}

#[test]
fn scoped_attribute_named_cfg_does_not_guard() {
    let source = "fn f() {\n    #[foo::cfg]\n    use std::io;\n}\n";
    let diags = checks(source);
    assert_eq!(diags.len(), 1);
    assert_eq!(diags[0].item_kind, "use");
    assert_eq!(diags[0].item_name, None);
}
