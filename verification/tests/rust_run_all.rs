//! Every Rust rule over one file, in order.
use llm_tidy_lint::parser::parse_rust;
use llm_tidy_lint::rust::run_all;

fn codes(source: &str) -> Vec<&'static str> {
    let tree = parse_rust(source).unwrap();
    run_all(&tree, source.as_bytes()).iter().map(|d| d.code).collect()
}

#[test]
fn run_all_orders_file_then_items_then_paths() {
    let got = codes("pub fn load() -> Result<(), String> { Ok(()) }\nfn f() { std::sync::Arc::new(1); }\n");
    assert_eq!(got.first(), Some(&"DOC009"));
    assert_eq!(got.last(), Some(&"MOD003"));
    assert_eq!(got.iter().filter(|c| **c == "DOC002").count(), 1);
    assert_eq!(got.iter().filter(|c| **c == "MOD003").count(), 1);
}

#[test]
fn run_all_is_empty_for_a_clean_file() {
    assert!(codes("//! Tools.\n\n/// Adds.\nfn add() {}\n").is_empty());
}

#[test]
fn run_all_follows_item_source_order() {
    let got = codes(
        "//! Tools.\n\npub fn load() -> Result<(), String> { Ok(()) }\n\n#[test]\nfn checks_load() {}\n",
    );
    assert_eq!(got, vec!["DOC002", "TEST002"]);
}
