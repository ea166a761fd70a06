use llm_tidy_lint::codes::{
    CODE_DOC_PLACEHOLDER, CODE_MISSING_ARGUMENTS, CODE_MISSING_DOCS, CODE_MISSING_ERRORS, CODE_MISSING_RETURNS,
    CODE_SECTION_ORDER, CODE_TEST_NAMING, CODE_TEST_SUMMARY, CODE_UNDOCUMENTED_PARAM, CODE_VAGUE_ERRORS,
};
use llm_tidy_lint::csharp::declarations::collect_declarations;
use llm_tidy_lint::csharp::doc010_tag_order::CANONICAL_ORDER;
use llm_tidy_lint::csharp::doc_tags::{canonical_tag, tag_rank, tag_slices};
use llm_tidy_lint::csharp::run;
use llm_tidy_lint::csharp::test002_test_summary::check as test002_check;
use llm_tidy_lint::diagnostic::{Diagnostic, Severity};
use llm_tidy_lint::parser::parse_csharp;
use llm_tidy_lint::syntax::SyntaxTree;

/// A parsed C# source with its text.
struct Parsed {
    tree: SyntaxTree,
    source: String,
}

/// Parse `source` as C#.
fn parse(source: &str) -> Result<Parsed, ()> {
    match parse_csharp(source) {
        Some(tree) => Ok(Parsed { tree, source: source.to_string() }),
        None => Err(()),
    }
}

/// The full C# pass over a parsed file.
fn run_parsed(parsed: &Parsed) -> Vec<Diagnostic> {
    run(&parsed.tree, parsed.source.as_bytes())
}

/// The full C# pass over `source`.
fn lint(source: &str) -> Vec<Diagnostic> {
    run_parsed(&parse(source).expect("test source must parse"))
}

/// The DOC010 findings of `source`.
fn diagnostics(source: &str) -> Vec<Diagnostic> {
    lint(source).into_iter().filter(|diagnostic| diagnostic.code == CODE_SECTION_ORDER).collect()
}

/// The DOC011 finding for `source`, if any.
fn doc011(source: &str) -> Option<Diagnostic> {
    lint(source).into_iter().find(|diagnostic| diagnostic.code == CODE_MISSING_RETURNS)
}

/// The DOC002 findings' member names of the pass.
fn missing_exception_names(source: &str) -> Vec<String> {
    lint(source).into_iter().filter(|d| d.code == CODE_MISSING_ERRORS).filter_map(|d| d.item_name).collect()
}

/// TEST002 over every declaration of `source`.
fn check_source(source: &str) -> Vec<Diagnostic> {
    let parsed = parse(source).expect("fixture parses");
    let declarations = collect_declarations(&parsed.tree, parsed.source.as_bytes());
    declarations.iter().flat_map(test002_check).collect()
}

#[test]
fn diagnostic_should_request_purpose_and_supported_contract() {
    let parsed = parse("public class Cache {}").unwrap();

    let diagnostics = run_parsed(&parsed);
    let diagnostic = diagnostics
        .iter()
        .find(|diagnostic| diagnostic.code == CODE_MISSING_DOCS)
        .unwrap();

    assert_eq!(
        diagnostic.message,
        "non-private item is missing a doc comment.\n\n\
             Why: Readers need its purpose and contract without tracing the implementation.\n\n\
             Suggestions:\n\
             - Add `/// <summary>` docs describing its purpose and supported contract."
    );
}

#[test]
fn diagnostic_should_request_actual_escaping_exceptions_and_conditions() {
    let parsed = parse(
        "class Cache { public void Load() { throw new System.InvalidOperationException(); } }",
    )
    .unwrap();

    let diagnostics = run_parsed(&parsed);
    let diagnostic = diagnostics
        .iter()
        .find(|diagnostic| diagnostic.code == CODE_MISSING_ERRORS)
        .unwrap();

    assert_eq!(
        diagnostic.message,
        "member that can throw is missing an `<exception>` doc tag.\n\n\
             Why: Readers need to understand possible failures and when they occur.\n\n\
             Suggestions:\n\
             - Trace its throws and calls.\n\
             - Document each exception that can escape with `<exception cref=\"Type\">` and the specific condition that causes it.\n\
             - Do not invent exceptions or change behavior to satisfy this lint."
    );
}

#[test]
fn diagnostic_should_request_verified_exception_types_and_conditions() {
    let parsed = parse(
        "class Cache {\n\
             /// <exception>Always thrown.</exception>\n\
             public void Load() { throw new System.InvalidOperationException(); }\n\
             }",
    )
    .unwrap();

    let diagnostics = run_parsed(&parsed);
    let diagnostic = diagnostics
        .iter()
        .find(|diagnostic| diagnostic.code == CODE_VAGUE_ERRORS)
        .unwrap();

    assert_eq!(
        diagnostic.message,
        "`<exception>` doc tags name no concrete exception type (`cref`).\n\n\
             Why: Concrete exception types help readers connect failure conditions to handling code.\n\n\
             Suggestions:\n\
             - Verify the member and its calls.\n\
             - Set each `cref` to the actual exception type that can escape.\n\
             - Describe the specific condition that causes each exception.\n\
             - Do not invent exceptions or change behavior to satisfy this lint."
    );
}

#[test]
fn diagnostic_should_request_parameter_roles_and_existing_constraints() {
    let parsed = parse("class Cache { public void Load(string key) {} }").unwrap();

    let diagnostics = run_parsed(&parsed);
    let diagnostic = diagnostics
        .iter()
        .find(|diagnostic| diagnostic.code == CODE_MISSING_ARGUMENTS)
        .unwrap();

    assert_eq!(
        diagnostic.message,
        "member with parameters is missing `<param>` doc tags.\n\n\
             Why: Readers need parameter roles and constraints to supply appropriate inputs.\n\n\
             Suggestions:\n\
             - Add a `<param name=\"...\">` tag for each declared parameter, describing \
             its role and any constraints supported by the existing contract."
    );
}

#[test]
fn diagnostic_should_request_contract_docs_for_each_missing_parameter() {
    let parsed = parse(
        "class Cache {\n\
             /// <param name=\"key\">The lookup key.</param>\n\
             public void Load(string key, string format, int limit) {}\n\
             }",
    )
    .unwrap();

    let diagnostics = run_parsed(&parsed);
    let diagnostic = diagnostics
        .iter()
        .find(|diagnostic| diagnostic.code == CODE_UNDOCUMENTED_PARAM)
        .unwrap();

    assert_eq!(
        diagnostic.message,
        "parameter(s) not documented in `<param>` tags: `format`, `limit`.\n\n\
             Why: Omitted parameters leave readers guessing how to supply those inputs.\n\n\
             Suggestions:\n\
             - Add a `<param name=\"...\">` tag for each listed parameter, describing \
             its role and any constraints supported by the existing contract."
    );
}

#[test]
fn diagnostic_should_request_accurate_contract_instead_of_placeholder() {
    let parsed = parse("/// <summary>TODO</summary>\npublic class Cache {}").unwrap();

    let diagnostics = run_parsed(&parsed);
    let diagnostic = diagnostics
        .iter()
        .find(|diagnostic| diagnostic.code == CODE_DOC_PLACEHOLDER)
        .unwrap();

    assert_eq!(
        diagnostic.message,
        "doc comment contains placeholder text (TODO/FIXME/TBD).\n\n\
             Why: Placeholders leave readers without an explanation of current behavior.\n\n\
             Suggestions:\n\
             - Replace the placeholder with an accurate description of the existing contract."
    );
}

#[test]
fn diagnostic_should_fire_with_exact_message_when_exception_precedes_param() {
    let source = "\
class C {\
    /// <summary>Saves.</summary>
    /// <exception cref=\"E\">When full.</exception>
    /// <param name=\"key\">The key.</param>
    public void Save(string key) { }
}
";

    let found = diagnostics(source);

    assert_eq!(found.len(), 1);
    assert_eq!(
        found[0].message,
        "XML doc tags out of canonical order: found `<exception>` before `<param>`.\n\n\
             Why: A consistent tag order is easier for the reader to review.\n\n\
             Suggestions:\n\
             - Move the tags into canonical order: `inheritdoc`, `summary`, \
             `typeparam`, `param`, `returns`, `value`, `exception`, `remarks`, \
             `example`, `seealso`."
    );
}

#[test]
fn check_should_stay_silent_when_tags_follow_canonical_order() {
    let source = "\
class C {\
    /// <summary>Loads.</summary>
    /// <param name=\"key\">The key.</param>
    /// <returns>The value.</returns>
    /// <exception cref=\"E\">When missing.</exception>
    public string Load(string key) { return \"\"; }
}
";

    assert!(diagnostics(source).is_empty());
}

#[test]
fn check_should_stay_silent_when_only_one_tag_is_recognized() {
    let source =
        "class C {\n    /// <summary>Only one.</summary>\n    public void One() { }\n}";

    assert!(diagnostics(source).is_empty());
}

#[test]
fn check_should_stay_silent_when_unknown_tags_sit_between_recognized() {
    let source = "\
class C {\
    /// <summary>Custom docs.</summary>
    /// <permission>Admins only.</permission>
    /// <returns>One.</returns>
    public int Count() { return 1; }
}
";

    assert!(diagnostics(source).is_empty());
}

#[test]
fn check_should_stay_silent_when_inline_markup_is_mid_line() {
    let source = "\
class C {\
    /// <summary>Loads.</summary>
    /// <param name=\"key\">The <paramref name=\"key\"/> to load.</param>
    /// <returns>The value.</returns>
    public string Load(string key) { return \"\"; }
}
";

    assert!(diagnostics(source).is_empty());
}

#[test]
fn check_should_stay_silent_when_declaration_is_private() {
    let source = "\
class C {\
    /// <exception cref=\"E\">When full.</exception>
    /// <param name=\"key\">The key.</param>
    void Save(string key) { }
}
";

    assert!(diagnostics(source).is_empty());
}

#[test]
fn check_should_stay_silent_when_value_follows_summary_on_property() {
    let source = "\
class C {\
    /// <summary>The size.</summary>
    /// <value>Bytes used.</value>
    public int Size { get; set; }
}
";

    assert!(diagnostics(source).is_empty());
}

#[test]
fn check_should_stay_silent_when_multiline_tag_bodies_precede_later_tags() {
    let source = "\
class C {\
    /// <summary>Explains.</summary>
    /// <remarks>
    /// Spans multiple lines
    /// of remarks.
    /// </remarks>
    /// <example>Use it.</example>
    public void Go() { }
}
";

    assert!(diagnostics(source).is_empty());
}

// A self-closing tag counts; a bare `<param` at line end does not,
// and the first canonical row (`inheritdoc`) participates.
#[test]
fn tag_rank_should_count_self_closing_tags_and_reject_bare_names() {
    assert_eq!(tag_rank("<inheritdoc/>"), Some(1));
    assert_eq!(tag_rank(" <param name=\"key\"/>"), Some(4));
    assert_eq!(tag_rank(" See <param"), None);
}

// The suggested order must be exactly the enforced rank order.
#[test]
fn doc010_tag_order_canonical_order_should_list_all_ranks_in_rank_order() {
    let derived = format!(
        "`{}`",
        (1u8..=10)
            .map(canonical_tag)
            .collect::<Vec<_>>()
            .join("`, `")
    );
    assert_eq!(CANONICAL_ORDER, derived);
}

#[test]
fn value_returns_should_warn_when_returns_tag_is_missing() {
    let diagnostic =
        doc011("class C { public int Get() { return 0; } }").expect("value return warns");

    assert_eq!(diagnostic.severity, Severity::Warning);
    assert_eq!(diagnostic.title.as_deref(), Some("missing `<returns>` tag"));
    assert_eq!(
        diagnostic.message,
        "Method returns a value but has no `<returns>` tag.\n\n\
             Why: Readers need to understand what the returned value represents, not just its \
             type.\n\n\
             Suggestions:\n\
             - Add a `<returns>` tag explaining what the value represents and any special cases \
             callers need to handle.\n\
             - Describe only existing behavior. Do not invent guarantees or change the \
             implementation to satisfy this lint."
    );
}

#[test]
fn bool_returns_should_remind_when_returns_tag_is_missing() {
    let diagnostic = doc011("class C { public bool Ok() { return true; } }").unwrap();

    assert_eq!(diagnostic.severity, Severity::Reminder);
    assert_eq!(
        diagnostic.message,
        "Method returns `bool` but has no `<returns>` tag.\n\n\
             Why: Readers should not have to inspect the implementation to understand what `true` \
             and `false` mean.\n\n\
             Suggestions:\n\
             - No change is needed if the method name or summary already makes both outcomes \
             clear.\n\
             - Otherwise, consider a short `<returns>` tag explaining when the method returns \
             `true` and when it returns `false`."
    );
}

#[test]
fn returns_tag_present_should_stay_quiet_when_tagged() {
    assert!(doc011(
        "class C {\n/// <summary>Gets.</summary>\n/// <returns>Zero.</returns>\npublic int Get() { return 0; }\n}"
    )
    .is_none());
}

#[test]
fn void_returns_should_stay_quiet_when_method_returns_nothing() {
    assert!(doc011("class C { public void Go() { } }").is_none());
}

#[test]
fn private_methods_should_stay_quiet_when_invisible() {
    assert!(doc011("class C { private int Get() { return 0; } }").is_none());
}

#[test]
fn constructors_should_stay_quiet_when_declared() {
    assert!(doc011("class C { public C() { } }").is_none());
}

/// A returned lambda's body runs on the caller's schedule, so a
/// throwing call inside it must not flag the enclosing member;
/// a direct call in the member's own body still does.
#[test]
fn deferred_lambda_calls_do_not_flag_enclosing_member() {
    let source = "\
class C {
    void Thrower() { throw new System.Exception(); }
    /// <summary>Returns a deferred thrower.</summary>
    public System.Func<int> Deferred() {
        return () => { Thrower(); return 0; };
    }
    /// <summary>Calls the thrower now.</summary>
    public int Direct() { Thrower(); return 0; }
}
";

    assert_eq!(missing_exception_names(source), ["Direct".to_string()]);
}

/// An uncalled local function's body runs only when invoked, so its
/// throwing call must not flag the enclosing member.
#[test]
fn local_function_calls_do_not_flag_enclosing_member() {
    let source = "\
class C {
    void Thrower() { throw new System.Exception(); }
    /// <summary>Wraps a local function.</summary>
    public int Outer() {
        int Local() { Thrower(); return 0; }
        return 1;
    }
}
";

    assert_eq!(missing_exception_names(source), Vec::<String>::new());
}

/// `<paramref>` shares the `<param` prefix but is its own tag, so a
/// `param` scan must not count it.
#[test]
fn tag_slices_skips_tags_sharing_only_a_prefix() {
    let docs = vec![" <paramref name=\"key\"/>".to_string()];

    assert_eq!(tag_slices(&docs, "param").len(), 0);
}

/// A real `<param>` tag matches exactly once, whether it carries
/// attributes, closes, or self-closes.
#[test]
fn tag_slices_matches_whole_tag_names() {
    let docs = vec![
        " <param name=\"key\">The key.</param>".to_string(),
        " <param>".to_string(),
        " <param/>".to_string(),
    ];

    let slices: Vec<String> = tag_slices(&docs, "param");
    assert_eq!(slices.len(), 3, "one slice per whole-name tag: {slices:?}");
    assert!(slices[0].starts_with("<param name=\"key\""));
}

// The diagnostic carries the documented message with the C# noun.
#[test]
fn csharp_test002_test_summary_check_should_emit_the_documented_message_when_the_summary_is_missing() {
    let diags = check_source("class C { [TestMethod]\npublic void Loads() { } }");

    assert_eq!(diags.len(), 1);
    assert_eq!(
        diags[0].message,
        "test method `Loads` is missing a short explanatory comment above its attributes.\n\n\
             Why: Readers need to understand why this test matters without tracing its body.\n\n\
             Suggestions:\n\
             - Explain the requirement, edge case, or regression the test protects against.\n\
             - Add context rather than restating the test name.\n\
             - Consider Arrange–Act–Assert: setup, action, then assertions, separated by comments."
    );
}

// A method without a test marker is not checked.
#[test]
fn check_should_skip_when_the_method_is_not_a_test() {
    let diags = check_source("class C { public void Loads() { } }");

    assert!(diags.is_empty());
}

/// The TEST001 message for the test `name`.
fn test001_message(name: &str) -> String {
    format!(
        "test method `{name}` uses a discouraged naming pattern.\n\n\
         Why: Behavioral names help readers understand a test's claim without opening its body.\n\n\
         Suggestions:\n\
         - Rename it to describe the subject and expected behavior, adding a condition only when it matters.\n\
         - Use `subject_should_expectation[_when_condition]` in the project's casing style."
    )
}

/// The TEST001 finding on a `[Fact]` method named `name`, if any.
fn test001_for(name: &str) -> Option<Diagnostic> {
    let source = format!("class CacheTests {{ [Fact] public void {name}() {{}} }}");
    lint(&source).into_iter().find(|diagnostic| diagnostic.code == CODE_TEST_NAMING)
}

#[test]
fn test001_should_flag_the_bare_test_name() {
    assert_eq!(test001_for("Test").unwrap().message, test001_message("Test"));
}

#[test]
fn test001_should_flag_a_test_prefix() {
    assert_eq!(test001_for("Test_load").unwrap().message, test001_message("Test_load"));
}

#[test]
fn test001_should_flag_a_case_prefix() {
    assert_eq!(test001_for("Case_load").unwrap().message, test001_message("Case_load"));
}

#[test]
fn test001_should_flag_a_numbered_test() {
    let diagnostic = test001_for("Test42").unwrap();
    assert_eq!(diagnostic.message, test001_message("Test42"));
    assert_eq!(diagnostic.severity, Severity::Warning);
}

#[test]
fn test001_should_accept_behavioral_names() {
    assert!(test001_for("ShouldReturnNullWhenMissing").is_none());
    assert!(test001_for("Testify").is_none());
    assert!(test001_for("Test4a").is_none());
}

#[test]
fn test001_should_ignore_methods_without_a_test_marker() {
    let found = lint("class C { public void Test() {} }");
    assert!(found.iter().all(|d| d.code != CODE_TEST_NAMING));
}

#[test]
fn test002_should_accept_an_xml_doc_above_the_attributes() {
    assert!(check_source(
        "class C { /// <summary>Verifies the loader.</summary>\n[TestMethod]\npublic void Loads() { } }"
    )
    .is_empty());
}

#[test]
fn test002_should_accept_a_multi_line_xml_doc() {
    assert!(check_source(
        "class C { /// <summary>One.</summary>\n/// <summary>Two.</summary>\n[TestMethod]\npublic void Loads() { } }"
    )
    .is_empty());
}

#[test]
fn test002_should_accept_a_plain_comment() {
    assert!(check_source("class C { // Verifies the loader.\n[TestMethod]\npublic void Loads() { } }").is_empty());
}

#[test]
fn test002_should_accept_a_summarised_skipped_test() {
    assert!(check_source("class C { // Verifies the loader.\n[Ignore]\n[TestMethod]\npublic void Loads() { } }")
        .is_empty());
}

#[test]
fn test002_should_accept_a_summarised_fact() {
    assert!(check_source("class C { // Verifies the loader.\n[Fact]\npublic void Loads() { } }").is_empty());
}

/// TEST002 reports exactly one reminder for `source`.
fn assert_one_test002(source: &str) {
    let diags = check_source(source);
    assert_eq!(diags.len(), 1, "expected one TEST002 finding: {source}");
    assert_eq!(diags[0].code, CODE_TEST_SUMMARY);
    assert_eq!(diags[0].severity, Severity::Reminder);
}

#[test]
fn test002_should_report_a_missing_comment() {
    assert_one_test002("class C { [TestMethod]\npublic void Loads() { } }");
}

#[test]
fn test002_should_report_a_comment_separated_by_a_blank_line() {
    assert_one_test002("class C { // Verifies the loader.\n\n[TestMethod]\npublic void Loads() { } }");
}

#[test]
fn test002_should_report_a_detached_xml_doc() {
    assert_one_test002(
        "class C { /// <summary>Verifies the loader.</summary>\n\n[TestMethod]\npublic void Loads() { } }",
    );
}

#[test]
fn test002_should_report_a_comment_below_the_attributes() {
    assert_one_test002("class C { [TestMethod]\n// Verifies the loader.\npublic void Loads() { } }");
}

#[test]
fn test002_should_report_a_skipped_test_without_summary() {
    assert_one_test002("class C { [Ignore]\n[TestMethod]\npublic void Loads() { } }");
}

#[test]
fn doc002_should_flag_callers_of_a_throwing_member_transitively() {
    let source = "\
class C {
    void Thrower() { throw new System.Exception(); }
    void Middle() { Thrower(); }
    /// <summary>Calls through a helper.</summary>
    public void Outer() { Middle(); }
    /// <summary>Calls nothing.</summary>
    public void Quiet() { }
}
";
    assert_eq!(missing_exception_names(source), ["Outer".to_string()]);
}

#[test]
fn doc002_should_flag_a_constructed_type_whose_constructor_throws() {
    let source = "\
class C {
    C() { throw new System.Exception(); }
    /// <summary>Builds one.</summary>
    public void Make() { new C(); }
}
";
    assert_eq!(missing_exception_names(source), ["Make".to_string()]);
}

#[test]
fn doc002_should_stay_silent_when_an_exception_tag_is_present() {
    let source = "\
class C {
    /// <exception cref=\"System.Exception\">Always.</exception>
    public void Load() { throw new System.Exception(); }
}
";
    let found = lint(source);
    assert!(found.iter().all(|d| d.code != CODE_MISSING_ERRORS && d.code != "DOC003"));
}

#[test]
fn doc003_should_stay_silent_when_a_cref_names_a_type() {
    let source = "\
class C {
    /// <exception>Sometimes.</exception>
    /// <exception cref=\"E\">Always.</exception>
    public void Load() { throw new E(); }
}
";
    assert!(lint(source).iter().all(|d| d.code != CODE_VAGUE_ERRORS));
}

#[test]
fn doc003_should_fire_when_the_cref_is_blank() {
    let source = "\
class C {
    /// <exception cref=\" \">Always.</exception>
    public void Load() { throw new E(); }
}
";
    let found: Vec<Diagnostic> = lint(source).into_iter().filter(|d| d.code == CODE_VAGUE_ERRORS).collect();
    assert_eq!(found.len(), 1);
    assert_eq!(found[0].title.as_deref(), Some("vague `# Errors` section"));
    assert_eq!(found[0].item_name.as_deref(), Some("Load"));
    assert_eq!(found[0].line, 3);
}

#[test]
fn doc004_should_stay_silent_for_private_members() {
    assert!(lint("class Cache { void Load(string key) {} }").iter().all(|d| d.code != CODE_MISSING_ARGUMENTS));
}

#[test]
fn doc005_should_stay_silent_when_every_parameter_is_tagged() {
    let source = "class Cache {\n/// <param name=\"key\">The key.</param>\n/// <param name=\"limit\">The limit.</param>\npublic void Load(string key, int limit) {}\n}";
    assert!(lint(source).iter().all(|d| d.code != CODE_UNDOCUMENTED_PARAM));
}

#[test]
fn doc006_should_match_markers_as_whole_words_in_any_case() {
    let marked = lint("/// <summary>Fixme: finish.</summary>\npublic class Cache {}");
    assert!(marked.iter().any(|d| d.code == CODE_DOC_PLACEHOLDER));
    let inside = lint("/// <summary>Todos and tbdx stay.</summary>\npublic class Cache {}");
    assert!(inside.iter().all(|d| d.code != CODE_DOC_PLACEHOLDER));
}

#[test]
fn doc001_should_report_kind_name_and_line() {
    let found: Vec<Diagnostic> =
        lint("namespace N {\n  public class Cache {}\n}").into_iter().filter(|d| d.code == CODE_MISSING_DOCS).collect();
    assert_eq!(found.len(), 1);
    assert_eq!(found[0].line, 2);
    assert_eq!(found[0].item_kind, "class");
    assert_eq!(found[0].item_name.as_deref(), Some("Cache"));
    assert_eq!(found[0].severity, Severity::Error);
}

#[test]
fn run_should_report_nothing_for_a_tree_with_syntax_errors() {
    assert!(lint("public class Cache { public void Load( }").is_empty());
}

#[test]
fn run_should_order_findings_by_declaration_then_rule() {
    let found = lint("public class A { public int Get() { return 0; } }");
    let codes: Vec<&str> = found.iter().map(|d| d.code).collect();
    assert_eq!(codes, ["DOC001", "DOC001", "DOC011"]);
}

#[test]
fn tag_slices_should_find_every_tag_on_a_line() {
    let docs = vec![" <returns>One</returns> then <returns/>".to_string(), "<returns".to_string()];
    let slices = tag_slices(&docs, "returns");
    assert_eq!(slices, ["<returns>".to_string(), "<returns/>".to_string()]);
}
