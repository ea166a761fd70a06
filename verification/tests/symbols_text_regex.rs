use llm_tidy_lint::diagnostic::Severity;
use llm_tidy_lint::symbols::{text_regex_hints, RegexComments, SymbolObservations, TextRegexRule};

const CODE: &str = "SYM001";

/// One rule with title `Review` and message `first`.
fn rule(pattern: &str, comments: RegexComments, ext: &str) -> TextRegexRule {
    TextRegexRule {
        pattern: pattern.to_string(),
        comments,
        extensions: vec![ext.to_string()],
        code: CODE,
        severity: Severity::Hint,
        title: Some("Review".to_string()),
        message: Some("first".to_string()),
    }
}

/// The byte span of the first occurrence of `piece` in `source`.
fn span(source: &str, piece: &str) -> (usize, usize) {
    let start = source.find(piece).unwrap();
    (start, start + piece.len())
}

fn run(source: &str, ext: &str, spans: Option<Vec<(usize, usize)>>, rules: Vec<TextRegexRule>) -> SymbolObservations {
    text_regex_hints(source, ext, spans.as_ref(), &rules)
}

fn count(source: &str, ext: &str, pattern: &str, comments: RegexComments, spans: Option<Vec<(usize, usize)>>) -> usize {
    let result = run(source, ext, spans, vec![rule(pattern, comments, ext)]);
    assert!(result.warnings.is_empty());
    result.hints.len()
}

#[test]
fn hints_should_preserve_original_lines_and_first_rule_at_same_start() {
    let source = "// é\r\nlet x = 'needle'; /* needle\r\nneedle */";
    let mut second = rule("needle", RegexComments::Include, "js");
    second.message = Some("second".to_string());
    let policies = vec![rule("needle", RegexComments::Only, "js"), second];
    let spans = vec![span(source, "// é"), span(source, "/* needle\r\nneedle */")];

    let result = run(source, "js", Some(spans), policies);

    let matches: Vec<_> = result
        .hints
        .iter()
        .map(|hint| (hint.line, hint.message.as_str(), hint.item_name.as_deref()))
        .collect();
    assert_eq!(
        matches,
        [(2, "second", Some("needle")), (2, "first", Some("needle")), (3, "first", Some("needle"))]
    );
}

#[test]
fn hints_should_match_raw_patterns() {
    assert_eq!(count("Vec::<u8>::new()", "rs", "Vec::<u8>::new", RegexComments::Include, None), 1);
    assert_eq!(count("OtherVec::new()", "rs", "Vec::new", RegexComments::Include, None), 1);
    assert_eq!(count("OtherVec::new()", "rs", "Vec::new|Other", RegexComments::Include, None), 2);
    assert_eq!(count("first\nsecond", "txt", "(?s)first.*second", RegexComments::Include, None), 1);
    assert_eq!(count("first\nsecond", "txt", "(?m)^second$", RegexComments::Include, None), 1);
    assert_eq!(count("é", "txt", "x*", RegexComments::Include, None), 2);
}

#[test]
fn hints_should_respect_comment_boundaries() {
    let s = "first /* comment */ second";
    assert_eq!(count(s, "js", "(?s)first.*second", RegexComments::Exclude, Some(vec![span(s, "/* comment */")])), 0);
    let s = "/* first */ /* second */";
    let spans = vec![span(s, "/* first */"), span(s, "/* second */")];
    assert_eq!(count(s, "js", "(?s)first.*second", RegexComments::Only, Some(spans)), 0);
    let s = "/* first\nsecond */";
    assert_eq!(count(s, "js", "(?s)first.*second", RegexComments::Only, Some(vec![(0, s.len())])), 1);
    let s = "/* first */";
    assert_eq!(count(s, "js", "/\\* first \\*/", RegexComments::Only, Some(vec![(0, s.len())])), 1);
}

#[test]
fn hints_should_search_selected_text() {
    let s = "fn f() { let x = \"needle\"; } // needle";
    let spans = Some(vec![span(s, "// needle")]);
    assert_eq!(count(s, "rs", "needle", RegexComments::Include, spans.clone()), 2);
    assert_eq!(count(s, "rs", "needle", RegexComments::Exclude, spans.clone()), 1);
    assert_eq!(count(s, "rs", "needle", RegexComments::Only, spans), 1);
    let s = "select 'needle'; -- needle";
    assert_eq!(count(s, "sql", "needle", RegexComments::Exclude, Some(vec![span(s, "-- needle")])), 1);
    let s = "needle % needle";
    assert_eq!(count(s, "tex", "needle", RegexComments::Exclude, Some(vec![span(s, "% needle")])), 1);
    assert_eq!(count("needle in prose", "md", "needle", RegexComments::Include, None), 1);
}

#[test]
fn hints_should_respect_case_insensitive_text_extensions() {
    assert_eq!(run("needle", "MD", None, vec![rule("needle", RegexComments::Include, "md")]).hints.len(), 1);
    assert_eq!(run("needle", "js", None, vec![rule("needle", RegexComments::Include, "md")]).hints.len(), 0);
}

#[test]
fn hints_should_warn_and_skip_only_comment_sensitive_rules() {
    for comments in [RegexComments::Exclude, RegexComments::Only] {
        let policies = vec![rule("needle", comments, "rs"), rule("needle", RegexComments::Include, "rs")];
        let result = run("fn f( { // needle", "rs", None, policies);
        assert_eq!(result.hints.len(), 1);
        assert_eq!(result.warnings.len(), 1);
        assert!(result.warnings[0].contains("comments cannot be reliably identified"));
    }
}

#[test]
fn hints_should_carry_the_rule_fields() {
    let result = run("a\nb needle", "txt", None, vec![rule("needle", RegexComments::Include, "txt")]);
    let hint = &result.hints[0];
    assert_eq!(hint.code, CODE);
    assert_eq!(hint.title.as_deref(), Some("Review"));
    assert_eq!(hint.line, 2);
    assert_eq!(hint.item_kind, "text");
}

#[test]
fn hints_should_be_empty_for_an_invalid_pattern() {
    assert_eq!(count("needle", "txt", "(", RegexComments::Include, None), 0);
}
