use llm_tidy_lint::diagnostic::Severity;
use llm_tidy_lint::symbol_policy::{
    check_enabled, matches_name, ArrayKind, SymbolAction, SymbolDeclaration, SymbolError, SymbolLanguage, SymbolMatcher,
    SymbolRule, SymbolTarget, SymbolUsage,
};

const CODE: &str = "SYM001";

fn rule(matcher: SymbolMatcher, target: SymbolTarget, action: SymbolAction, message: &str) -> SymbolRule {
    SymbolRule {
        matcher,
        target,
        action,
        exclude_lints: 0,
        exclude_edits: false,
        array_kind: None,
        zero_arguments: None,
        no_initializer: None,
        capacity_reminder: false,
        code: CODE,
        severity: Severity::Reminder,
        title: None,
        message: Some(message.to_string()),
    }
}

fn literal(s: &str) -> SymbolMatcher {
    SymbolMatcher::Literal(s.to_string())
}

fn regex(s: &str) -> SymbolMatcher {
    SymbolMatcher::Regex(s.to_string())
}

fn usage(path: &str, kind: &str, empty_argument_list: bool) -> SymbolUsage {
    SymbolUsage {
        path: path.to_string(),
        kind: kind.to_string(),
        line: 1,
        array_kind: None,
        zero_arguments: empty_argument_list,
        no_initializer: true,
        empty_argument_list,
        written_name: path.to_string(),
    }
}

fn declaration(path: &str, start: usize, end: usize, line: usize) -> SymbolDeclaration {
    SymbolDeclaration { path: path.to_string(), start, end, line }
}

#[test]
fn names_should_match_literal_components_and_whole_regexes() {
    assert!(matches_name(&literal("Vec::new"), "Vec::new"));
    assert!(matches_name(&literal("Vec::new"), "std::vec::Vec::new"));
    assert!(!matches_name(&literal("Vec::new"), "OtherVec::new"));
    assert!(!matches_name(&regex("Vec::new"), "std::vec::Vec::new"));
    assert!(matches_name(&regex(".*::Vec::new"), "std::vec::Vec::new"));
    assert!(!matches_name(&regex("Vec::new|Other"), "OtherVec::new"));
    assert!(!matches_name(&regex("("), "anything"));
}

#[test]
fn exclusions_should_return_ranges_without_hints() {
    let source = "fn generated() {}\nfn retained() {}";
    let mut exclude = rule(literal("generated"), SymbolTarget::Declaration, SymbolAction::Exclude, "");
    exclude.exclude_edits = true;
    let decls = vec![declaration("generated", 0, source.find('\n').unwrap(), 1), declaration("retained", 18, 34, 2)];

    let result = check_enabled(Some(&decls), &vec![], SymbolLanguage::Rust, &vec![exclude], true).unwrap();

    assert!(result.hints.is_empty());
    assert_eq!(result.excluded_ranges, vec![(0, source.find('\n').unwrap())]);
    assert!(result.lint_exclusions.is_empty());
}

#[test]
fn exclusions_should_fail_closed_on_syntax_errors() {
    let rules = vec![rule(regex(".*"), SymbolTarget::Declaration, SymbolAction::Exclude, "")];
    let result = check_enabled(None, &vec![], SymbolLanguage::Rust, &rules, true);
    assert!(matches!(result, Err(SymbolError::SyntaxErrors)));
    let usage_only = vec![rule(literal("new"), SymbolTarget::Usage, SymbolAction::Hint, "first")];
    assert!(check_enabled(None, &vec![], SymbolLanguage::Rust, &usage_only, true).is_ok());
}

#[test]
fn hints_should_keep_first_match_and_its_scope() {
    let rules = vec![
        rule(literal("new"), SymbolTarget::Usage, SymbolAction::Hint, "first"),
        rule(literal("Vec::new"), SymbolTarget::Usage, SymbolAction::Hint, "second"),
    ];
    let result =
        check_enabled(Some(&vec![]), &vec![usage("Vec::new", "call", true)], SymbolLanguage::Rust, &rules, true).unwrap();

    assert_eq!(result.hints.len(), 1);
    let hint = &result.hints[0];
    assert_eq!(hint.code, CODE);
    assert_eq!(hint.severity, Severity::Reminder);
    assert_eq!(hint.message, "first");
    assert_eq!(hint.item_name.as_deref(), Some("Vec::new"));
    assert_eq!(hint.item_kind, "call");
}

#[test]
fn exclusions_should_gather_every_matching_rule() {
    let mut hint = rule(literal("gen"), SymbolTarget::Declaration, SymbolAction::Hint, "hinted");
    hint.exclude_lints = 8;
    let mut first = rule(literal("gen"), SymbolTarget::Declaration, SymbolAction::Exclude, "");
    first.exclude_lints = 1;
    let mut second = rule(regex("g.n"), SymbolTarget::Declaration, SymbolAction::Exclude, "");
    second.exclude_lints = 4;
    second.exclude_edits = true;
    let decls = vec![declaration("gen", 3, 9, 2)];

    let result = check_enabled(Some(&decls), &vec![], SymbolLanguage::Rust, &vec![hint, first, second], true).unwrap();

    assert_eq!(result.lint_exclusions, vec![((3, 9), 5)]);
    assert_eq!(result.excluded_ranges, vec![(3, 9)]);
    assert_eq!(result.hints.len(), 1);
    assert_eq!(result.hints[0].line, 2);
    assert_eq!(result.hints[0].item_kind, "declaration");
}

#[test]
fn hints_should_stay_off_when_disabled() {
    let mut exclude = rule(literal("gen"), SymbolTarget::Declaration, SymbolAction::Exclude, "");
    exclude.exclude_lints = 2;
    let rules = vec![rule(literal("gen"), SymbolTarget::Declaration, SymbolAction::Hint, "h"), exclude];
    let decls = vec![declaration("gen", 0, 3, 1)];
    let result = check_enabled(
        Some(&decls),
        &vec![usage("gen", "call", true)],
        SymbolLanguage::Rust,
        &rules,
        false,
    )
    .unwrap();
    assert!(result.hints.is_empty());
    assert_eq!(result.lint_exclusions, vec![((0, 3), 2)]);
}

#[test]
fn hints_should_apply_explicit_argument_conditions() {
    let mut zero = rule(literal("Vec::new"), SymbolTarget::Usage, SymbolAction::Hint, "reminder");
    zero.zero_arguments = Some(true);
    let rules = vec![zero];
    let count = |u: SymbolUsage| check_enabled(Some(&vec![]), &vec![u], SymbolLanguage::Rust, &rules, true).unwrap().hints.len();
    assert_eq!(count(usage("Vec::new", "call", true)), 1);
    assert_eq!(count(usage("Vec::new", "call", false)), 0);
}

#[test]
fn capacity_reminders_need_an_empty_call_or_creation() {
    let mut reminder = rule(literal("List::new"), SymbolTarget::Usage, SymbolAction::Hint, "capacity");
    reminder.capacity_reminder = true;
    let rules = vec![reminder];
    let count = |u: SymbolUsage, language: SymbolLanguage| {
        check_enabled(Some(&vec![]), &vec![u], language, &rules, true).unwrap().hints.len()
    };
    assert_eq!(count(usage("List::new", "creation", true), SymbolLanguage::Csharp), 1);
    assert_eq!(count(usage("List::new", "call", true), SymbolLanguage::Csharp), 0);
    assert_eq!(count(usage("List::new", "creation", false), SymbolLanguage::Csharp), 0);
    assert_eq!(count(usage("List::new", "call", true), SymbolLanguage::Rust), 1);
}

#[test]
fn array_rules_should_require_array_shapes() {
    let mut any = rule(literal("new[]"), SymbolTarget::Usage, SymbolAction::Hint, "array");
    any.array_kind = Some(ArrayKind::ExplicitSizedVector);
    let rules = vec![any];
    let mut vector = usage("new[]", "array creation", true);
    vector.array_kind = Some(ArrayKind::ExplicitSizedVector);
    let mut other = usage("new[]", "array creation", true);
    other.array_kind = Some(ArrayKind::Any);
    let count = |u: SymbolUsage| check_enabled(Some(&vec![]), &vec![u], SymbolLanguage::Csharp, &rules, true).unwrap().hints.len();
    assert_eq!(count(vector), 1);
    assert_eq!(count(other), 0);
}

#[test]
fn exclusions_are_unchanged_by_earlier_hint_rules() {
    let decls = vec![declaration("generated::run", 3, 9, 1)];
    let exclude = || {
        let mut r = rule(literal("run"), SymbolTarget::Declaration, SymbolAction::Exclude, "");
        r.exclude_edits = true;
        r.exclude_lints = 5;
        r
    };
    let alone = check_enabled(Some(&decls), &vec![], SymbolLanguage::Rust, &vec![exclude()], true).unwrap();
    let hint = rule(literal("run"), SymbolTarget::Declaration, SymbolAction::Hint, "avoid");
    let mixed = check_enabled(Some(&decls), &vec![], SymbolLanguage::Rust, &vec![hint, exclude()], true).unwrap();
    assert_eq!(alone.excluded_ranges, vec![(3, 9)]);
    assert_eq!(mixed.excluded_ranges, alone.excluded_ranges);
    assert_eq!(mixed.lint_exclusions, vec![((3, 9), 5)]);
    assert_eq!(alone.lint_exclusions, mixed.lint_exclusions);
    assert_eq!(mixed.hints.len(), 1);
}
