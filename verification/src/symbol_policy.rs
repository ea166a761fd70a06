//! Symbol policies over declarations and invocations.
//!
//! A literal name matches a written path exactly or as its trailing `::`
//! components; a regular expression matches anywhere in the path. Every
//! declaration gathers the exclusions of all rules that match it, whatever
//! their order, while the first matching hint rule alone reports it. When
//! declaration rules apply but the declarations could not be read (the tree
//! holds syntax errors), the check fails closed instead of reporting
//! nothing.
use crate::diagnostic::{Diagnostic, Severity};
use crate::text::{chars_of, copy_string, owned, push_str, str_eq};
use vstd::prelude::*;

verus! {

/// How a rule names symbols.
pub enum SymbolMatcher {
    /// A written path, matched whole or as trailing `::` components.
    Literal(String),
    /// A regular expression, in the `regex` crate's syntax, that must
    /// match a whole path.
    Regex(String),
}

/// What a rule looks at.
#[derive(Debug, Clone, Copy, PartialEq, Eq, Structural)]
pub enum SymbolTarget {
    Declaration,
    Usage,
}

/// What a matching rule does.
#[derive(Debug, Clone, Copy, PartialEq, Eq, Structural)]
pub enum SymbolAction {
    Hint,
    Exclude,
}

/// The language whose invocations are read.
#[derive(Debug, Clone, Copy, PartialEq, Eq, Structural)]
pub enum SymbolLanguage {
    Rust,
    Csharp,
}

/// The array-creation shapes a usage rule can require.
#[derive(Debug, Clone, Copy, PartialEq, Eq, Structural)]
pub enum ArrayKind {
    /// Any array creation.
    Any,
    /// A one-dimensional array with one explicit size.
    ExplicitSizedVector,
}

/// One symbol policy.
pub struct SymbolRule {
    pub matcher: SymbolMatcher,
    pub target: SymbolTarget,
    pub action: SymbolAction,
    /// The lint codes an exclusion silences, as a bit mask.
    pub exclude_lints: u32,
    /// An exclusion also protects the declaration from edits.
    pub exclude_edits: bool,
    pub array_kind: Option<ArrayKind>,
    pub zero_arguments: Option<bool>,
    pub no_initializer: Option<bool>,
    /// The rule reminds of a missing capacity: it needs an empty argument
    /// list on a call (Rust) or a creation (C#).
    pub capacity_reminder: bool,
    pub code: &'static str,
    pub severity: Severity,
    pub title: Option<String>,
    pub message: Option<String>,
}

/// One declaration: its written path, byte range and name line.
pub struct SymbolDeclaration {
    pub path: String,
    pub start: usize,
    pub end: usize,
    pub line: usize,
}

/// One invocation: its normalized path, kind and shape.
pub struct SymbolUsage {
    pub path: String,
    pub kind: String,
    pub line: usize,
    pub array_kind: Option<ArrayKind>,
    pub zero_arguments: bool,
    pub no_initializer: bool,
    pub empty_argument_list: bool,
    pub written_name: String,
}

/// What the policies observed: hints, edit-protected ranges, and ranges
/// with the lint codes they silence.
pub struct PolicyObservations {
    pub hints: Vec<Diagnostic>,
    pub excluded_ranges: Vec<(usize, usize)>,
    pub lint_exclusions: Vec<((usize, usize), u32)>,
}

/// Why the policies could not be applied.
#[derive(Debug, Clone, Copy, PartialEq, Eq, Structural)]
pub enum SymbolError {
    /// Declaration rules apply but the tree holds syntax errors.
    SyntaxErrors,
}

/// Whether `pattern` matches somewhere in `text`; `None` when the pattern
/// does not compile.
pub uninterp spec fn regex_is_match_spec(pattern: Seq<char>, text: Seq<char>) -> Option<bool>;

/// Compile `pattern` with `regex::Regex::new` and, when it compiles, ask
/// `Regex::is_match` of `text`. The contract names the result.
#[verifier::external_body]
fn regex_is_match(pattern: &str, text: &str) -> (r: Option<bool>)
    ensures
        r == regex_is_match_spec(pattern@, text@),
{
    Some(regex::Regex::new(pattern).ok()?.is_match(text))
}

/// `name` ends with `symbol` as its trailing `::` components.
pub open spec fn ends_with_component(name: Seq<char>, symbol: Seq<char>) -> bool {
    &&& name.len() >= symbol.len() + 2
    &&& name.subrange(name.len() - symbol.len(), name.len() as int) == symbol
    &&& name[name.len() - symbol.len() - 2] == ':'
    &&& name[name.len() - symbol.len() - 1] == ':'
}

/// The pattern `p` anchored to match a whole path.
pub open spec fn whole(p: Seq<char>) -> Seq<char> {
    "^(?:"@ + p + ")$"@
}

/// `m` names the written path `name`.
pub open spec fn name_matches(m: SymbolMatcher, name: Seq<char>) -> bool {
    match m {
        SymbolMatcher::Literal(s) => name == s@ || ends_with_component(name, s@),
        SymbolMatcher::Regex(p) => regex_is_match_spec(whole(p@), name) == Some(true),
    }
}

/// Compare a normalized name, keeping literal component boundaries intact.
pub fn matches_name(m: &SymbolMatcher, name: &str) -> (r: bool)
    ensures
        r == name_matches(*m, name@),
{
    match m {
        SymbolMatcher::Literal(symbol) => {
            if str_eq(name, symbol.as_str()) {
                return true;
            }
            let n = chars_of(name);
            let s = chars_of(symbol.as_str());
            if n.len() < s.len() || n.len() - s.len() < 2 {
                return false;
            }
            let off = n.len() - s.len();
            let mut j: usize = 0;
            while j < s.len()
                invariant
                    n@ == name@,
                    s@ == symbol@,
                    off == n.len() - s.len(),
                    off >= 2,
                    name@ != symbol@,
                    name_matches(*m, name@) == (name@ == symbol@ || ends_with_component(name@, symbol@)),
                    j <= s.len(),
                    forall|q: int| 0 <= q < j ==> n@[off + q] == #[trigger] s@[q],
                decreases s.len() - j,
            {
                if n[off + j] != s[j] {
                    proof {
                        assert(name@.subrange(off as int, name@.len() as int)[j as int] != symbol@[j as int]);
                        assert(name@.subrange(off as int, name@.len() as int) != symbol@);
                        assert(!ends_with_component(name@, symbol@));
                    }
                    return false;
                }
                j += 1;
            }
            assert(name@.subrange(off as int, name@.len() as int) =~= symbol@);
            n[off - 2] == ':' && n[off - 1] == ':'
        },
        SymbolMatcher::Regex(pattern) => {
            let mut anchored = owned("^(?:");
            push_str(&mut anchored, pattern.as_str());
            push_str(&mut anchored, ")$");
            match regex_is_match(anchored.as_str(), name) {
                Some(b) => b,
                None => false,
            }
        },
    }
}

/// The rule takes part: hints only when hints are enabled.
pub open spec fn in_play(rule: SymbolRule, hints_enabled: bool) -> bool {
    hints_enabled || rule.action == SymbolAction::Exclude
}

/// The rule excludes the declaration at `path`.
pub open spec fn excludes(rule: SymbolRule, hints_enabled: bool, path: Seq<char>) -> bool {
    &&& in_play(rule, hints_enabled)
    &&& rule.target == SymbolTarget::Declaration
    &&& rule.action == SymbolAction::Exclude
    &&& name_matches(rule.matcher, path)
}

/// The lint codes the first `k` rules silence for the declaration at `path`.
pub open spec fn lint_mask(rules: Seq<SymbolRule>, hints_enabled: bool, path: Seq<char>, k: int) -> u32
    decreases k,
{
    if k <= 0 {
        0
    } else {
        lint_mask(rules, hints_enabled, path, k - 1) | if excludes(rules[k - 1], hints_enabled, path) {
            rules[k - 1].exclude_lints
        } else {
            0u32
        }
    }
}

/// Some rule protects the declaration at `path` from edits.
pub open spec fn edits_excluded(rules: Seq<SymbolRule>, hints_enabled: bool, path: Seq<char>) -> bool {
    exists|k: int| 0 <= k < rules.len() && excludes(#[trigger] rules[k], hints_enabled, path) && rules[k].exclude_edits
}

/// Rule `rule` reports the declaration at `path`.
pub open spec fn declaration_hint(rule: SymbolRule, hints_enabled: bool, path: Seq<char>) -> bool {
    &&& hints_enabled
    &&& rule.target == SymbolTarget::Declaration
    &&& rule.action == SymbolAction::Hint
    &&& name_matches(rule.matcher, path)
}

/// The first rule from index `k` on that reports the declaration at `path`.
pub open spec fn first_declaration_hint(rules: Seq<SymbolRule>, hints_enabled: bool, path: Seq<char>, k: int) -> Option<int>
    decreases rules.len() - k,
{
    if k < 0 || k >= rules.len() {
        None
    } else if declaration_hint(rules[k], hints_enabled, path) {
        Some(k)
    } else {
        first_declaration_hint(rules, hints_enabled, path, k + 1)
    }
}

/// The usage rule `rule` fits the invocation `u`'s shape, before names are
/// compared.
pub open spec fn shape_fits(rule: SymbolRule, u: SymbolUsage, language: SymbolLanguage) -> bool {
    &&& rule.target == SymbolTarget::Usage
    &&& rule.action == SymbolAction::Hint
    &&& match rule.array_kind {
        Some(ArrayKind::Any) => u.array_kind is Some,
        Some(ArrayKind::ExplicitSizedVector) => u.array_kind == Some(ArrayKind::ExplicitSizedVector),
        None => true,
    }
    &&& (rule.zero_arguments matches Some(z) ==> z == u.zero_arguments)
    &&& (rule.no_initializer matches Some(z) ==> z == u.no_initializer)
    &&& (rule.capacity_reminder ==> u.empty_argument_list && u.kind@ == match language {
        SymbolLanguage::Rust => "call"@,
        SymbolLanguage::Csharp => "creation"@,
    })
}

/// Rule `rule` reports the invocation `u`.
pub open spec fn usage_hint(rule: SymbolRule, hints_enabled: bool, u: SymbolUsage, language: SymbolLanguage) -> bool {
    hints_enabled && shape_fits(rule, u, language) && name_matches(rule.matcher, u.path@)
}

/// The first rule from index `k` on that reports the invocation `u`.
pub open spec fn first_usage_hint(
    rules: Seq<SymbolRule>,
    hints_enabled: bool,
    u: SymbolUsage,
    language: SymbolLanguage,
    k: int,
) -> Option<int>
    decreases rules.len() - k,
{
    if k < 0 || k >= rules.len() {
        None
    } else if usage_hint(rules[k], hints_enabled, u, language) {
        Some(k)
    } else {
        first_usage_hint(rules, hints_enabled, u, language, k + 1)
    }
}

/// `d` is the hint of `rule` on `name`, of kind `kind`, at `line`.
pub open spec fn policy_hint(d: Diagnostic, rule: SymbolRule, name: Seq<char>, kind: Seq<char>, line: usize) -> bool {
    &&& d.severity == rule.severity
    &&& d.code == rule.code
    &&& crate::syntax::opt_view(d.title) == crate::syntax::opt_view(rule.title)
    &&& d.message@ == match rule.message {
        Some(m) => m@,
        None => Seq::empty(),
    }
    &&& d.line == line
    &&& d.item_kind@ == kind
    &&& crate::syntax::opt_view(d.item_name) == Some(name)
}

/// The edit-protected ranges of the first `i` declarations.
pub open spec fn excluded_spec(decls: Seq<SymbolDeclaration>, rules: Seq<SymbolRule>, hints_enabled: bool, i: int) -> Seq<
    (usize, usize),
>
    decreases i,
{
    if i <= 0 {
        Seq::empty()
    } else {
        let d = decls[i - 1];
        excluded_spec(decls, rules, hints_enabled, i - 1) + if edits_excluded(rules, hints_enabled, d.path@) {
            seq![(d.start, d.end)]
        } else {
            Seq::empty()
        }
    }
}

/// The lint exclusions of the first `i` declarations.
pub open spec fn lint_spec(decls: Seq<SymbolDeclaration>, rules: Seq<SymbolRule>, hints_enabled: bool, i: int) -> Seq<
    ((usize, usize), u32),
>
    decreases i,
{
    if i <= 0 {
        Seq::empty()
    } else {
        let d = decls[i - 1];
        let mask = lint_mask(rules, hints_enabled, d.path@, rules.len() as int);
        lint_spec(decls, rules, hints_enabled, i - 1) + if mask != 0 {
            seq![((d.start, d.end), mask)]
        } else {
            Seq::empty()
        }
    }
}

/// Every rule of `rules` is a hint rule.
pub open spec fn only_hint_rules(rules: Seq<SymbolRule>) -> bool {
    forall|k: int| 0 <= k < rules.len() ==> (#[trigger] rules[k]).action == SymbolAction::Hint
}

proof fn lemma_hint_prefix_mask(a: Seq<SymbolRule>, b: Seq<SymbolRule>, hints_enabled: bool, path: Seq<char>, k: int)
    requires
        only_hint_rules(a),
        0 <= k <= a.len(),
    ensures
        lint_mask(a + b, hints_enabled, path, k) == 0,
    decreases k,
{
    if k > 0 {
        lemma_hint_prefix_mask(a, b, hints_enabled, path, k - 1);
        assert((a + b)[k - 1] == a[k - 1]);
        assert(0u32 | 0u32 == 0u32) by (bit_vector);
    }
}

proof fn lemma_hint_prefix_mask_rest(a: Seq<SymbolRule>, b: Seq<SymbolRule>, hints_enabled: bool, path: Seq<char>, j: int)
    requires
        only_hint_rules(a),
        0 <= j <= b.len(),
    ensures
        lint_mask(a + b, hints_enabled, path, a.len() + j) == lint_mask(b, hints_enabled, path, j),
    decreases j,
{
    if j == 0 {
        lemma_hint_prefix_mask(a, b, hints_enabled, path, a.len() as int);
    } else {
        lemma_hint_prefix_mask_rest(a, b, hints_enabled, path, j - 1);
        assert((a + b)[a.len() + j - 1] == b[j - 1]);
    }
}

/// Hint rules take no part in exclusions: with any hint rules placed
/// before the others, every declaration keeps the same edit protection and
/// the same silenced lint codes.
pub proof fn lemma_exclusions_ignore_hints(
    decls: Seq<SymbolDeclaration>,
    hints: Seq<SymbolRule>,
    rules: Seq<SymbolRule>,
    hints_enabled: bool,
    i: int,
)
    requires
        only_hint_rules(hints),
        0 <= i <= decls.len(),
    ensures
        excluded_spec(decls, hints + rules, hints_enabled, i) == excluded_spec(decls, rules, hints_enabled, i),
        lint_spec(decls, hints + rules, hints_enabled, i) == lint_spec(decls, rules, hints_enabled, i),
    decreases i,
{
    if i > 0 {
        lemma_exclusions_ignore_hints(decls, hints, rules, hints_enabled, i - 1);
        let p = decls[i - 1].path@;
        let all = hints + rules;
        lemma_hint_prefix_mask_rest(hints, rules, hints_enabled, p, rules.len() as int);
        assert(all.len() == hints.len() + rules.len());
        if edits_excluded(all, hints_enabled, p) {
            let k = choose|k: int| 0 <= k < all.len() && excludes(#[trigger] all[k], hints_enabled, p) && all[k].exclude_edits;
            if k < hints.len() {
                assert(all[k] == hints[k]);
            } else {
                assert(all[k] == rules[k - hints.len()]);
                assert(excludes(rules[k - hints.len()], hints_enabled, p));
            }
        }
        if edits_excluded(rules, hints_enabled, p) {
            let k = choose|k: int| 0 <= k < rules.len() && excludes(#[trigger] rules[k], hints_enabled, p) && rules[k].exclude_edits;
            assert(all[hints.len() + k] == rules[k]);
        }
    }
}

/// The declaration hints of the first `i` declarations, as (declaration,
/// rule) index pairs.
pub open spec fn declaration_hints(decls: Seq<SymbolDeclaration>, rules: Seq<SymbolRule>, hints_enabled: bool, i: int) -> Seq<
    (int, int),
>
    decreases i,
{
    if i <= 0 {
        Seq::empty()
    } else {
        declaration_hints(decls, rules, hints_enabled, i - 1) + match first_declaration_hint(
            rules,
            hints_enabled,
            decls[i - 1].path@,
            0,
        ) {
            Some(k) => seq![(i - 1, k)],
            None => Seq::empty(),
        }
    }
}

/// The usage hints of the first `i` invocations, as (invocation, rule)
/// index pairs.
pub open spec fn usage_hints(
    usages: Seq<SymbolUsage>,
    rules: Seq<SymbolRule>,
    hints_enabled: bool,
    language: SymbolLanguage,
    i: int,
) -> Seq<(int, int)>
    decreases i,
{
    if i <= 0 {
        Seq::empty()
    } else {
        usage_hints(usages, rules, hints_enabled, language, i - 1) + match first_usage_hint(
            rules,
            hints_enabled,
            usages[i - 1],
            language,
            0,
        ) {
            Some(k) => seq![(i - 1, k)],
            None => Seq::empty(),
        }
    }
}

/// Some rule in play looks at declarations.
pub open spec fn needs_declarations(rules: Seq<SymbolRule>, hints_enabled: bool) -> bool {
    exists|k: int| 0 <= k < rules.len() && in_play(#[trigger] rules[k], hints_enabled) && rules[k].target
        == SymbolTarget::Declaration
}

/// Render the hint of `rule` on `name`.
fn observation(rule: &SymbolRule, name: &str, kind: &str, line: usize) -> (r: Diagnostic)
    ensures
        policy_hint(r, *rule, name@, kind@, line),
{
    let title = match &rule.title {
        Some(t) => Some(copy_string(t)),
        None => None,
    };
    let message = match &rule.message {
        Some(m) => copy_string(m),
        None => String::new(),
    };
    Diagnostic {
        severity: rule.severity,
        code: rule.code,
        title,
        message,
        line,
        item_kind: owned(kind),
        item_name: Some(owned(name)),
    }
}

/// What every rule says of the declaration at `path`: the lint codes it
/// silences, whether it is edit-protected, and its first hint rule.
fn judge_declaration(rules: &Vec<SymbolRule>, hints_enabled: bool, path: &str) -> (r: (u32, bool, Option<usize>))
    ensures
        r.0 == lint_mask(rules@, hints_enabled, path@, rules.len() as int),
        r.1 == edits_excluded(rules@, hints_enabled, path@),
        match r.2 {
            Some(k) => k < rules.len() && first_declaration_hint(rules@, hints_enabled, path@, 0) == Some(k as int),
            None => first_declaration_hint(rules@, hints_enabled, path@, 0) is None,
        },
{
    let mut mask: u32 = 0;
    let mut edits = false;
    let mut hint: Option<usize> = None;
    let mut k: usize = 0;
    while k < rules.len()
        invariant
            k <= rules.len(),
            mask == lint_mask(rules@, hints_enabled, path@, k as int),
            edits == exists|q: int| 0 <= q < k && excludes(#[trigger] rules@[q], hints_enabled, path@) && rules@[q].exclude_edits,
            match hint {
                Some(h) => h < k && first_declaration_hint(rules@, hints_enabled, path@, 0) == Some(h as int),
                None => forall|q: int| 0 <= q < k ==> !declaration_hint(#[trigger] rules@[q], hints_enabled, path@),
            },
        decreases rules.len() - k,
    {
        let rule = &rules[k];
        let in_play = hints_enabled || rule.action == SymbolAction::Exclude;
        let looks = rule.target == SymbolTarget::Declaration;
        let matched = looks && in_play && matches_name(&rule.matcher, path);
        if matched && rule.action == SymbolAction::Exclude {
            mask = mask | rule.exclude_lints;
            if rule.exclude_edits {
                edits = true;
            }
        } else {
            assert(mask | 0u32 == mask) by (bit_vector);
        }
        if hint.is_none() && matched && rule.action == SymbolAction::Hint {
            proof {
                lemma_first_declaration_hint(rules@, hints_enabled, path@, 0, k as int);
            }
            hint = Some(k);
        }
        k += 1;
    }
    proof {
        if hint is None {
            lemma_first_declaration_hint(rules@, hints_enabled, path@, 0, rules.len() as int);
        }
    }
    (mask, edits, hint)
}

/// A scan that stops at the first reporting rule finds
/// `first_declaration_hint`.
proof fn lemma_first_declaration_hint(rules: Seq<SymbolRule>, hints_enabled: bool, path: Seq<char>, q: int, p: int)
    requires
        0 <= q <= p <= rules.len(),
        forall|i: int| q <= i < p ==> !declaration_hint(#[trigger] rules[i], hints_enabled, path),
        p < rules.len() ==> declaration_hint(rules[p], hints_enabled, path),
    ensures
        first_declaration_hint(rules, hints_enabled, path, q) == if p < rules.len() {
            Some(p)
        } else {
            None
        },
    decreases p - q,
{
    if q < p {
        lemma_first_declaration_hint(rules, hints_enabled, path, q + 1, p);
    }
}

/// A scan that stops at the first reporting rule finds `first_usage_hint`.
proof fn lemma_first_usage_hint(
    rules: Seq<SymbolRule>,
    hints_enabled: bool,
    u: SymbolUsage,
    language: SymbolLanguage,
    q: int,
    p: int,
)
    requires
        0 <= q <= p <= rules.len(),
        forall|i: int| q <= i < p ==> !usage_hint(#[trigger] rules[i], hints_enabled, u, language),
        p < rules.len() ==> usage_hint(rules[p], hints_enabled, u, language),
    ensures
        first_usage_hint(rules, hints_enabled, u, language, q) == if p < rules.len() {
            Some(p)
        } else {
            None
        },
    decreases p - q,
{
    if q < p {
        lemma_first_usage_hint(rules, hints_enabled, u, language, q + 1, p);
    }
}

/// True when `rule` fits the shape of `u`.
fn fits(rule: &SymbolRule, u: &SymbolUsage, language: SymbolLanguage) -> (r: bool)
    ensures
        r == shape_fits(*rule, *u, language),
{
    if rule.target != SymbolTarget::Usage || rule.action != SymbolAction::Hint {
        return false;
    }
    let array_ok = match rule.array_kind {
        Some(ArrayKind::Any) => u.array_kind.is_some(),
        Some(ArrayKind::ExplicitSizedVector) => match u.array_kind {
            Some(ArrayKind::ExplicitSizedVector) => true,
            _ => false,
        },
        None => true,
    };
    if !array_ok {
        return false;
    }
    match rule.zero_arguments {
        Some(z) => if z != u.zero_arguments {
            return false;
        },
        None => {},
    }
    match rule.no_initializer {
        Some(z) => if z != u.no_initializer {
            return false;
        },
        None => {},
    }
    if rule.capacity_reminder {
        let wanted = match language {
            SymbolLanguage::Rust => "call",
            SymbolLanguage::Csharp => "creation",
        };
        if !u.empty_argument_list || !str_eq(u.kind.as_str(), wanted) {
            return false;
        }
    }
    true
}

/// `r` is what the policies `rules` give for the declarations and the
/// invocations `usages` of a file in `language`: an error exactly when a
/// declaration rule is in play and the declarations could not be read
/// (`None`); otherwise the exclusions of every matching declaration and,
/// per declaration and then per invocation, the first matching hint.
pub open spec fn policy_result(
    declarations: Option<Seq<SymbolDeclaration>>,
    usages: Seq<SymbolUsage>,
    language: SymbolLanguage,
    rules: Seq<SymbolRule>,
    hints_enabled: bool,
    r: Result<PolicyObservations, SymbolError>,
) -> bool {
    &&& r is Err <==> (needs_declarations(rules, hints_enabled) && declarations is None)
    &&& r matches Ok(o) ==> {
        let decls = if needs_declarations(rules, hints_enabled) {
            match declarations {
                Some(d) => d,
                None => Seq::<SymbolDeclaration>::empty(),
            }
        } else {
            Seq::<SymbolDeclaration>::empty()
        };
        let dh = declaration_hints(decls, rules, hints_enabled, decls.len() as int);
        let uh = usage_hints(usages, rules, hints_enabled, language, usages.len() as int);
        &&& o.excluded_ranges@ == excluded_spec(decls, rules, hints_enabled, decls.len() as int)
        &&& o.lint_exclusions@ == lint_spec(decls, rules, hints_enabled, decls.len() as int)
        &&& o.hints.len() == dh.len() + uh.len()
        &&& forall|j: int|
            0 <= j < dh.len() ==> policy_hint(
                #[trigger] o.hints@[j],
                rules[dh[j].1],
                decls[dh[j].0].path@,
                "declaration"@,
                decls[dh[j].0].line,
            )
        &&& forall|j: int|
            0 <= j < uh.len() ==> policy_hint(
                #[trigger] o.hints@[dh.len() + j],
                rules[uh[j].1],
                usages[uh[j].0].path@,
                usages[uh[j].0].kind@,
                usages[uh[j].0].line,
            )
    }
}

/// Evaluate the hint and exclusion policies over one file's declarations
/// and invocations, read by the caller in source order.
///
/// Every declaration gathers the exclusions of all matching rules,
/// wherever they stand; the first matching hint rule alone reports a
/// declaration or an invocation. Declaration hints come first, then
/// invocation hints. `declarations` is `None` when the tree holds syntax
/// errors.
///
/// # Errors
///
/// [`SymbolError::SyntaxErrors`] when a declaration rule is in play and
/// `declarations` is `None`: protected processing stops rather than treat
/// missing exclusions as permission to edit.
pub fn check_enabled(
    declarations: Option<&Vec<SymbolDeclaration>>,
    usages: &Vec<SymbolUsage>,
    language: SymbolLanguage,
    rules: &Vec<SymbolRule>,
    hints_enabled: bool,
) -> (r: Result<PolicyObservations, SymbolError>)
    ensures
        policy_result(
            match declarations {
                Some(d) => Some(d@),
                None => None,
            },
            usages@,
            language,
            rules@,
            hints_enabled,
            r,
        ),
{
    let mut needs = false;
    let mut k: usize = 0;
    while k < rules.len()
        invariant
            k <= rules.len(),
            needs == exists|q: int| 0 <= q < k && in_play(#[trigger] rules@[q], hints_enabled) && rules@[q].target
                == SymbolTarget::Declaration,
        decreases rules.len() - k,
    {
        if (hints_enabled || rules[k].action == SymbolAction::Exclude) && rules[k].target == SymbolTarget::Declaration {
            needs = true;
        }
        k += 1;
    }
    let empty: Vec<SymbolDeclaration> = Vec::new();
    let decls: &Vec<SymbolDeclaration> = if needs {
        match declarations {
            Some(d) => d,
            None => {
                return Err(SymbolError::SyntaxErrors);
            },
        }
    } else {
        &empty
    };
    let mut hints: Vec<Diagnostic> = Vec::new();
    let mut excluded: Vec<(usize, usize)> = Vec::new();
    let mut lints: Vec<((usize, usize), u32)> = Vec::new();
    let mut i: usize = 0;
    while i < decls.len()
        invariant
            i <= decls.len(),
            excluded@ == excluded_spec(decls@, rules@, hints_enabled, i as int),
            lints@ == lint_spec(decls@, rules@, hints_enabled, i as int),
            hints.len() == declaration_hints(decls@, rules@, hints_enabled, i as int).len(),
            forall|j: int|
                0 <= j < hints.len() ==> policy_hint(
                    #[trigger] hints@[j],
                    rules@[declaration_hints(decls@, rules@, hints_enabled, i as int)[j].1],
                    decls@[declaration_hints(decls@, rules@, hints_enabled, i as int)[j].0].path@,
                    "declaration"@,
                    decls@[declaration_hints(decls@, rules@, hints_enabled, i as int)[j].0].line,
                ),
        decreases decls.len() - i,
    {
        let d = &decls[i];
        let ghost before = hints@;
        let ghost dh0 = declaration_hints(decls@, rules@, hints_enabled, i as int);
        let (mask, edits, first) = judge_declaration(rules, hints_enabled, d.path.as_str());
        if mask != 0 {
            lints.push(((d.start, d.end), mask));
        }
        if edits {
            excluded.push((d.start, d.end));
        }
        match first {
            Some(h) => {
                let o = observation(&rules[h], d.path.as_str(), "declaration", d.line);
                hints.push(o);
            },
            None => {},
        }
        proof {
            let dh1 = declaration_hints(decls@, rules@, hints_enabled, i + 1);
            assert(dh1 == dh0 + match first_declaration_hint(rules@, hints_enabled, decls@[i as int].path@, 0) {
                Some(k) => seq![(i as int, k)],
                None => Seq::<(int, int)>::empty(),
            });
            assert forall|j: int| 0 <= j < hints.len() implies policy_hint(
                #[trigger] hints@[j],
                rules@[dh1[j].1],
                decls@[dh1[j].0].path@,
                "declaration"@,
                decls@[dh1[j].0].line,
            ) by {
                if j < before.len() {
                    assert(hints@[j] == before[j]);
                    assert(dh1[j] == dh0[j]);
                }
            }
            assert(excluded@ =~= excluded_spec(decls@, rules@, hints_enabled, i + 1));
            assert(lints@ =~= lint_spec(decls@, rules@, hints_enabled, i + 1));
        }
        i += 1;
    }
    let ghost dn = hints.len() as int;
    let ghost dh = declaration_hints(decls@, rules@, hints_enabled, decls.len() as int);
    let mut u: usize = 0;
    while u < usages.len()
        invariant
            u <= usages.len(),
            dn == dh.len(),
            hints.len() == dn + usage_hints(usages@, rules@, hints_enabled, language, u as int).len(),
            forall|j: int|
                0 <= j < dn ==> policy_hint(
                    #[trigger] hints@[j],
                    rules@[dh[j].1],
                    decls@[dh[j].0].path@,
                    "declaration"@,
                    decls@[dh[j].0].line,
                ),
            forall|j: int|
                0 <= j < usage_hints(usages@, rules@, hints_enabled, language, u as int).len() ==> policy_hint(
                    #[trigger] hints@[dn + j],
                    rules@[usage_hints(usages@, rules@, hints_enabled, language, u as int)[j].1],
                    usages@[usage_hints(usages@, rules@, hints_enabled, language, u as int)[j].0].path@,
                    usages@[usage_hints(usages@, rules@, hints_enabled, language, u as int)[j].0].kind@,
                    usages@[usage_hints(usages@, rules@, hints_enabled, language, u as int)[j].0].line,
                ),
        decreases usages.len() - u,
    {
        let usage = &usages[u];
        let ghost before = hints@;
        let ghost uh0 = usage_hints(usages@, rules@, hints_enabled, language, u as int);
        let mut first: Option<usize> = None;
        if hints_enabled {
            let mut k: usize = 0;
            while k < rules.len() && first.is_none()
                invariant
                    k <= rules.len(),
                    hints_enabled,
                    first is None ==> forall|q: int| 0 <= q < k ==> !usage_hint(#[trigger] rules@[q], hints_enabled, *usage, language),
                    first matches Some(h) ==> h < rules.len() && first_usage_hint(rules@, hints_enabled, *usage, language, 0) == Some(h as int),
                decreases rules.len() - k,
            {
                if fits(&rules[k], usage, language) && matches_name(&rules[k].matcher, usage.path.as_str()) {
                    proof {
                        lemma_first_usage_hint(rules@, hints_enabled, *usage, language, 0, k as int);
                    }
                    first = Some(k);
                }
                k += 1;
            }
            proof {
                if first is None {
                    lemma_first_usage_hint(rules@, hints_enabled, *usage, language, 0, rules.len() as int);
                }
            }
        } else {
            proof {
                lemma_first_usage_hint(rules@, hints_enabled, *usage, language, 0, rules.len() as int);
            }
        }
        match first {
            Some(h) => {
                let o = observation(&rules[h], usage.path.as_str(), usage.kind.as_str(), usage.line);
                hints.push(o);
            },
            None => {},
        }
        proof {
            let uh1 = usage_hints(usages@, rules@, hints_enabled, language, u + 1);
            assert forall|j: int| 0 <= j < dn implies policy_hint(
                #[trigger] hints@[j],
                rules@[dh[j].1],
                decls@[dh[j].0].path@,
                "declaration"@,
                decls@[dh[j].0].line,
            ) by {
                assert(hints@[j] == before[j]);
            }
            assert forall|j: int| 0 <= j < uh1.len() implies policy_hint(
                #[trigger] hints@[dn + j],
                rules@[uh1[j].1],
                usages@[uh1[j].0].path@,
                usages@[uh1[j].0].kind@,
                usages@[uh1[j].0].line,
            ) by {
                if j < uh0.len() {
                    assert(hints@[dn + j] == before[dn + j]);
                    assert(uh1[j] == uh0[j]);
                }
            }
        }
        u += 1;
    }
    Ok(PolicyObservations { hints, excluded_ranges: excluded, lint_exclusions: lints })
}

} // verus!
