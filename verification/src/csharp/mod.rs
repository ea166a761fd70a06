//! C# lint checks: the XML doc-comment dialect over the same codes and
//! finding shape the Rust checks emit.
//!
//! [`run`] collects one [`declarations::Declaration`] per declaration of
//! the compilation unit and of every namespace and type body, in document
//! order, decides with [`can_throw`] which methods and constructors can
//! throw, runs every declaration rule over each declaration in code order
//! (DOC001, DOC002, DOC003, DOC004, DOC005, DOC006, DOC010, DOC011,
//! TEST001, TEST002), and then adds the MOD003 hints of the whole file.
//! A tree with syntax errors yields no findings.
pub mod can_throw;
pub mod declarations;
pub mod doc001_missing_docs;
pub mod doc002_missing_exception_tag;
pub mod doc003_vague_exception;
pub mod doc004_missing_param_tags;
pub mod doc005_undocumented_param;
pub mod doc006_placeholder;
pub mod doc010_tag_order;
pub mod doc011_missing_returns;
pub mod doc_tags;
pub mod exception_tags;
pub mod mod003_qualified_path;
pub mod mod004_sole_caller;
pub mod names;
pub mod perf001_allocation_hints;
pub mod scope;
pub mod test001_test_naming;
pub mod test002_test_summary;

use crate::csharp::can_throw::{can_throw, can_throw_flags};
use crate::csharp::declarations::{collect_declarations, records_node, Declaration};
use crate::csharp::mod003_qualified_path::all_hints;
use crate::csharp::mod003_qualified_path::file_hints;
use crate::csharp::mod003_qualified_path::RootPolicy;
use crate::diagnostic::Diagnostic;
use crate::syntax::{has_error, tree_has_error, SyntaxTree};
use vstd::prelude::*;

verus! {

/// The number of declaration rules, in code order.
pub open spec fn rule_count() -> int {
    10
}

/// Rule `id` (in code order) applies to `decl`, given whether it can throw.
pub open spec fn rule_fires(id: int, decl: Declaration, throws: bool) -> bool {
    if id == 0 {
        doc001_missing_docs::fires(decl)
    } else if id == 1 {
        doc002_missing_exception_tag::fires(decl, throws)
    } else if id == 2 {
        doc003_vague_exception::fires(decl, throws)
    } else if id == 3 {
        doc004_missing_param_tags::fires(decl)
    } else if id == 4 {
        doc005_undocumented_param::fires(decl)
    } else if id == 5 {
        doc006_placeholder::fires(decl)
    } else if id == 6 {
        doc010_tag_order::fires(decl)
    } else if id == 7 {
        doc011_missing_returns::fires(decl)
    } else if id == 8 {
        test001_test_naming::fires(decl)
    } else {
        test002_test_summary::fires(decl)
    }
}

/// `d` is the finding rule `id` reports on `decl`.
pub open spec fn rule_expected(id: int, d: Diagnostic, decl: Declaration) -> bool {
    if id == 0 {
        doc001_missing_docs::expected(d, decl)
    } else if id == 1 {
        doc002_missing_exception_tag::expected(d, decl)
    } else if id == 2 {
        doc003_vague_exception::expected(d, decl)
    } else if id == 3 {
        doc004_missing_param_tags::expected(d, decl)
    } else if id == 4 {
        doc005_undocumented_param::expected(d, decl)
    } else if id == 5 {
        doc006_placeholder::expected(d, decl)
    } else if id == 6 {
        doc010_tag_order::expected(d, decl)
    } else if id == 7 {
        doc011_missing_returns::expected(d, decl)
    } else if id == 8 {
        test001_test_naming::expected(d, decl)
    } else {
        test002_test_summary::expected(d, decl)
    }
}

/// `ds` is exactly the findings of rules `id..` on `decl`: one finding
/// per rule that applies, in rule order.
pub open spec fn report_from(ds: Seq<Diagnostic>, decl: Declaration, throws: bool, id: int) -> bool
    decreases rule_count() - id,
{
    if id < 0 || id >= rule_count() {
        ds.len() == 0
    } else if rule_fires(id, decl, throws) {
        ds.len() >= 1 && rule_expected(id, ds[0], decl) && report_from(ds.drop_first(), decl, throws, id + 1)
    } else {
        report_from(ds, decl, throws, id + 1)
    }
}

/// The number of rules from `id` on that apply to `decl`.
pub open spec fn fired_count(decl: Declaration, throws: bool, id: int) -> int
    decreases rule_count() - id,
{
    if id < 0 || id >= rule_count() {
        0
    } else {
        (if rule_fires(id, decl, throws) {
            1int
        } else {
            0int
        }) + fired_count(decl, throws, id + 1)
    }
}

/// `ds` is exactly the findings of every declaration from `i` on, one
/// declaration after the other.
pub open spec fn reports_from(ds: Seq<Diagnostic>, decls: Seq<Declaration>, i: int) -> bool
    decreases decls.len() - i,
{
    if i < 0 || i >= decls.len() {
        ds.len() == 0
    } else {
        let n = fired_count(decls[i], can_throw(decls, i), 0);
        &&& 0 <= n <= ds.len()
        &&& report_from(ds.take(n), decls[i], can_throw(decls, i), 0)
        &&& reports_from(ds.skip(n), decls, i + 1)
    }
}

/// A report of rules `id..` has one finding per rule that applies.
proof fn lemma_report_len(ds: Seq<Diagnostic>, decl: Declaration, throws: bool, id: int)
    requires
        report_from(ds, decl, throws, id),
    ensures
        ds.len() == fired_count(decl, throws, id),
    decreases rule_count() - id,
{
    if 0 <= id < rule_count() {
        if rule_fires(id, decl, throws) {
            lemma_report_len(ds.drop_first(), decl, throws, id + 1);
        } else {
            lemma_report_len(ds, decl, throws, id + 1);
        }
    }
}

/// Prepending rule `id`'s output to a report of rules `id + 1..` gives a
/// report of rules `id..`.
proof fn lemma_report_step(r: Seq<Diagnostic>, tail: Seq<Diagnostic>, decl: Declaration, throws: bool, id: int)
    requires
        0 <= id < rule_count(),
        report_from(tail, decl, throws, id + 1),
        r.len() == (if rule_fires(id, decl, throws) {
            1int
        } else {
            0int
        }),
        r.len() == 1 ==> rule_expected(id, r[0], decl),
    ensures
        report_from(r + tail, decl, throws, id),
{
    if r.len() == 1 {
        assert((r + tail).drop_first() =~= tail);
    } else {
        assert(r + tail =~= tail);
    }
}

/// DOC004 and DOC005 never report on the same declaration: one fires when
/// no parameter is tagged, the other when some are tagged and some are
/// left out.
pub proof fn lemma_param_rules_exclusive(decl: Declaration)
    ensures
        !(doc004_missing_param_tags::fires(decl) && doc005_undocumented_param::fires(decl)),
{
}

/// DOC002 and DOC003 never report on the same declaration: one fires when
/// no `<exception>` tag exists, the other when tags exist but none names a
/// concrete type.
pub proof fn lemma_exception_rules_exclusive(decl: Declaration, throws: bool)
    ensures
        !(doc002_missing_exception_tag::fires(decl, throws) && doc003_vague_exception::fires(decl, throws)),
{
}

/// Every declaration rule reports at most once per declaration, so a
/// declaration's report holds at most one finding per rule.
pub proof fn lemma_report_at_most_one_per_rule(ds: Seq<Diagnostic>, decl: Declaration, throws: bool)
    requires
        report_from(ds, decl, throws, 0),
    ensures
        ds.len() <= rule_count(),
{
    lemma_report_len(ds, decl, throws, 0);
    lemma_fired_count_bound(decl, throws, 0);
}

proof fn lemma_fired_count_bound(decl: Declaration, throws: bool, id: int)
    requires
        0 <= id <= rule_count(),
    ensures
        fired_count(decl, throws, id) <= rule_count() - id,
    decreases rule_count() - id,
{
    if id < rule_count() {
        lemma_fired_count_bound(decl, throws, id + 1);
    }
}

/// Every declaration rule over one declaration, in rule order.
///
/// # Arguments
///
/// - `decl` - the declaration to inspect.
/// - `throws` - whether it can throw, as [`can_throw_flags`] decides.
///
/// # Returns
///
/// One finding per rule that applies.
pub fn check_declaration(decl: &Declaration, throws: bool) -> (r: Vec<Diagnostic>)
    ensures
        report_from(r@, *decl, throws, 0),
{
    let mut tail: Vec<Diagnostic> = Vec::new();
    let mut r = test002_test_summary::check(decl);
    proof {
        lemma_report_step(r@, tail@, *decl, throws, 9);
    }
    r.append(&mut tail);
    let mut tail = r;
    let mut r = test001_test_naming::check(decl);
    proof {
        lemma_report_step(r@, tail@, *decl, throws, 8);
    }
    r.append(&mut tail);
    let mut tail = r;
    let mut r = doc011_missing_returns::check(decl);
    proof {
        lemma_report_step(r@, tail@, *decl, throws, 7);
    }
    r.append(&mut tail);
    let mut tail = r;
    let mut r = doc010_tag_order::check(decl);
    proof {
        lemma_report_step(r@, tail@, *decl, throws, 6);
    }
    r.append(&mut tail);
    let mut tail = r;
    let mut r = doc006_placeholder::check(decl);
    proof {
        lemma_report_step(r@, tail@, *decl, throws, 5);
    }
    r.append(&mut tail);
    let mut tail = r;
    let mut r = doc005_undocumented_param::check(decl);
    proof {
        lemma_report_step(r@, tail@, *decl, throws, 4);
    }
    r.append(&mut tail);
    let mut tail = r;
    let mut r = doc004_missing_param_tags::check(decl);
    proof {
        lemma_report_step(r@, tail@, *decl, throws, 3);
    }
    r.append(&mut tail);
    let mut tail = r;
    let mut r = doc003_vague_exception::check(decl, throws);
    proof {
        lemma_report_step(r@, tail@, *decl, throws, 2);
    }
    r.append(&mut tail);
    let mut tail = r;
    let mut r = doc002_missing_exception_tag::check(decl, throws);
    proof {
        lemma_report_step(r@, tail@, *decl, throws, 1);
    }
    r.append(&mut tail);
    let mut tail = r;
    let mut r = doc001_missing_docs::check(decl);
    proof {
        lemma_report_step(r@, tail@, *decl, throws, 0);
    }
    r.append(&mut tail);
    r
}

/// Every declaration rule over every declaration, declaration by
/// declaration, with the can-throw answers of the whole file.
///
/// # Returns
///
/// The findings of each declaration in turn, each in rule order.
pub fn check_declarations(decls: &Vec<Declaration>) -> (r: Vec<Diagnostic>)
    ensures
        reports_from(r@, decls@, 0),
{
    let flags = can_throw_flags(decls);
    let mut tail: Vec<Diagnostic> = Vec::new();
    let mut i = decls.len();
    while i > 0
        invariant
            i <= decls.len(),
            flags.len() == decls.len(),
            forall|q: int| 0 <= q < decls.len() ==> #[trigger] flags@[q] == can_throw(decls@, q),
            reports_from(tail@, decls@, i as int),
        decreases i,
    {
        i -= 1;
        let mut part = check_declaration(&decls[i], flags[i]);
        let ghost p = part@;
        let ghost t = tail@;
        proof {
            lemma_report_len(p, decls@[i as int], can_throw(decls@, i as int), 0);
        }
        part.append(&mut tail);
        assert(part@.take(p.len() as int) =~= p);
        assert(part@.skip(p.len() as int) =~= t);
        tail = part;
    }
    tail
}

/// Run every C# check over a parsed file: the declaration rules first,
/// then the MOD003 hints.
///
/// # Returns
///
/// No findings when the tree holds a syntax error: a broken tree would
/// report on misread declarations. Otherwise the declaration findings,
/// declaration by declaration, followed by the MOD003 hints.
pub fn run(tree: &SyntaxTree, src: &[u8]) -> (r: Vec<Diagnostic>)
    requires
        tree.wf(),
        tree.source_len == src@.len(),
    ensures
        has_error(*tree) ==> r.len() == 0,
        !has_error(*tree) ==> exists|decls: Seq<Declaration>, n: int|
            {
                &&& 0 <= n <= r.len()
                &&& #[trigger] reports_from(r@.take(n), decls, 0)
                &&& all_hints(r@.skip(n))
                &&& file_hints(*tree, src@, RootPolicy::Declared, r@.skip(n))
                &&& forall|k: int| 0 <= k < decls.len() ==> records_node(*tree, decls[k].node as int, #[trigger] decls[k])
                &&& crate::csharp::declarations::nodes_of(decls) == crate::csharp::declarations::decl_nodes(*tree, 0)
                &&& forall|k: int|
                    0 <= k < decls.len() ==> crate::csharp::declarations::decl_spec(
                        *tree,
                        src@,
                        decls[k].node,
                        decls[k].kind,
                        #[trigger] decls[k],
                    )
            },
{
    if tree_has_error(tree) {
        return Vec::new();
    }
    let decls = collect_declarations(tree, src);
    let mut out = check_declarations(&decls);
    let ghost d = out@;
    let mut hints = mod003_qualified_path::check(tree, src);
    let ghost h = hints@;
    out.append(&mut hints);
    assert(out@.take(d.len() as int) =~= d);
    assert(out@.skip(d.len() as int) =~= h);
    out
}

} // verus!
