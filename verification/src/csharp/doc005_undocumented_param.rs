//! `DOC005`: a member documents some parameters with `<param>` tags but
//! leaves out others.
use crate::codes::CODE_UNDOCUMENTED_PARAM;
use crate::csharp::declarations::{decl_diagnostic, decl_finding, Declaration};
use crate::csharp::doc004_missing_param_tags::scans_params;
use crate::csharp::doc_tags::{param_tags, param_tags_spec};
use crate::diagnostic::{Diagnostic, Severity};
use crate::text::{copy_string, join, join_spec, owned, push_str, strings_contain, views};
use vstd::prelude::*;

verus! {

/// The names of `params` that no tag of `tags` names, in order.
pub open spec fn untagged(params: Seq<Seq<char>>, tags: Seq<Seq<char>>) -> Seq<Seq<char>> {
    params.filter(|p: Seq<char>| !tags.contains(p))
}

/// The parameters of `decl` its `<param>` tags leave out.
pub open spec fn missing_of(decl: Declaration) -> Seq<Seq<char>> {
    untagged(views(decl.params@), param_tags_spec(views(decl.docs@)))
}

/// DOC005 applies to `decl`.
pub open spec fn fires(decl: Declaration) -> bool {
    scans_params(decl) && param_tags_spec(views(decl.docs@)).len() > 0 && missing_of(decl).len() > 0
}

/// The DOC005 message listing the parameters `missing`.
pub open spec fn message(missing: Seq<Seq<char>>) -> Seq<char> {
    "parameter(s) not documented in `<param>` tags: `"@ + join_spec(missing, "`, `"@)
        + "`.\n\nWhy: Omitted parameters leave readers guessing how to supply those inputs.\n\nSuggestions:\n- Add a `<param name=\"...\">` tag for each listed parameter, describing its role and any constraints supported by the existing contract."@
}

/// `d` is the DOC005 finding on `decl`.
pub open spec fn expected(d: Diagnostic, decl: Declaration) -> bool {
    decl_finding(
        d,
        decl,
        CODE_UNDOCUMENTED_PARAM@,
        Severity::Warning,
        "undocumented parameter"@,
        message(missing_of(decl)),
    )
}

/// The names of `params` missing from `tags`, in order.
fn untagged_names(params: &Vec<String>, tags: &Vec<String>) -> (r: Vec<String>)
    ensures
        views(r@) == untagged(views(params@), views(tags@)),
{
    let mut out: Vec<String> = Vec::new();
    let mut i: usize = 0;
    while i < params.len()
        invariant
            i <= params.len(),
            views(out@) == untagged(views(params@).take(i as int), views(tags@)),
        decreases params.len() - i,
    {
        let ghost pre = views(params@).take(i + 1);
        assert(pre.drop_last() =~= views(params@).take(i as int));
        if !strings_contain(tags, params[i].as_str()) {
            out.push(copy_string(&params[i]));
        }
        assert(views(out@) =~= untagged(pre, views(tags@))) by {
            reveal(Seq::filter);
        }
        i += 1;
    }
    assert(views(params@).take(params.len() as int) =~= views(params@));
    out
}

/// Report a member whose `<param>` tags leave out declared parameters.
///
/// # Returns
///
/// One DOC005 warning listing the undocumented parameters, else nothing.
pub fn check(decl: &Declaration) -> (r: Vec<Diagnostic>)
    ensures
        r.len() == (if fires(*decl) {
            1int
        } else {
            0int
        }),
        r.len() == 1 ==> expected(r@[0], *decl),
{
    let mut out: Vec<Diagnostic> = Vec::new();
    if !decl.non_private || !decl.parameterized || decl.params.len() == 0 {
        return out;
    }
    let tags = param_tags(&decl.docs);
    if tags.len() == 0 {
        return out;
    }
    let missing = untagged_names(&decl.params, &tags);
    if missing.len() == 0 {
        return out;
    }
    let mut message = owned("parameter(s) not documented in `<param>` tags: `");
    let joined = join(&missing, "`, `");
    push_str(&mut message, joined.as_str());
    push_str(
        &mut message,
        "`.\n\nWhy: Omitted parameters leave readers guessing how to supply those inputs.\n\nSuggestions:\n- Add a `<param name=\"...\">` tag for each listed parameter, describing its role and any constraints supported by the existing contract.",
    );
    out.push(decl_diagnostic(decl, CODE_UNDOCUMENTED_PARAM, Severity::Warning, "undocumented parameter", message));
    out
}

} // verus!
