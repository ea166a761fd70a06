//! The `<exception>` tags of a declaration's docs and their `cref` types,
//! as DOC002 and DOC003 read them.
use crate::csharp::doc_tags::{cref_of, cref_spec, tag_slices, tag_slices_spec};
use crate::text::{trim, trim_spec, views};
use vstd::prelude::*;

verus! {

/// The whole-name `<exception` tags of the doc lines `docs`.
pub open spec fn exception_tags_spec(docs: Seq<Seq<char>>) -> Seq<Seq<char>> {
    tag_slices_spec(docs, "exception"@)
}

/// Some tag of `tags` names a concrete type: a `cref` value that is not
/// blank.
pub open spec fn names_concrete_type(tags: Seq<Seq<char>>) -> bool {
    exists|i: int| 0 <= i < tags.len() && trim_spec(cref_spec(#[trigger] tags[i])).len() > 0
}

/// The `<exception` tags of `docs`.
pub fn exception_tags(docs: &Vec<String>) -> (r: Vec<String>)
    ensures
        views(r@) == exception_tags_spec(views(docs@)),
{
    tag_slices(docs, "exception")
}

/// True when some tag of `tags` carries a `cref` value that is not blank.
pub fn any_concrete_type(tags: &Vec<String>) -> (r: bool)
    ensures
        r == names_concrete_type(views(tags@)),
{
    let mut i: usize = 0;
    while i < tags.len()
        invariant
            i <= tags.len(),
            forall|q: int| 0 <= q < i ==> trim_spec(cref_spec(#[trigger] views(tags@)[q])).len() == 0,
        decreases tags.len() - i,
    {
        let c = cref_of(tags[i].as_str());
        let t = trim(c.as_str());
        if !t.as_str().is_empty() {
            assert(views(tags@)[i as int] == tags@[i as int]@);
            return true;
        }
        i += 1;
    }
    false
}

} // verus!
