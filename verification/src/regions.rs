//! Documentation regions: runs of documentation lines with their original
//! source line numbers, and the entry points that check them.
//!
//! [`run_region_checks`] checks regions a language backend already
//! gathered; [`run_text_checks`] checks raw text. Both apply the region rule
//! set of this library. The prose measurements and text rules that would
//! report on region text are not part of this library, so that rule set is
//! empty and both entry points report nothing; the types here carry the
//! regions for a caller that brings its own text rules.
use crate::diagnostic::Diagnostic;
use vstd::prelude::*;

verus! {

/// How a region's lines were written.
#[derive(Debug, Clone, Copy, PartialEq, Eq, Structural)]
pub enum Dialect {
    /// Plain prose, one paragraph line per line.
    Prose,
    /// Comment lines behind a line marker such as `//` or `#`.
    LineMarker,
}

/// One documentation line and the 1-based source line it came from.
#[derive(Debug, Clone)]
pub struct RegionLine {
    pub line: usize,
    pub text: String,
}

/// A run of consecutive documentation lines.
#[derive(Debug, Clone)]
pub struct DocRegion {
    pub dialect: Dialect,
    pub lines: Vec<RegionLine>,
}

/// The region rule set of this library: it holds no text rule, so checked
/// regions yield no findings here.
pub open spec fn region_findings(regions: Seq<DocRegion>) -> Seq<Diagnostic> {
    Seq::empty()
}

/// Check explicit documentation regions in source order.
///
/// # Arguments
///
/// - `regions`: documentation regions with original source line numbers
///
/// # Returns
///
/// The findings of the region rule set over `regions`.
pub fn run_region_checks(regions: Vec<DocRegion>) -> (r: Vec<Diagnostic>)
    ensures
        r@ == region_findings(regions@),
{
    let out: Vec<Diagnostic> = Vec::new();
    assert(out@ =~= region_findings(regions@));
    out
}

/// Check raw prose or line-marker documentation selected by extension.
///
/// # Arguments
///
/// - `source`: raw prose or commented source
/// - `ext`: extension selecting the line-marker family
///
/// # Returns
///
/// The findings of the region rule set over the regions of `source`.
pub fn run_text_checks(source: &str, ext: &str) -> (r: Vec<Diagnostic>)
    ensures
        r@ == Seq::<Diagnostic>::empty(),
{
    let regions: Vec<DocRegion> = Vec::new();
    run_region_checks(regions)
}

} // verus!
