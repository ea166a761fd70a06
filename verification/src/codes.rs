//! Lint codes shared by the Rust and C# rules.
use vstd::prelude::*;

verus! {

pub const CODE_MISSING_DOCS: &'static str = "DOC001";
pub const CODE_MISSING_ERRORS: &'static str = "DOC002";
pub const CODE_VAGUE_ERRORS: &'static str = "DOC003";
pub const CODE_MISSING_ARGUMENTS: &'static str = "DOC004";
pub const CODE_UNDOCUMENTED_PARAM: &'static str = "DOC005";
pub const CODE_DOC_PLACEHOLDER: &'static str = "DOC006";
pub const CODE_ERROR_VARIANT_ORDER: &'static str = "DOC008";
pub const CODE_MISSING_MODULE_DOCS: &'static str = "DOC009";
pub const CODE_SECTION_ORDER: &'static str = "DOC010";
pub const CODE_MISSING_RETURNS: &'static str = "DOC011";
pub const CODE_LEN001: &'static str = "LEN001";
pub const CODE_MODULE_SIZE: &'static str = "MOD001";
pub const CODE_MOD002: &'static str = "MOD002";
pub const CODE_QUALIFIED_PATH: &'static str = "MOD003";
pub const CODE_MOD004: &'static str = "MOD004";
pub const CODE_DUPLICATION: &'static str = "DUP001";
pub const CODE_PERF001: &'static str = "PERF001";
pub const CODE_TEST_NAMING: &'static str = "TEST001";
pub const CODE_TEST_SUMMARY: &'static str = "TEST002";

} // verus!
