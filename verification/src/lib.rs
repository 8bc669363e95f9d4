//! Static checks of "conservation laws" in Rust source text: declared
//! totals against their sub-components, test-count comments against the
//! number of test attributes, and probability distributions.

pub mod checker;
pub mod diagnostic;
pub mod extractor;
pub mod pattern;
pub mod text;

pub use checker::{
    check_test_count_assertions, entropy_conservation_diagnostic, is_total_name_of,
    sum_conservation_diagnostic, sum_conservation_groups, sum_groups_of_names, total_base_of,
    CheckKind, CheckResult, SumGroup,
};
pub use diagnostic::{Diagnostic, DiagnosticLevel, Location, Span};
pub use extractor::{
    constant_of_declaration, find_line_number, group_constants_by_base, group_key_of,
    has_rs_extension, test_count_of_comment, Constant, ConstantGroup, DistributionCandidate,
    ExtractedData, SourceExtractor, SourceFile, TestCountAssertion,
};
