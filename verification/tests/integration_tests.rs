//! Integration tests: whole-crate scenarios, run against the library's
//! extraction and checks. Numbers are read and summed here as the linter's
//! front end does, with the default tolerance of 0.001.

use conservation_lint::{
    check_test_count_assertions, entropy_conservation_diagnostic, sum_conservation_diagnostic, sum_conservation_groups, Diagnostic,
    DiagnosticLevel, SourceExtractor, SourceFile,
};

fn sources(files: &[(&str, &str)]) -> Vec<SourceFile> {
    files
        .iter()
        .map(|(path, content)| SourceFile { path: path.to_string(), content: content.to_string() })
        .collect()
}

fn lint_sources(files: &[(&str, &str)]) -> Vec<Diagnostic> {
    let data = SourceExtractor::new().extract_files(&sources(files));
    let mut diagnostics = Vec::new();
    for group in sum_conservation_groups(&data.constants) {
        let value = |i: usize| data.constants[i].value_text.parse::<f64>().unwrap();
        let expected = value(group.total);
        let actual: f64 = group.components.iter().map(|&i| value(i)).sum();
        let diff = (actual - expected).abs();
        let values: Vec<String> = group.components.iter().map(|&i| format!("{}", value(i))).collect();
        diagnostics.push(sum_conservation_diagnostic(
            &data.constants,
            &group,
            diff > 0.001,
            &format!("{}", expected),
            &format!("{}", actual),
            &format!("{}", diff),
            &values,
        ));
    }
    diagnostics.extend(check_test_count_assertions(&data));
    for c in &data.distribution_candidates {
        let parsed: Vec<f64> = c.distribution_values.iter().filter_map(|v| v.parse::<f64>().ok()).collect();
        if parsed.len() >= 2 && parsed.iter().all(|&v| v >= 0.0 && v <= 1.0) {
            let sum: f64 = parsed.iter().sum();
            if (sum - 1.0).abs() < 0.01 || (sum > 0.0 && sum < 2.0) {
                diagnostics.push(entropy_conservation_diagnostic(c, &format!("{}", sum), (sum - 1.0).abs() > 0.001));
            }
        }
    }
    diagnostics
}

#[test]
fn test_detects_sum_conservation_violation() {
    let diagnostics = lint_sources(&[("src/lib.rs", r#"
const SCORE_A: f64 = 10.0;
const SCORE_B: f64 = 20.0;
const SCORE_C: f64 = 15.0;
const SCORE_TOTAL: f64 = 50.0;
"#)]);
    let errors: Vec<_> = diagnostics.iter().filter(|d| d.level == DiagnosticLevel::Error).collect();
    assert!(!errors.is_empty(), "Should detect sum conservation violation");
    assert!(errors[0].message.contains("SCORE_TOTAL"));
    assert!(errors[0].code.as_ref().unwrap().contains("sum-conservation"));
}

#[test]
fn test_sum_conservation_passes() {
    let diagnostics = lint_sources(&[("src/lib.rs", r#"
const SCORE_A: f64 = 10.0;
const SCORE_B: f64 = 20.0;
const SCORE_C: f64 = 20.0;
const SCORE_TOTAL: f64 = 50.0;
"#)]);
    let errors: Vec<_> = diagnostics.iter().filter(|d| d.level == DiagnosticLevel::Error).collect();
    assert!(errors.is_empty(), "Should have no errors when sums match");
    let notes: Vec<_> = diagnostics
        .iter()
        .filter(|d| d.level == DiagnosticLevel::Note && d.message.contains("Conservation OK"))
        .collect();
    assert!(!notes.is_empty(), "Should have passing conservation note");
}

#[test]
fn test_detects_test_count_mismatch() {
    let diagnostics = lint_sources(&[("src/lib.rs", r#"
// 15 tests
pub fn something() {}

#[cfg(test)]
mod tests {
    #[test]
    fn test_one() {}
    #[test]
    fn test_two() {}
}
"#)]);
    let warnings: Vec<_> = diagnostics.iter().filter(|d| d.level == DiagnosticLevel::Warning).collect();
    assert!(warnings.iter().any(|w| w.message.contains("Test count assertion") && w.message.contains("15")));
}

#[test]
fn test_test_count_matches() {
    let diagnostics = lint_sources(&[("src/lib.rs", r#"
// 3 tests

#[test]
fn test_a() {}
#[test]
fn test_b() {}
#[test]
fn test_c() {}
"#)]);
    let notes: Vec<_> = diagnostics
        .iter()
        .filter(|d| d.level == DiagnosticLevel::Note && d.message.contains("Test count OK"))
        .collect();
    assert!(!notes.is_empty(), "Should confirm test count matches");
}

#[test]
fn test_empty_crate_is_clean() {
    let diagnostics = lint_sources(&[("src/lib.rs", "pub fn hello() {}")]);
    let errors: Vec<_> = diagnostics.iter().filter(|d| d.level == DiagnosticLevel::Error).collect();
    assert!(errors.is_empty(), "Empty crate should have no errors");
}

#[test]
fn test_scans_multiple_files() {
    let files = sources(&[
        ("src/lib.rs", "pub mod models;"),
        ("src/models.rs", r#"
const WEIGHT_A: f64 = 0.3;
const WEIGHT_B: f64 = 0.7;
const WEIGHT_TOTAL: f64 = 1.0;
"#),
    ]);
    let extractor = SourceExtractor::new();
    let data = extractor.extract_files(&files);
    assert_eq!(data.files_scanned, 2);
    assert_eq!(data.constants.len(), 3);
}

#[test]
fn test_integer_constants() {
    let files = sources(&[("src/lib.rs", r#"
const MAX_NODES: usize = 100;
const BATCH_SIZE: usize = 32;
"#)]);
    let extractor = SourceExtractor::new();
    let data = extractor.extract_files(&files);
    assert_eq!(data.constants.len(), 2);
    assert!(data.constants[0].is_integer);
}

#[test]
fn test_weight_conservation_violation() {
    let diagnostics = lint_sources(&[("src/lib.rs", r#"
const WEIGHT_INPUT: f64 = 0.4;
const WEIGHT_HIDDEN: f64 = 0.3;
const WEIGHT_OUTPUT: f64 = 0.2;
const WEIGHT_TOTAL: f64 = 1.0;
"#)]);
    let errors: Vec<_> = diagnostics.iter().filter(|d| d.level == DiagnosticLevel::Error).collect();
    // 0.4 + 0.3 + 0.2 = 0.9 != 1.0
    assert!(!errors.is_empty(), "Should detect WEIGHT conservation violation");
}

#[test]
fn test_sum_prefix_conservation() {
    let diagnostics = lint_sources(&[("src/lib.rs", r#"
const REGION_NORTH_SUM: i64 = 100;
const REGION_NORTH: i64 = 40;
const REGION_SOUTH: i64 = 60;
"#)]);
    let has_sum_check = diagnostics
        .iter()
        .any(|d| d.code.as_ref().map_or(false, |c| c.contains("sum-conservation")));
    assert!(has_sum_check, "Should check sum conservation for SUM constants");
}

#[test]
fn test_multiple_test_count_assertions() {
    let diagnostics = lint_sources(&[("src/lib.rs", r#"
// 5 tests
// 10 tests

#[test]
fn test_one() {}
"#)]);
    let test_warnings: Vec<_> = diagnostics
        .iter()
        .filter(|d| d.code.as_ref().map_or(false, |c| c.contains("test-count")))
        .collect();
    assert!(test_warnings.len() >= 2, "Should flag both mismatched assertions");
}

#[test]
fn test_static_constants_extracted() {
    let files = sources(&[("src/lib.rs", r#"
static GLOBAL_SUM: i64 = 42;
const LOCAL_VAL: i64 = 10;
"#)]);
    let extractor = SourceExtractor::new();
    let data = extractor.extract_files(&files);
    assert_eq!(data.constants.len(), 2);
    assert!(data.constants.iter().any(|c| c.name == "GLOBAL_SUM"));
    assert!(data.constants.iter().any(|c| c.name == "LOCAL_VAL"));
}

#[test]
fn test_pub_const_extracted() {
    let files = sources(&[("src/lib.rs", r#"
pub const MAX_SIZE: usize = 1024;
"#)]);
    let extractor = SourceExtractor::new();
    let data = extractor.extract_files(&files);
    assert_eq!(data.constants.len(), 1);
    assert_eq!(data.constants[0].name, "MAX_SIZE");
    assert_eq!(data.constants[0].value_text.parse::<f64>().unwrap(), 1024.0);
}

#[test]
fn test_zero_value_constants() {
    let diagnostics = lint_sources(&[("src/lib.rs", r#"
const OFFSET: i64 = 0;
const WEIGHT_TOTAL: i64 = 0;
"#)]);
    let errors: Vec<_> = diagnostics.iter().filter(|d| d.level == DiagnosticLevel::Error).collect();
    // Zero total with no sub-components matching should not error
    assert!(errors.is_empty());
}

#[test]
fn test_non_rust_files_ignored() {
    let files = sources(&[
        ("src/lib.rs", "const VAL: i64 = 1;"),
        ("src/data.txt", "const FAKE: i64 = 999;"),
        ("src/build.rs", "const BUILD_CONST: i64 = 42;"),
    ]);
    let extractor = SourceExtractor::new();
    let data = extractor.extract_files(&files);
    // data.txt should be ignored, but build.rs is a Rust file and should be scanned
    assert!(!data.constants.iter().any(|c| c.name == "FAKE"));
}

#[test]
fn lint_reports_entropy_of_distributions() {
    let diagnostics = lint_sources(&[("src/lib.rs", "fn probs() -> Vec<f64> {\n    vec![0.2, 0.3, 0.6]\n}\nfn ok() {\n    let p = &[0.5, 0.5];\n}\n")]);
    let entropy: Vec<_> = diagnostics
        .iter()
        .filter(|d| d.code.as_deref() == Some("conservation-lint::entropy-conservation"))
        .collect();
    assert_eq!(entropy.len(), 2);
    assert_eq!(entropy[0].level, DiagnosticLevel::Warning);
    assert!(entropy[0].message.starts_with("Entropy violation: distribution in probs sums to 1.1"));
    assert_eq!(entropy[0].location.as_ref().unwrap().line, 2);
    assert_eq!(entropy[1].level, DiagnosticLevel::Note);
    assert_eq!(entropy[1].message, "\u{2713} Entropy OK: distribution in ok sums to 1");
    assert_eq!(entropy[1].location.as_ref().unwrap().line, 5);
}
