//! Tests of the library's own contracts and laws on concrete values.

use conservation_lint::{
    check_test_count_assertions, constant_of_declaration, entropy_conservation_diagnostic,
    find_line_number, group_constants_by_base, group_key_of, has_rs_extension, is_total_name_of,
    sum_conservation_diagnostic, sum_conservation_groups, sum_groups_of_names,
    test_count_of_comment, total_base_of, Diagnostic, DiagnosticLevel, ExtractedData, Location,
    SourceExtractor, SourceFile,
};

fn sources(files: &[(&str, &str)]) -> Vec<SourceFile> {
    files
        .iter()
        .map(|(path, content)| SourceFile { path: path.to_string(), content: content.to_string() })
        .collect()
}

fn extract(files: &[(&str, &str)]) -> ExtractedData {
    SourceExtractor::new().extract_files(&sources(files))
}

#[test]
fn builders_set_their_own_fields() {
    let d = Diagnostic::error("Test error")
        .with_code("conservation-lint::test")
        .at("src/lib.rs", 10, 5)
        .with_rendered("Detailed info");
    assert_eq!(d.level, DiagnosticLevel::Error);
    assert_eq!(d.message, "Test error");
    assert_eq!(d.code.as_deref(), Some("conservation-lint::test"));
    assert_eq!(d.location, Some(Location { file: "src/lib.rs".to_string(), line: 10, column: 5 }));
    assert_eq!(d.rendered.as_deref(), Some("Detailed info"));
    assert_eq!(Diagnostic::warning("w").level, DiagnosticLevel::Warning);
    assert_eq!(Diagnostic::note("n").level, DiagnosticLevel::Note);
    assert_eq!(Diagnostic::note("n").code, None);
}

#[test]
fn builder_order_does_not_matter() {
    let a = Diagnostic::note("m").with_code("c").at("f.rs", 3, 1).with_rendered("r");
    let b = Diagnostic::note("m").with_rendered("r").at("f.rs", 3, 1).with_code("c");
    assert_eq!(a, b);
}

#[test]
fn builder_last_call_wins() {
    let d = Diagnostic::error("m").with_code("a").with_code("b").at("x", 1, 1).at("y", 2, 2);
    assert_eq!(d.code.as_deref(), Some("b"));
    assert_eq!(d.location, Some(Location { file: "y".to_string(), line: 2, column: 2 }));
}

#[test]
fn sum_violation_message_example() {
    let data = extract(&[("src/lib.rs", "\
const SCORE_A: f64 = 10.0;
const SCORE_B: f64 = 20.0;
const SCORE_C: f64 = 15.0;
const SCORE_TOTAL: f64 = 50.0; // Bug! Actually sums to 45.
")]);
    let groups = sum_conservation_groups(&data.constants);
    assert_eq!(groups.len(), 1);
    assert_eq!(groups[0].total, 3);
    assert_eq!(groups[0].base, "SCORE");
    assert_eq!(groups[0].components, vec![0, 1, 2]);
    let values = vec!["10".to_string(), "20".to_string(), "15".to_string()];
    let d = sum_conservation_diagnostic(&data.constants, &groups[0], true, "50", "45", "5", &values);
    assert_eq!(d.level, DiagnosticLevel::Error);
    assert_eq!(
        d.message,
        "Conservation violation: SCORE_TOTAL = 50 but sub-components sum to 45 (diff: 5)"
    );
    assert_eq!(
        d.rendered.as_deref(),
        Some("Components: [SCORE_A=10, SCORE_B=20, SCORE_C=15] should sum to 50 (SCORE_TOTAL)")
    );
    assert_eq!(d.code.as_deref(), Some("conservation-lint::sum-conservation"));
    assert_eq!(d.location, Some(Location { file: "src/lib.rs".to_string(), line: 4, column: 1 }));
    let ok = sum_conservation_diagnostic(&data.constants, &groups[0], false, "50", "50", "0", &values);
    assert_eq!(ok.level, DiagnosticLevel::Note);
    assert_eq!(ok.message, "\u{2713} Conservation OK: SCORE_TOTAL = 50 matches sub-component sum 50");
    assert_eq!(ok.rendered, None);
}

#[test]
fn test_count_message_example() {
    let data = extract(&[("src/lib.rs", "\
// 15 tests
#[test]
fn test_one() {}
#[test]
fn test_two() {}
")]);
    assert_eq!(data.test_function_count, 2);
    let d = check_test_count_assertions(&data);
    assert_eq!(d.len(), 1);
    assert_eq!(d[0].level, DiagnosticLevel::Warning);
    assert_eq!(d[0].message, "Test count assertion says 15 tests, but found 2 #[test] functions");
    assert_eq!(
        d[0].rendered.as_deref(),
        Some("Comment: \"// 15 tests\" \u{2014} expected 15 tests, found 2")
    );
    assert_eq!(d[0].location, Some(Location { file: "src/lib.rs".to_string(), line: 1, column: 1 }));
}

#[test]
fn test_count_note_when_counts_agree() {
    let data = extract(&[("src/lib.rs", "// 1 test\n#[test]\nfn only() {}\n")]);
    let d = check_test_count_assertions(&data);
    assert_eq!(d.len(), 1);
    assert_eq!(d[0].level, DiagnosticLevel::Note);
    assert_eq!(d[0].message, "\u{2713} Test count OK: assertion of 1 matches actual count");
    assert_eq!(d[0].rendered, None);
}

#[test]
fn test_count_diagnostics_never_errors_and_follow_assertions() {
    let data = extract(&[("src/lib.rs", "// 0 tests\n// 2 tests\n// 0 tests\n")]);
    let d = check_test_count_assertions(&data);
    let levels: Vec<_> = d.iter().map(|x| x.level).collect();
    assert_eq!(levels, vec![DiagnosticLevel::Note, DiagnosticLevel::Warning, DiagnosticLevel::Note]);
}

#[test]
fn test_count_comment_forms() {
    let data = extract(&[("src/lib.rs", "/// 3 tests here\n//7   test\n// 99999999999999999999999 tests\n")]);
    let counts: Vec<_> = data.test_count_assertions.iter().map(|a| a.expected_count).collect();
    assert_eq!(counts, vec![3, 7]);
    assert_eq!(data.test_count_assertions[0].raw_comment, "// 3 tests");
    assert_eq!(data.test_count_assertions[1].raw_comment, "//7   test");
    assert_eq!(data.test_count_assertions[1].line, 2);
}

#[test]
fn line_numbers_follow_first_occurrence_of_the_match() {
    // The first match takes in the empty line above it, so it is placed on line 1.
    let data = extract(&[("src/lib.rs", "\nconst A_X: i64 = 1;\nconst B_X: i64 = 2;\n")]);
    let lines: Vec<_> = data.constants.iter().map(|c| c.line).collect();
    assert_eq!(lines, vec![1, 3]);
    let data = extract(&[("src/lib.rs", "\npub const MAX_SIZE: usize = 1024;\n")]);
    assert_eq!(data.constants.len(), 1);
    assert_eq!(data.constants[0].line, 1);
}

#[test]
fn a_comment_after_code_counts_its_partial_line() {
    let data = extract(&[("src/lib.rs", "fn f() {} // 3 tests\n")]);
    assert_eq!(data.test_count_assertions.len(), 1);
    assert_eq!(data.test_count_assertions[0].expected_count, 3);
    assert_eq!(data.test_count_assertions[0].raw_comment, "// 3 tests");
    assert_eq!(data.test_count_assertions[0].line, 2);
}

#[test]
fn line_numbers_count_the_lines_before_the_text() {
    let content: Vec<char> = "ab\ncd\r\nef".chars().collect();
    let find = |t: &str| find_line_number(&content, &t.chars().collect::<Vec<char>>());
    assert_eq!(find("b"), 2);
    assert_eq!(find("a"), 1);
    assert_eq!(find("c"), 2);
    assert_eq!(find("d"), 3);
    assert_eq!(find("ef"), 3);
    assert_eq!(find("zz"), 0);
}

#[test]
fn declaration_and_comment_texts_give_entries() {
    let content: Vec<char> = "// x\n\n  const A_B: i64 = 1_000;\n// 7 tests\n".chars().collect();
    let c = constant_of_declaration("src/lib.rs", &content, "\n  const A_B: i64 = 1_000;", "A_B", "1_000")
        .expect("a decimal literal");
    assert_eq!(c.name, "A_B");
    assert_eq!(c.value_text, "1000");
    assert!(c.is_integer);
    assert_eq!(c.line, 2);
    assert_eq!(c.file, "src/lib.rs");
    assert!(constant_of_declaration("src/lib.rs", &content, "x", "X", "\u{661}").is_none());
    let a = test_count_of_comment("src/lib.rs", &content, "// 7 tests", "7").expect("a count");
    assert_eq!((a.expected_count, a.line, a.raw_comment.as_str()), (7, 4, "// 7 tests"));
    assert!(test_count_of_comment("src/lib.rs", &content, "// 99999999999999999999999 tests", "99999999999999999999999").is_none());
}

#[test]
fn total_names_and_bases_on_uppercased_names() {
    assert!(is_total_name_of("SCORE_TOTAL"));
    assert!(is_total_name_of("WEIGHT"));
    assert!(!is_total_name_of("TOTAL_SCORE"));
    assert!(!is_total_name_of("SCORETOTAL"));
    assert_eq!(total_base_of("__SCORE__TOTAL"), "SCORE");
    assert_eq!(total_base_of("A_B_WEIGHT"), "A_B");
    assert_eq!(total_base_of("SUM"), "");
    let names: Vec<String> = ["SCORE_A", "SCORE_TOTAL", "X_SUM", "SCORE_B"].iter().map(|s| s.to_string()).collect();
    let groups = sum_groups_of_names(&names);
    assert_eq!(groups.len(), 1);
    assert_eq!((groups[0].total, groups[0].base.as_str(), groups[0].components.clone()), (1, "SCORE", vec![0, 3]));
}

#[test]
fn grouping_keys_follow_the_documented_examples() {
    assert_eq!(group_key_of("SCORE_TOTAL"), "SCORE");
    assert_eq!(group_key_of("TOTAL_WEIGHT"), "WEIGHT");
    assert_eq!(group_key_of("SUM_WEIGHT"), "WEIGHT");
    assert_eq!(group_key_of("SUM_TOTAL"), "");
    assert_eq!(group_key_of("WEIGHT_SUM"), "");
    assert_eq!(group_key_of("TOTAL"), "");
    assert_eq!(group_key_of("WEIGHT"), "");
    assert_eq!(group_key_of("SCORE_WEIGHT"), "SCORE");
    assert_eq!(group_key_of("SCORE_A"), "SCORE");
    assert_eq!(group_key_of("PLAIN"), "PLAIN");
    let data = extract(&[("src/lib.rs", "const TOTAL_WEIGHT: f64 = 1.0;\n")]);
    let groups = group_constants_by_base(&data.constants);
    assert_eq!(groups.len(), 1);
    assert_eq!(groups[0].base, "WEIGHT");
    assert_eq!(groups[0].members, vec![0]);
}

#[test]
fn appending_a_total_keeps_earlier_checks() {
    let before = extract(&[("src/lib.rs", "const SCORE_A: i64 = 1;\nconst SCORE_TOTAL: i64 = 1;\n")]);
    let after = extract(&[(
        "src/lib.rs",
        "const SCORE_A: i64 = 1;\nconst SCORE_TOTAL: i64 = 1;\nconst SCORE_SUM: i64 = 2;\n",
    )]);
    let g1 = sum_conservation_groups(&before.constants);
    let g2 = sum_conservation_groups(&after.constants);
    assert_eq!(g1.len(), 1);
    assert_eq!(g2.len(), 2);
    assert_eq!((g2[0].total, g2[0].base.clone(), g2[0].components.clone()), (g1[0].total, g1[0].base.clone(), g1[0].components.clone()));
    assert_eq!(g2[1].total, 2);
}

#[test]
fn value_literals_lose_their_underscores() {
    let data = extract(&[("src/lib.rs", "\
const BIG: u64 = 1_000_000;
const HALF: f64 = 0.5;
const NEG: i64 = -12;
const POINT: f64 = 3.;
const MIXED: f64 = 1_000.5;
")]);
    let got: Vec<_> = data
        .constants
        .iter()
        .map(|c| (c.name.as_str(), c.value_text.as_str(), c.is_integer))
        .collect();
    assert_eq!(
        got,
        vec![("BIG", "1000000", true), ("HALF", "0.5", false), ("NEG", "-12", true), ("POINT", "3.", false)]
    );
}

#[test]
fn files_are_scanned_independently_and_in_order() {
    let a = ("src/a.rs", "const A_ONE: i64 = 1;\n#[test]\nfn t() {}\n");
    let b = ("src/b.rs", "const B_ONE: i64 = 2;\n// 1 test\n");
    let both = extract(&[a, b]);
    let first = extract(&[a]);
    let second = extract(&[b]);
    let names = |d: &ExtractedData| d.constants.iter().map(|c| c.name.clone()).collect::<Vec<_>>();
    let mut joined = names(&first);
    joined.extend(names(&second));
    assert_eq!(names(&both), joined);
    assert_eq!(both.test_function_count, first.test_function_count + second.test_function_count);
    assert_eq!(both.files_scanned, 2);
    assert_eq!(both.test_count_assertions.len(), 1);
    assert_eq!(both.test_count_assertions[0].file, "src/b.rs");
}

#[test]
fn non_rust_files_contribute_nothing() {
    let with = extract(&[
        ("src/lib.rs", "const X_TOTAL: i64 = 1;"),
        ("README.md", "const FAKE: i64 = 9; // 4 tests #[test]"),
        ("src/.rs", "const HIDDEN: i64 = 1;"),
    ]);
    let without = extract(&[("src/lib.rs", "const X_TOTAL: i64 = 1;")]);
    assert_eq!(with.files_scanned, 1);
    assert_eq!(with.constants.len(), without.constants.len());
    assert_eq!(with.test_count_assertions.len(), 0);
    assert_eq!(with.test_function_count, 0);
}

#[test]
fn rust_extension_is_read_from_the_file_name() {
    assert!(has_rs_extension("src/lib.rs"));
    assert!(has_rs_extension("a.b.rs"));
    assert!(has_rs_extension("..rs"));
    assert!(!has_rs_extension(".rs"));
    assert!(!has_rs_extension("src/dir.rs/notes.txt"));
    assert!(!has_rs_extension("lib.rsx"));
}

#[test]
fn distribution_candidates_are_found_per_line() {
    let data = extract(&[("src/lib.rs", "\
fn probs() -> Vec<f64> {\r
    vec![0.2, 0.3 , 0.5]\r
}\r
static P: &[f64] = &[ 1.0,2.0 ];
")]);
    assert_eq!(data.distribution_candidates.len(), 2);
    let d0 = &data.distribution_candidates[0];
    assert_eq!(d0.line, 2);
    assert_eq!(d0.function_name, "probs");
    assert_eq!(d0.distribution_values, vec!["0.2", "0.3", "0.5"]);
    let d1 = &data.distribution_candidates[1];
    assert_eq!(d1.line, 4);
    assert_eq!(d1.function_name, "probs");
    assert_eq!(d1.distribution_values, vec!["1.0", "2.0"]);
}

#[test]
fn distribution_outside_any_function_is_unknown() {
    let data = extract(&[("src/lib.rs", "const W: &[f64] = &[0.5, 0.5];\n")]);
    assert_eq!(data.distribution_candidates.len(), 1);
    assert_eq!(data.distribution_candidates[0].function_name, "unknown");
    assert_eq!(data.distribution_candidates[0].line, 1);
}

#[test]
fn entropy_diagnostic_texts() {
    let data = extract(&[("src/lib.rs", "fn p() {\n    let v = vec![0.5, 0.6];\n}\n")]);
    let c = &data.distribution_candidates[0];
    let w = entropy_conservation_diagnostic(c, "1.1", true);
    assert_eq!(w.level, DiagnosticLevel::Warning);
    assert_eq!(w.message, "Entropy violation: distribution in p sums to 1.1 (expected ~1.0)");
    assert_eq!(
        w.rendered.as_deref(),
        Some("Distribution values: [\"0.5\", \"0.6\"] \u{2014} sum = 1.1 (entropy conservation requires sum \u{2248} 1.0)")
    );
    assert_eq!(w.code.as_deref(), Some("conservation-lint::entropy-conservation"));
    assert_eq!(w.location, Some(Location { file: "src/lib.rs".to_string(), line: 2, column: 1 }));
    let n = entropy_conservation_diagnostic(c, "1", false);
    assert_eq!(n.level, DiagnosticLevel::Note);
    assert_eq!(n.message, "\u{2713} Entropy OK: distribution in p sums to 1");
}

#[test]
fn totals_are_never_their_own_components() {
    let data = extract(&[("src/lib.rs", "\
const SCORE_TOTAL: i64 = 10;
const SCORE_SUM: i64 = 10;
const SCORE_A: i64 = 10;
const TOTAL: i64 = 3;
const _SUM: i64 = 1;
")]);
    let groups = sum_conservation_groups(&data.constants);
    let got: Vec<_> = groups.iter().map(|g| (g.total, g.base.clone(), g.components.clone())).collect();
    assert_eq!(got, vec![(0, "SCORE".to_string(), vec![2]), (1, "SCORE".to_string(), vec![2])]);
}

#[test]
fn lowercase_names_are_compared_uppercased() {
    let data = extract(&[("src/lib.rs", "const score_total: i64 = 3;\nconst score_a: i64 = 3;\n")]);
    let groups = sum_conservation_groups(&data.constants);
    assert_eq!(groups.len(), 1);
    assert_eq!(groups[0].base, "SCORE");
    assert_eq!(groups[0].components, vec![1]);
}

#[test]
fn a_total_without_components_is_not_checked() {
    let data = extract(&[("src/lib.rs", "const OFFSET: i64 = 0;\nconst WEIGHT_TOTAL: i64 = 0;\n")]);
    assert!(sum_conservation_groups(&data.constants).is_empty());
}

#[test]
fn constants_grouped_by_base() {
    let data = extract(&[("src/lib.rs", "\
const SCORE_TOTAL: i64 = 1;
const SCORE_A: i64 = 1;
const WEIGHT_X: i64 = 1;
const OTHER: i64 = 1;
const score_b: i64 = 1;
")]);
    let groups = group_constants_by_base(&data.constants);
    let got: Vec<_> = groups.iter().map(|g| (g.base.clone(), g.members.clone())).collect();
    assert_eq!(
        got,
        vec![
            ("SCORE".to_string(), vec![0, 1, 4]),
            ("X".to_string(), vec![2]),
            ("OTHER".to_string(), vec![3]),
        ]
    );
}
