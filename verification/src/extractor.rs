//! Extraction of constants, test-count comments, test attributes and
//! distribution-like array literals from Rust source text.

use vstd::prelude::*;
use crate::diagnostic::str_to_string;
use crate::pattern::{
    array_literal_lists, const_declaration_matches, function_name_capture, string_views,
    triple_views, pair_views, test_count_comment_matches, Pattern, CONST_DECL_PATTERN,
    TEST_COUNT_PATTERN, ARRAY_LITERAL_PATTERN, FUNCTION_NAME_PATTERN,
};
use crate::text::{
    find_chars, find_first, find_from, occurs_in, line_count, line_count_of, occurs_at,
    remove_char, is_decimal_literal, parse_usize, chars_of, remove_char_chars,
    is_decimal_literal_chars, string_from_chars, contains_char, parse_usize_chars, lines_of,
    lines_chars, split_on, trim_class, CharClass, split_chars, trim_chars, seq_views,
    count_matches, count_matches_from, count_chars_matches, ends_with_text, ends_with_chars,
    lemma_split_on_nonempty, contains_text, remove_text, contains_chars, remove_text_chars,
    copy_range, equal_chars, trim_start_class, trim_end_class, is_digit_text,
    law_decimal_literal_shapes, law_count_matches_sees_every_position,
};
use crate::pattern::{to_uppercase, uppercase};

verus! {

/// A numerical constant declared in source code. Its value is kept as the
/// decimal literal that declares it, with underscores removed.
pub struct Constant {
    pub name: String,
    pub value_text: String,
    pub file: String,
    pub line: usize,
    pub is_integer: bool,
}

/// A test count assertion found in a comment.
pub struct TestCountAssertion {
    pub expected_count: usize,
    pub file: String,
    pub line: usize,
    pub raw_comment: String,
}

/// A list of numbers in an array literal: a candidate probability
/// distribution, before its values are read as numbers.
pub struct DistributionCandidate {
    pub file: String,
    pub line: usize,
    pub function_name: String,
    pub distribution_values: Vec<String>,
}

/// All data extracted from a crate's source.
pub struct ExtractedData {
    pub constants: Vec<Constant>,
    pub test_count_assertions: Vec<TestCountAssertion>,
    pub test_function_count: usize,
    pub distribution_candidates: Vec<DistributionCandidate>,
    pub files_scanned: usize,
}

/// A source file: its path and its text.
pub struct SourceFile {
    pub path: String,
    pub content: String,
}

pub struct ConstantView {
    pub name: Seq<char>,
    pub value_text: Seq<char>,
    pub file: Seq<char>,
    pub line: nat,
    pub is_integer: bool,
}

pub struct TestCountView {
    pub expected_count: usize,
    pub file: Seq<char>,
    pub line: nat,
    pub raw_comment: Seq<char>,
}

pub struct CandidateView {
    pub file: Seq<char>,
    pub line: nat,
    pub function_name: Seq<char>,
    pub distribution_values: Seq<Seq<char>>,
}

pub struct ExtractedView {
    pub constants: Seq<ConstantView>,
    pub test_count_assertions: Seq<TestCountView>,
    pub test_function_count: nat,
    pub distribution_candidates: Seq<CandidateView>,
    pub files_scanned: nat,
}

impl View for Constant {
    type V = ConstantView;

    open spec fn view(&self) -> ConstantView {
        ConstantView {
            name: self.name@,
            value_text: self.value_text@,
            file: self.file@,
            line: self.line as nat,
            is_integer: self.is_integer,
        }
    }
}

impl View for TestCountAssertion {
    type V = TestCountView;

    open spec fn view(&self) -> TestCountView {
        TestCountView {
            expected_count: self.expected_count,
            file: self.file@,
            line: self.line as nat,
            raw_comment: self.raw_comment@,
        }
    }
}

impl View for DistributionCandidate {
    type V = CandidateView;

    open spec fn view(&self) -> CandidateView {
        CandidateView {
            file: self.file@,
            line: self.line as nat,
            function_name: self.function_name@,
            distribution_values: string_views(self.distribution_values@),
        }
    }
}

pub open spec fn constant_views(v: Seq<Constant>) -> Seq<ConstantView> {
    v.map_values(|c: Constant| c@)
}

pub open spec fn test_count_views(v: Seq<TestCountAssertion>) -> Seq<TestCountView> {
    v.map_values(|a: TestCountAssertion| a@)
}

pub open spec fn candidate_views(v: Seq<DistributionCandidate>) -> Seq<CandidateView> {
    v.map_values(|d: DistributionCandidate| d@)
}

impl View for ExtractedData {
    type V = ExtractedView;

    open spec fn view(&self) -> ExtractedView {
        ExtractedView {
            constants: constant_views(self.constants@),
            test_count_assertions: test_count_views(self.test_count_assertions@),
            test_function_count: self.test_function_count as nat,
            distribution_candidates: candidate_views(self.distribution_candidates@),
            files_scanned: self.files_scanned as nat,
        }
    }
}

/// The line that `find_line_number` reports for `text` in `content`: one
/// more than the number of lines (as `str::lines` counts them) of the text
/// before the first occurrence of `text`, or 0 where `text` does not occur.
/// Text that begins a line, or begins the content, is placed on that line;
/// text that follows other text on its line gets the number of the next
/// line, since the partial line before it counts as a line.
pub open spec fn line_number_of(content: Seq<char>, text: Seq<char>) -> nat {
    match find_first(content, text) {
        Some(p) => line_count(content.take(p)) + 1,
        None => 0,
    }
}

pub proof fn lemma_find_from_bound(h: Seq<char>, n: Seq<char>, k: int)
    ensures
        find_from(h, n, k) matches Some(p) ==> k <= p && p + n.len() <= h.len() && occurs_at(h, n, p),
    decreases h.len() + 1 - k,
{
    if !(k < 0 || k + n.len() > h.len()) && !occurs_at(h, n, k) {
        lemma_find_from_bound(h, n, k + 1);
    }
}

pub proof fn lemma_find_from_complete(h: Seq<char>, n: Seq<char>, k: int, k0: int)
    requires
        0 <= k <= k0,
        occurs_at(h, n, k0),
    ensures
        find_from(h, n, k) is Some,
    decreases k0 - k,
{
    if !occurs_at(h, n, k) {
        lemma_find_from_complete(h, n, k + 1, k0);
    }
}

/// A text that occurs in `content` is placed on a line numbered from 1.
pub proof fn lemma_line_number_positive(content: Seq<char>, text: Seq<char>, k: int)
    requires
        occurs_at(content, text, k),
    ensures
        line_number_of(content, text) >= 1,
{
    lemma_find_from_complete(content, text, 0, k);
}

pub fn find_line_number(content: &[char], text: &[char]) -> (r: usize)
    ensures
        r == line_number_of(content@, text@),
{
    match find_chars(content, text) {
        Some(p) => {
            proof {
                lemma_find_from_bound(content@, text@, 0);
            }
            let n = line_count_of(content, p);
            let clen = content.len();
            assert(p + text@.len() <= clen);
            if text.len() == 0 {
                assert(p == 0) by {
                    assert(occurs_at(content@, text@, 0)) by {
                        assert(content@.subrange(0, 0) =~= text@);
                    }
                }
            }
            n + 1
        },
        None => 0,
    }
}

/// The constant a declaration match stands for: the value literal without
/// underscores, integer when it has no decimal point.
pub open spec fn constant_of_match(
    path: Seq<char>,
    content: Seq<char>,
    m: (Seq<char>, Seq<char>, Seq<char>),
) -> ConstantView {
    let v = remove_char(m.2, '_');
    ConstantView {
        name: m.1,
        value_text: v,
        file: path,
        line: line_number_of(content, m.0),
        is_integer: !v.contains('.'),
    }
}

/// The constants of the declaration matches `ms`, in order, keeping those
/// whose value (underscores removed) is a decimal literal.
pub open spec fn constants_of_matches(
    path: Seq<char>,
    content: Seq<char>,
    ms: Seq<(Seq<char>, Seq<char>, Seq<char>)>,
) -> Seq<ConstantView>
    decreases ms.len(),
{
    if ms.len() == 0 {
        Seq::<ConstantView>::empty()
    } else {
        let prev = constants_of_matches(path, content, ms.drop_last());
        if is_decimal_literal(remove_char(ms.last().2, '_')) {
            prev.push(constant_of_match(path, content, ms.last()))
        } else {
            prev
        }
    }
}

/// The constants declared in one file.
pub open spec fn file_constants(path: Seq<char>, content: Seq<char>) -> Seq<ConstantView> {
    constants_of_matches(path, content, const_declaration_matches(content))
}


/// The test-count assertion a comment match stands for, if its count
/// parses as a `usize`; placed on the line where the match begins.
pub open spec fn test_count_of_match(
    path: Seq<char>,
    content: Seq<char>,
    m: (Seq<char>, Seq<char>),
) -> Option<TestCountView> {
    match parse_usize(m.1) {
        Some(n) => Some(
            TestCountView {
                expected_count: n,
                file: path,
                line: line_number_of(content, m.0),
                raw_comment: m.0,
            },
        ),
        None => None,
    }
}

/// The test-count assertions of the comment matches `ms`, in order,
/// keeping those whose count parses as a `usize`.
pub open spec fn test_counts_of_matches(
    path: Seq<char>,
    content: Seq<char>,
    ms: Seq<(Seq<char>, Seq<char>)>,
) -> Seq<TestCountView>
    decreases ms.len(),
{
    if ms.len() == 0 {
        Seq::<TestCountView>::empty()
    } else {
        let prev = test_counts_of_matches(path, content, ms.drop_last());
        match test_count_of_match(path, content, ms.last()) {
            Some(a) => prev.push(a),
            None => prev,
        }
    }
}

/// The test-count assertions made in one file.
pub open spec fn file_test_counts(path: Seq<char>, content: Seq<char>) -> Seq<TestCountView> {
    test_counts_of_matches(path, content, test_count_comment_matches(content))
}

/// The name of the nearest function declared on line `k` or above it.
pub open spec fn enclosing_function(lines: Seq<Seq<char>>, k: int) -> Option<Seq<char>>
    decreases k + 1,
{
    if k < 0 {
        None
    } else {
        match function_name_capture(lines[k]) {
            Some(n) => Some(n),
            None => enclosing_function(lines, k - 1),
        }
    }
}

pub open spec fn function_name_or_unknown(lines: Seq<Seq<char>>, k: int) -> Seq<char> {
    match enclosing_function(lines, k) {
        Some(n) => n,
        None => "unknown"@,
    }
}

/// The values of an array-literal list: split at commas, each trimmed.
pub open spec fn candidate_values(g: Seq<char>) -> Seq<Seq<char>> {
    split_on(g, ',').map_values(|p: Seq<char>| trim_class(p, CharClass::WhiteSpace))
}

/// The candidates on line `k` (counting from 0) of a file.
pub open spec fn line_candidates(path: Seq<char>, lines: Seq<Seq<char>>, k: int) -> Seq<CandidateView> {
    array_literal_lists(lines[k]).map_values(
        |g: Seq<char>|
            CandidateView {
                file: path,
                line: (k + 1) as nat,
                function_name: function_name_or_unknown(lines, k),
                distribution_values: candidate_values(g),
            },
    )
}

/// The candidates on the first `n` lines of a file.
pub open spec fn candidates_upto(path: Seq<char>, lines: Seq<Seq<char>>, n: int) -> Seq<CandidateView>
    decreases n,
{
    if n <= 0 {
        Seq::<CandidateView>::empty()
    } else {
        candidates_upto(path, lines, n - 1) + line_candidates(path, lines, n - 1)
    }
}

/// The distribution candidates of one file.
pub open spec fn file_candidates(path: Seq<char>, content: Seq<char>) -> Seq<CandidateView> {
    let ls = lines_of(content);
    candidates_upto(path, ls, ls.len() as int)
}

/// The last component of a `/`-separated path.
pub open spec fn file_name_of(path: Seq<char>) -> Seq<char> {
    split_on(path, '/').last()
}

/// The path names a file with extension `rs` (as `Path::extension` reads
/// it: something before the final `.rs` of the file name).
pub open spec fn is_rust_source_path(path: Seq<char>) -> bool {
    let name = file_name_of(path);
    name.len() > 3 && ends_with_text(name, ".rs"@)
}

impl ExtractedView {
    pub open spec fn empty() -> ExtractedView {
        ExtractedView {
            constants: Seq::empty(),
            test_count_assertions: Seq::empty(),
            test_function_count: 0,
            distribution_candidates: Seq::empty(),
            files_scanned: 0,
        }
    }

    /// The data after one more file is scanned.
    pub open spec fn with_file(self, path: Seq<char>, content: Seq<char>) -> ExtractedView {
        ExtractedView {
            constants: self.constants + file_constants(path, content),
            test_count_assertions: self.test_count_assertions + file_test_counts(path, content),
            test_function_count: self.test_function_count + count_matches(content, "#[test]"@),
            distribution_candidates: self.distribution_candidates + file_candidates(path, content),
            files_scanned: self.files_scanned + 1,
        }
    }
}

/// The data extracted from `files`, in order, skipping those whose path
/// does not name a `.rs` file.
pub open spec fn extracted(files: Seq<(Seq<char>, Seq<char>)>) -> ExtractedView
    decreases files.len(),
{
    if files.len() == 0 {
        ExtractedView::empty()
    } else {
        let prev = extracted(files.drop_last());
        let f = files.last();
        if is_rust_source_path(f.0) {
            prev.with_file(f.0, f.1)
        } else {
            prev
        }
    }
}

impl View for SourceFile {
    type V = (Seq<char>, Seq<char>);

    open spec fn view(&self) -> (Seq<char>, Seq<char>) {
        (self.path@, self.content@)
    }
}

pub open spec fn source_views(files: Seq<SourceFile>) -> Seq<(Seq<char>, Seq<char>)> {
    files.map_values(|f: SourceFile| f@)
}

/// Total number of characters of the files' contents.
pub open spec fn total_len(files: Seq<(Seq<char>, Seq<char>)>) -> nat
    decreases files.len(),
{
    if files.len() == 0 {
        0
    } else {
        total_len(files.drop_last()) + files.last().1.len()
    }
}

pub proof fn lemma_count_matches_bound(h: Seq<char>, n: Seq<char>, k: int)
    requires
        0 <= k <= h.len(),
    ensures
        count_matches_from(h, n, k) <= h.len() - k,
    decreases h.len() + 1 - k,
{
    if !(n.len() == 0 || k + n.len() > h.len()) {
        if occurs_at(h, n, k) {
            lemma_count_matches_bound(h, n, k + n.len());
        } else {
            lemma_count_matches_bound(h, n, k + 1);
        }
    }
}

pub proof fn lemma_extracted_bounds(files: Seq<(Seq<char>, Seq<char>)>)
    ensures
        extracted(files).test_function_count <= total_len(files),
        extracted(files).files_scanned <= files.len(),
    decreases files.len(),
{
    if files.len() > 0 {
        lemma_extracted_bounds(files.drop_last());
        lemma_count_matches_bound(files.last().1, "#[test]"@, 0);
    }
}

pub proof fn lemma_total_len_prefix(files: Seq<(Seq<char>, Seq<char>)>, i: int)
    requires
        0 <= i <= files.len(),
    ensures
        total_len(files.take(i)) <= total_len(files),
    decreases files.len(),
{
    if i < files.len() {
        assert(files.drop_last().take(i) =~= files.take(i));
        lemma_total_len_prefix(files.drop_last(), i);
    } else {
        assert(files.take(i) =~= files);
    }
}


/// Whether `path` names a file with extension `rs`.
pub fn has_rs_extension(path: &str) -> (r: bool)
    ensures
        r == is_rust_source_path(path@),
{
    let cs = chars_of(path);
    let parts = split_chars(cs.as_slice(), '/');
    proof {
        lemma_split_on_nonempty(path@, '/');
    }
    let name = &parts[parts.len() - 1];
    assert(name@ == file_name_of(path@));
    let ext = chars_of(".rs");
    name.len() > 3 && ends_with_chars(name.as_slice(), ext.as_slice())
}

/// The values of an array-literal list: split at commas, each trimmed.
pub fn split_candidate_values(g: &str) -> (r: Vec<String>)
    ensures
        string_views(r@) == candidate_values(g@),
{
    let cs = chars_of(g);
    let pieces = split_chars(cs.as_slice(), ',');
    let ghost target = candidate_values(g@);
    let mut r: Vec<String> = Vec::new();
    let mut i: usize = 0;
    while i < pieces.len()
        invariant
            seq_views(pieces@) == split_on(g@, ','),
            target == candidate_values(g@),
            i <= pieces@.len(),
            string_views(r@) == target.take(i as int),
        decreases pieces.len() - i,
    {
        let t = trim_chars(pieces[i].as_slice(), CharClass::WhiteSpace);
        assert(pieces@[i as int]@ == split_on(g@, ',')[i as int]);
        let ghost before = string_views(r@);
        r.push(string_from_chars(t.as_slice()));
        assert(string_views(r@) =~= before.push(t@));
        assert(target.take(i + 1) =~= target.take(i as int).push(target[i as int]));
        i += 1;
    }
    assert(target.take(pieces@.len() as int) =~= target);
    r
}

/// Extracts conservation-relevant data from Rust source files.
pub struct SourceExtractor {
    const_re: Pattern,
    test_count_comment_re: Pattern,
}

impl SourceExtractor {
    /// The extractor's patterns are the declaration and test-count patterns.
    pub closed spec fn well_formed(&self) -> bool {
        &&& self.const_re.source() == CONST_DECL_PATTERN@
        &&& self.test_count_comment_re.source() == TEST_COUNT_PATTERN@
    }
}

impl ExtractedData {
    pub fn empty() -> (r: ExtractedData)
        ensures
            r@ == ExtractedView::empty(),
    {
        let r = ExtractedData {
            constants: Vec::new(),
            test_count_assertions: Vec::new(),
            test_function_count: 0,
            distribution_candidates: Vec::new(),
            files_scanned: 0,
        };
        assert(r@.constants =~= Seq::<ConstantView>::empty());
        assert(r@.test_count_assertions =~= Seq::<TestCountView>::empty());
        assert(r@.distribution_candidates =~= Seq::<CandidateView>::empty());
        r
    }
}

/// The constant a declaration match stands for (see `constant_of_match`),
/// given the texts of the match: the whole match, the name and the value.
/// `None` where the value, underscores removed, is no decimal literal.
pub fn constant_of_declaration(
    path: &str,
    content: &[char],
    whole: &str,
    name: &str,
    value: &str,
) -> (r: Option<Constant>)
    ensures
        match r {
            Some(c) => is_decimal_literal(remove_char(value@, '_')) && c@ == constant_of_match(
                path@,
                content@,
                (whole@, name@, value@),
            ),
            None => !is_decimal_literal(remove_char(value@, '_')),
        },
{
    let vchars = chars_of(value);
    let v = remove_char_chars(vchars.as_slice(), '_');
    if is_decimal_literal_chars(v.as_slice()) {
        let wchars = chars_of(whole);
        let line = find_line_number(content, wchars.as_slice());
        Some(
            Constant {
                name: str_to_string(name),
                value_text: string_from_chars(v.as_slice()),
                file: str_to_string(path),
                line,
                is_integer: !contains_char(v.as_slice(), '.'),
            },
        )
    } else {
        None
    }
}

/// The test-count assertion a comment match stands for (see
/// `test_count_of_match`), given the texts of the match: the whole comment
/// and its count.
pub fn test_count_of_comment(path: &str, content: &[char], whole: &str, digits: &str) -> (r: Option<
    TestCountAssertion,
>)
    ensures
        match r {
            Some(a) => test_count_of_match(path@, content@, (whole@, digits@)) == Some(a@),
            None => test_count_of_match(path@, content@, (whole@, digits@)) is None,
        },
{
    let dchars = chars_of(digits);
    match parse_usize_chars(dchars.as_slice()) {
        Some(count) => {
            let wchars = chars_of(whole);
            let line = find_line_number(content, wchars.as_slice());
            Some(
                TestCountAssertion {
                    expected_count: count,
                    file: str_to_string(path),
                    line,
                    raw_comment: str_to_string(whole),
                },
            )
        },
        None => None,
    }
}

impl SourceExtractor {
    pub fn new() -> (r: SourceExtractor)
        ensures
            r.well_formed(),
    {
        SourceExtractor {
            const_re: Pattern::new(CONST_DECL_PATTERN),
            test_count_comment_re: Pattern::new(TEST_COUNT_PATTERN),
        }
    }

    fn extract_constants(&self, content: &str, cs: &[char], path: &str, out: &mut Vec<Constant>)
        requires
            self.well_formed(),
            cs@ == content@,
        ensures
            constant_views(final(out)@) == constant_views(old(out)@) + file_constants(path@, content@),
            final(out)@.len() >= old(out)@.len(),
            forall|j: int| 0 <= j < old(out)@.len() ==> final(out)@[j] == old(out)@[j],
            forall|j: int| old(out)@.len() <= j < final(out)@.len() ==> (#[trigger] final(out)@[j]).line >= 1,
    {
        let caps = self.const_re.const_declarations(content);
        let ghost ms = const_declaration_matches(content@);
        let mut i: usize = 0;
        assert(ms.take(0) =~= Seq::<(Seq<char>, Seq<char>, Seq<char>)>::empty());
        assert(constant_views(out@) =~= constant_views(old(out)@) + Seq::<ConstantView>::empty());
        while i < caps.len()
            invariant
                cs@ == content@,
                triple_views(caps@) == ms,
                ms == const_declaration_matches(content@),
                i <= caps@.len(),
                forall|k: int| 0 <= k < caps@.len() ==> occurs_in(content@, #[trigger] caps@[k].0@),
                out@.len() >= old(out)@.len(),
                forall|j: int| 0 <= j < old(out)@.len() ==> out@[j] == old(out)@[j],
                forall|j: int| old(out)@.len() <= j < out@.len() ==> (#[trigger] out@[j]).line >= 1,
                constant_views(out@) == constant_views(old(out)@) + constants_of_matches(
                    path@,
                    content@,
                    ms.take(i as int),
                ),
            decreases caps.len() - i,
        {
            let whole = &caps[i].0;
            let name = &caps[i].1;
            let value = &caps[i].2;
            assert(ms[i as int] == (whole@, name@, value@));
            assert(ms.take(i + 1).drop_last() =~= ms.take(i as int));
            assert(ms.take(i + 1).last() == ms[i as int]);
            match constant_of_declaration(path, cs, whole.as_str(), name.as_str(), value.as_str()) {
                Some(c) => {
                    proof {
                        let q = choose|q: int| occurs_at(content@, caps@[i as int].0@, q);
                        lemma_find_from_complete(content@, whole@, 0, q);
                    }
                    let ghost before = constant_views(out@);
                    out.push(c);
                    assert(constant_views(out@) =~= before.push(c@));
                },
                None => {},
            }
            i += 1;
        }
        assert(ms.take(ms.len() as int) =~= ms);
    }

    fn extract_test_counts(
        &self,
        content: &str,
        cs: &[char],
        path: &str,
        out: &mut Vec<TestCountAssertion>,
    )
        requires
            self.well_formed(),
            cs@ == content@,
        ensures
            test_count_views(final(out)@) == test_count_views(old(out)@) + file_test_counts(
                path@,
                content@,
            ),
            final(out)@.len() >= old(out)@.len(),
            forall|j: int| 0 <= j < old(out)@.len() ==> final(out)@[j] == old(out)@[j],
            forall|j: int| old(out)@.len() <= j < final(out)@.len() ==> (#[trigger] final(out)@[j]).line >= 1,
    {
        let caps = self.test_count_comment_re.test_count_comments(content);
        let ghost ms = test_count_comment_matches(content@);
        let mut i: usize = 0;
        assert(ms.take(0) =~= Seq::<(Seq<char>, Seq<char>)>::empty());
        assert(test_count_views(out@) =~= test_count_views(old(out)@) + Seq::<TestCountView>::empty());
        while i < caps.len()
            invariant
                cs@ == content@,
                pair_views(caps@) == ms,
                ms == test_count_comment_matches(content@),
                i <= caps@.len(),
                forall|k: int| 0 <= k < caps@.len() ==> occurs_in(content@, #[trigger] caps@[k].0@),
                out@.len() >= old(out)@.len(),
                forall|j: int| 0 <= j < old(out)@.len() ==> out@[j] == old(out)@[j],
                forall|j: int| old(out)@.len() <= j < out@.len() ==> (#[trigger] out@[j]).line >= 1,
                test_count_views(out@) == test_count_views(old(out)@) + test_counts_of_matches(
                    path@,
                    content@,
                    ms.take(i as int),
                ),
            decreases caps.len() - i,
        {
            let whole = &caps[i].0;
            let digits = &caps[i].1;
            assert(ms[i as int] == (whole@, digits@));
            assert(ms.take(i + 1).drop_last() =~= ms.take(i as int));
            assert(ms.take(i + 1).last() == ms[i as int]);
            match test_count_of_comment(path, cs, whole.as_str(), digits.as_str()) {
                Some(a) => {
                    proof {
                        let q = choose|q: int| occurs_at(content@, caps@[i as int].0@, q);
                        lemma_line_number_positive(content@, whole@, q);
                    }
                    let ghost before = test_count_views(out@);
                    out.push(a);
                    assert(test_count_views(out@) =~= before.push(a@));
                },
                None => {},
            }
            i += 1;
        }
        assert(ms.take(ms.len() as int) =~= ms);
    }

    fn extract_distributions(&self, cs: &[char], path: &str, out: &mut Vec<DistributionCandidate>)
        ensures
            candidate_views(final(out)@) == candidate_views(old(out)@) + file_candidates(path@, cs@),
    {
        let array_re = Pattern::new(ARRAY_LITERAL_PATTERN);
        let fn_re = Pattern::new(FUNCTION_NAME_PATTERN);
        let lines = lines_chars(cs);
        let ghost ls = lines_of(cs@);
        let mut current: Option<String> = None;
        let mut k: usize = 0;
        assert(candidate_views(out@) =~= candidate_views(old(out)@) + candidates_upto(path@, ls, 0));
        while k < lines.len()
            invariant
                seq_views(lines@) == ls,
                ls == lines_of(cs@),
                fn_re.source() == FUNCTION_NAME_PATTERN@,
                array_re.source() == ARRAY_LITERAL_PATTERN@,
                k <= lines@.len(),
                opt_view_matches(current, enclosing_function(ls, k - 1)),
                candidate_views(out@) == candidate_views(old(out)@) + candidates_upto(
                    path@,
                    ls,
                    k as int,
                ),
            decreases lines.len() - k,
        {
            assert(lines@[k as int]@ == ls[k as int]);
            let line = string_from_chars(lines[k].as_slice());
            let cap = fn_re.function_name(line.as_str());
            if cap.is_some() {
                current = cap;
            }
            assert(opt_view_matches(current, enclosing_function(ls, k as int)));
            let name: String = match &current {
                Some(n) => n.clone(),
                None => str_to_string("unknown"),
            };
            assert(name@ == function_name_or_unknown(ls, k as int));
            let groups = array_re.array_lists(line.as_str());
            let ghost lc = line_candidates(path@, ls, k as int);
            assert(lc.len() == groups@.len());
            let ghost base = candidate_views(out@);
            let line_no = k + 1;
            let mut j: usize = 0;
            assert(lc.take(0) =~= Seq::<CandidateView>::empty());
            assert(candidate_views(out@) =~= base + lc.take(0));
            while j < groups.len()
                invariant
                    string_views(groups@) == array_literal_lists(ls[k as int]),
                    lc == line_candidates(path@, ls, k as int),
                    lc.len() == groups@.len(),
                    k < lines@.len(),
                    ls.len() == lines@.len(),
                    line_no == k + 1,
                    ls == lines_of(cs@),
                    name@ == function_name_or_unknown(ls, k as int),
                    j <= groups@.len(),
                    candidate_views(out@) == base + lc.take(j as int),
                decreases groups.len() - j,
            {
                let values = split_candidate_values(groups[j].as_str());
                assert(groups@[j as int]@ == array_literal_lists(ls[k as int])[j as int]);
                let d = DistributionCandidate {
                    file: str_to_string(path),
                    line: line_no,
                    function_name: name.clone(),
                    distribution_values: values,
                };
                assert(d@ == lc[j as int]);
                let ghost before = candidate_views(out@);
                out.push(d);
                assert(candidate_views(out@) =~= before.push(d@));
                assert(lc.take(j + 1) =~= lc.take(j as int).push(lc[j as int]));
                j += 1;
            }
            assert(lc.take(lc.len() as int) =~= lc);
            assert(candidates_upto(path@, ls, k + 1) == candidates_upto(path@, ls, k as int) + lc);
            assert(candidate_views(out@) =~= candidate_views(old(out)@) + candidates_upto(
                path@,
                ls,
                k + 1,
            ));
            k += 1;
        }
    }
}

impl SourceExtractor {
    /// Adds what one file holds to `data`; the count of scanned files is left
    /// to the caller.
    fn extract_from_file(&self, content: &str, path: &str, data: &mut ExtractedData)
        requires
            self.well_formed(),
            old(data).test_function_count + content@.len() <= usize::MAX,
        ensures
            final(data)@ == (ExtractedView {
                files_scanned: old(data)@.files_scanned,
                ..old(data)@.with_file(path@, content@)
            }),
            (forall|j: int| 0 <= j < old(data).constants@.len() ==> (#[trigger] old(data).constants@[j]).line >= 1)
                ==> (forall|j: int| 0 <= j < final(data).constants@.len() ==> (#[trigger] final(data).constants@[j]).line >= 1),
            (forall|j: int|
                0 <= j < old(data).test_count_assertions@.len() ==> (#[trigger] old(data).test_count_assertions@[j]).line >= 1)
                ==> (forall|j: int|
                0 <= j < final(data).test_count_assertions@.len() ==> (#[trigger] final(data).test_count_assertions@[j]).line >= 1),
    {
        let cs = chars_of(content);
        self.extract_constants(content, cs.as_slice(), path, &mut data.constants);
        let marker = chars_of("#[test]");
        let n = count_chars_matches(cs.as_slice(), marker.as_slice());
        data.test_function_count = data.test_function_count + n;
        self.extract_test_counts(content, cs.as_slice(), path, &mut data.test_count_assertions);
        self.extract_distributions(cs.as_slice(), path, &mut data.distribution_candidates);
    }

    /// Extracts data from the given files, in order, skipping those whose path
    /// does not name a `.rs` file.
    pub fn extract_files(&self, files: &Vec<SourceFile>) -> (r: ExtractedData)
        requires
            self.well_formed(),
            total_len(source_views(files@)) <= usize::MAX,
        ensures
            r@ == extracted(source_views(files@)),
            forall|j: int| 0 <= j < r.constants@.len() ==> (#[trigger] r.constants@[j]).line >= 1,
            forall|j: int|
                0 <= j < r.test_count_assertions@.len() ==> (#[trigger] r.test_count_assertions@[j]).line >= 1,
    {
        let ghost fs = source_views(files@);
        let mut data = ExtractedData::empty();
        assert(data.constants@.len() == data@.constants.len());
        assert(data.test_count_assertions@.len() == data@.test_count_assertions.len());
        let mut i: usize = 0;
        assert(fs.take(0) =~= Seq::<(Seq<char>, Seq<char>)>::empty());
        while i < files.len()
            invariant
                self.well_formed(),
                fs == source_views(files@),
                total_len(fs) <= usize::MAX,
                i <= files@.len(),
                data@ == extracted(fs.take(i as int)),
                forall|j: int| 0 <= j < data.constants@.len() ==> (#[trigger] data.constants@[j]).line >= 1,
                forall|j: int|
                    0 <= j < data.test_count_assertions@.len() ==> (#[trigger] data.test_count_assertions@[j]).line >= 1,
            decreases files.len() - i,
        {
            let f = &files[i];
            assert(fs[i as int] == (f.path@, f.content@));
            assert(fs.take(i + 1).drop_last() =~= fs.take(i as int));
            assert(fs.take(i + 1).last() == fs[i as int]);
            proof {
                lemma_extracted_bounds(fs.take(i as int));
                lemma_total_len_prefix(fs, i + 1);
            }
            if has_rs_extension(f.path.as_str()) {
                data.files_scanned = data.files_scanned + 1;
                self.extract_from_file(f.content.as_str(), f.path.as_str(), &mut data);
            }
            i += 1;
        }
        assert(fs.take(fs.len() as int) =~= fs);
        data
    }
}

/// `o` holds a string exactly when `s` holds a sequence, and its view is it.
pub open spec fn opt_view_matches(o: Option<String>, s: Option<Seq<char>>) -> bool {
    match (o, s) {
        (Some(a), Some(b)) => a@ == b,
        (None, None) => true,
        _ => false,
    }
}

} // verus!

verus! {

/// The name contains one of the markers of a total.
pub open spec fn has_total_marker(u: Seq<char>) -> bool {
    contains_text(u, "TOTAL"@) || contains_text(u, "SUM"@) || contains_text(u, "WEIGHT"@)
}

/// An uppercased name without the markers TOTAL, SUM and WEIGHT (removed in
/// that order) and without underscores, trimmed of white space.
pub open spec fn without_markers(u: Seq<char>) -> Seq<char> {
    trim_class(
        remove_char(remove_text(remove_text(remove_text(u, "TOTAL"@), "SUM"@), "WEIGHT"@), '_'),
        CharClass::WhiteSpace,
    )
}

/// A name made of markers only that ends with WEIGHT after a TOTAL or SUM
/// marker, such as `TOTAL_WEIGHT`: a total of weights.
pub open spec fn is_total_of_weights(u: Seq<char>) -> bool {
    &&& without_markers(u).len() == 0
    &&& ends_with_text(u, "WEIGHT"@)
    &&& (contains_text(u, "TOTAL"@) || contains_text(u, "SUM"@))
}

/// The key an uppercased name is grouped under. For a name holding a total
/// marker: the name without its markers and underscores (`SCORE_TOTAL`
/// gives `SCORE`), except that a total of weights (`TOTAL_WEIGHT`) is
/// grouped under `WEIGHT`. For any other name: the part before its first
/// underscore.
pub open spec fn group_key(u: Seq<char>) -> Seq<char> {
    if has_total_marker(u) {
        if is_total_of_weights(u) {
            "WEIGHT"@
        } else {
            without_markers(u)
        }
    } else {
        split_on(u, '_')[0]
    }
}

fn group_key_chars(u: &[char]) -> (r: Vec<char>)
    ensures
        r@ == group_key(u@),
{
    let total = chars_of("TOTAL");
    let sum = chars_of("SUM");
    let weight = chars_of("WEIGHT");
    let has_total = contains_chars(u, total.as_slice());
    let has_sum = contains_chars(u, sum.as_slice());
    if has_total || has_sum || contains_chars(u, weight.as_slice()) {
        let a = remove_text_chars(u, total.as_slice());
        let b = remove_text_chars(a.as_slice(), sum.as_slice());
        let c = remove_text_chars(b.as_slice(), weight.as_slice());
        let d = remove_char_chars(c.as_slice(), '_');
        let k = trim_chars(d.as_slice(), CharClass::WhiteSpace);
        if k.len() == 0 && ends_with_chars(u, weight.as_slice()) && (has_total || has_sum) {
            weight
        } else {
            k
        }
    } else {
        let parts = split_chars(u, '_');
        proof {
            lemma_split_on_nonempty(u@, '_');
        }
        assert(parts@[0]@ == split_on(u@, '_')[0]);
        copy_range(parts[0].as_slice(), 0, parts[0].len())
    }
}

/// The key an (already uppercased) name is grouped under.
pub fn group_key_of(upper: &str) -> (r: String)
    ensures
        r@ == group_key(upper@),
{
    let uc = chars_of(upper);
    let k = group_key_chars(uc.as_slice());
    string_from_chars(k.as_slice())
}

/// The key a constant's name is grouped under: that of its uppercased form.
pub open spec fn group_base(name: Seq<char>) -> Seq<char> {
    group_key(uppercase(name))
}

/// The key a constant's name is grouped under.
pub fn constant_group_base(name: &str) -> (r: Vec<char>)
    ensures
        r@ == group_base(name@),
{
    let u = to_uppercase(name);
    let uc = chars_of(u.as_str());
    group_key_chars(uc.as_slice())
}

/// Constants that share a grouping key, by their indices.
pub struct ConstantGroup {
    pub base: String,
    pub members: Vec<usize>,
}

pub open spec fn group_bases(g: Seq<ConstantGroup>) -> Seq<Seq<char>> {
    g.map_values(|x: ConstantGroup| x.base@)
}

pub open spec fn group_members(g: Seq<ConstantGroup>) -> Seq<Seq<usize>> {
    g.map_values(|x: ConstantGroup| x.members@)
}

/// `bases`/`members` partition the indices of `keys` by key: one group per
/// distinct key, each listing, in increasing order, exactly the indices
/// whose key it is.
pub open spec fn is_grouping(keys: Seq<Seq<char>>, bases: Seq<Seq<char>>, members: Seq<Seq<usize>>) -> bool {
    &&& bases.len() == members.len()
    &&& forall|a: int, b: int| 0 <= a < b < bases.len() ==> bases[a] != bases[b]
    &&& forall|g: int| 0 <= g < members.len() ==> (#[trigger] members[g]).len() > 0
    &&& forall|i: int| 0 <= i < keys.len() ==> bases.contains(#[trigger] keys[i])
    &&& forall|g: int, k: int|
        0 <= g < members.len() && 0 <= k < members[g].len() ==> {
            &&& members[g][k] < keys.len()
            &&& keys[members[g][k] as int] == bases[g]
        }
    &&& forall|g: int, i: int|
        0 <= g < bases.len() && 0 <= i < keys.len() && keys[i] == bases[g] ==> #[trigger] members[g].contains(
            i as usize,
        )
    &&& forall|g: int, k1: int, k2: int|
        0 <= g < members.len() && 0 <= k1 < k2 < members[g].len() ==> members[g][k1] < members[g][k2]
}

/// The groups come in the order their keys first appear: the first member
/// of each group comes before the first member of every later group.
pub open spec fn in_first_appearance_order(members: Seq<Seq<usize>>) -> bool {
    forall|a: int, b: int| 0 <= a < b < members.len() ==> members[a][0] < members[b][0]
}

pub open spec fn constant_keys(cs: Seq<Constant>) -> Seq<Seq<char>> {
    cs.map_values(|c: Constant| group_base(c.name@))
}

/// Indices `i < n` whose key is `b`, in increasing order.
pub open spec fn indices_with_key(keys: Seq<Seq<char>>, b: Seq<char>, n: int) -> Seq<usize>
    decreases n,
{
    if n <= 0 {
        Seq::<usize>::empty()
    } else if keys[n - 1] == b {
        indices_with_key(keys, b, n - 1).push((n - 1) as usize)
    } else {
        indices_with_key(keys, b, n - 1)
    }
}

pub proof fn lemma_indices_with_key(keys: Seq<Seq<char>>, b: Seq<char>, n: int)
    requires
        0 <= n <= keys.len(),
        keys.len() <= usize::MAX,
    ensures
        forall|k: int|
            0 <= k < indices_with_key(keys, b, n).len() ==> {
                &&& indices_with_key(keys, b, n)[k] < n
                &&& keys[indices_with_key(keys, b, n)[k] as int] == b
            },
        forall|i: int| 0 <= i < n && keys[i] == b ==> indices_with_key(keys, b, n).contains(i as usize),
        forall|k1: int, k2: int|
            0 <= k1 < k2 < indices_with_key(keys, b, n).len() ==> indices_with_key(keys, b, n)[k1]
                < indices_with_key(keys, b, n)[k2],
    decreases n,
{
    if n > 0 {
        lemma_indices_with_key(keys, b, n - 1);
        let prev = indices_with_key(keys, b, n - 1);
        if keys[n - 1] == b {
            assert forall|i: int| 0 <= i < n && keys[i] == b implies indices_with_key(
                keys,
                b,
                n,
            ).contains(i as usize) by {
                if i < n - 1 {
                    let k = choose|k: int| 0 <= k < prev.len() && prev[k] == i as usize;
                    assert(indices_with_key(keys, b, n)[k] == i as usize);
                } else {
                    assert(indices_with_key(keys, b, n)[prev.len() as int] == i as usize);
                }
            }
        }
    }
}

/// `bases` are distinct keys, `bases[g]` the key of index `firsts[g]`, and
/// the keys of the indices below `upto` are all among them.
pub open spec fn distinct_keys_upto(
    keys: Seq<Seq<char>>,
    bases: Seq<Seq<char>>,
    firsts: Seq<int>,
    upto: int,
) -> bool {
    &&& forall|a: int, b: int| 0 <= a < b < bases.len() ==> bases[a] != bases[b]
    &&& firsts.len() == bases.len()
    &&& forall|g: int|
        #![trigger firsts[g]]
        0 <= g < bases.len() ==> 0 <= firsts[g] < keys.len() && keys[firsts[g]] == bases[g]
    &&& forall|j: int|
        #![trigger keys[j]]
        0 <= j < upto ==> exists|g: int| #![trigger bases[g]] 0 <= g < bases.len() && bases[g] == keys[j]
    &&& forall|g: int| #![trigger firsts[g]] 0 <= g < bases.len() ==> firsts[g] < upto
    &&& forall|a: int, b: int| 0 <= a < b < bases.len() ==> firsts[a] < firsts[b]
    &&& forall|g: int, j: int|
        #![trigger bases[g], keys[j]]
        0 <= g < bases.len() && 0 <= j < firsts[g] ==> keys[j] != bases[g]
}

proof fn lemma_distinct_keys_new(keys: Seq<Seq<char>>, bases: Seq<Seq<char>>, firsts: Seq<int>, i: int)
    requires
        distinct_keys_upto(keys, bases, firsts, i),
        0 <= i < keys.len(),
        forall|g: int| 0 <= g < bases.len() ==> bases[g] != keys[i],
    ensures
        distinct_keys_upto(keys, bases.push(keys[i]), firsts.push(i), i + 1),
{
    let nb = bases.push(keys[i]);
    let nf = firsts.push(i);
    assert forall|g: int| #![trigger nf[g]] 0 <= g < nb.len() implies 0 <= nf[g] < keys.len() && keys[nf[g]]
        == nb[g] by {
        if g < bases.len() {
            assert(nf[g] == firsts[g]);
            assert(nb[g] == bases[g]);
        }
    }
    assert forall|g: int, j: int|
        #![trigger nb[g], keys[j]]
        0 <= g < nb.len() && 0 <= j < nf[g] implies keys[j] != nb[g] by {
        if g < bases.len() {
            assert(nf[g] == firsts[g]);
            assert(nb[g] == bases[g]);
        } else {
            let h = choose|h: int| #![trigger bases[h]] 0 <= h < bases.len() && bases[h] == keys[j];
            assert(bases[h] != keys[i]);
        }
    }
    assert forall|j: int| #![trigger keys[j]] 0 <= j < i + 1 implies exists|h: int|
        #![trigger nb[h]]
        0 <= h < nb.len() && nb[h] == keys[j] by {
        if j < i {
            let h = choose|h: int| #![trigger bases[h]] 0 <= h < bases.len() && bases[h] == keys[j];
            assert(nb[h] == bases[h]);
        } else {
            assert(nb[bases.len() as int] == keys[j]);
        }
    }
}

proof fn lemma_every_key_grouped(keys: Seq<Seq<char>>, bases: Seq<Seq<char>>, firsts: Seq<int>)
    requires
        distinct_keys_upto(keys, bases, firsts, keys.len() as int),
    ensures
        forall|i: int| 0 <= i < keys.len() ==> bases.contains(#[trigger] keys[i]),
{
    assert forall|i: int| 0 <= i < keys.len() implies bases.contains(#[trigger] keys[i]) by {
        let g = choose|g: int| #![trigger bases[g]] 0 <= g < bases.len() && bases[g] == keys[i];
        assert(bases[g] == keys[i]);
    }
}

proof fn lemma_grouping_members(keys: Seq<Seq<char>>, bs: Seq<Seq<char>>, firsts: Seq<int>, rm: Seq<Seq<usize>>)
    requires
        keys.len() <= usize::MAX,
        distinct_keys_upto(keys, bs, firsts, keys.len() as int),
        rm.len() == bs.len(),
        forall|h: int| 0 <= h < rm.len() ==> rm[h] == indices_with_key(keys, bs[h], keys.len() as int),
    ensures
        forall|g: int| 0 <= g < rm.len() ==> (#[trigger] rm[g]).len() > 0,
        forall|g: int, k: int|
            0 <= g < rm.len() && 0 <= k < rm[g].len() ==> {
                &&& rm[g][k] < keys.len()
                &&& keys[rm[g][k] as int] == bs[g]
            },
        forall|g: int, i: int|
            0 <= g < bs.len() && 0 <= i < keys.len() && keys[i] == bs[g] ==> #[trigger] rm[g].contains(
                i as usize,
            ),
        forall|g: int, k1: int, k2: int|
            0 <= g < rm.len() && 0 <= k1 < k2 < rm[g].len() ==> rm[g][k1] < rm[g][k2],
{
    let n = keys.len() as int;
    assert forall|h: int| 0 <= h < rm.len() implies (#[trigger] rm[h]).len() > 0 by {
        lemma_indices_with_key(keys, bs[h], n);
        let f = firsts[h];
        assert(keys[f] == bs[h]);
        assert(rm[h].contains(f as usize));
    }
    assert forall|h: int, k: int| 0 <= h < rm.len() && 0 <= k < rm[h].len() implies {
        &&& rm[h][k] < keys.len()
        &&& keys[rm[h][k] as int] == bs[h]
    } by {
        lemma_indices_with_key(keys, bs[h], n);
    }
    assert forall|h: int, i: int|
        0 <= h < bs.len() && 0 <= i < keys.len() && keys[i] == bs[h] implies #[trigger] rm[h].contains(
        i as usize,
    ) by {
        lemma_indices_with_key(keys, bs[h], n);
    }
    assert forall|h: int, k1: int, k2: int|
        0 <= h < rm.len() && 0 <= k1 < k2 < rm[h].len() implies rm[h][k1] < rm[h][k2] by {
        lemma_indices_with_key(keys, bs[h], n);
    }
}

/// Groups constants by their base name (stripping TOTAL/SUM/WEIGHT markers)
/// to identify sub-component relationships. Each group lists the indices of
/// its constants; groups come in the order their keys first appear.
pub fn group_constants_by_base(constants: &Vec<Constant>) -> (r: Vec<ConstantGroup>)
    ensures
        is_grouping(constant_keys(constants@), group_bases(r@), group_members(r@)),
        in_first_appearance_order(group_members(r@)),
{
    let ghost keys_spec = constant_keys(constants@);
    let n = constants.len();
    let mut keys: Vec<Vec<char>> = Vec::new();
    let mut i: usize = 0;
    while i < n
        invariant
            n == constants@.len(),
            keys_spec == constant_keys(constants@),
            i <= n,
            seq_views(keys@) == keys_spec.take(i as int),
        decreases n - i,
    {
        let k = constant_group_base(constants[i].name.as_str());
        let ghost before = seq_views(keys@);
        keys.push(k);
        assert(seq_views(keys@) =~= before.push(k@));
        assert(keys_spec.take(i + 1) =~= keys_spec.take(i as int).push(keys_spec[i as int]));
        i += 1;
    }
    assert(keys_spec.take(n as int) =~= keys_spec);
    // The distinct keys, in order of first appearance.
    let mut bases: Vec<Vec<char>> = Vec::new();
    let ghost mut firsts: Seq<int> = Seq::empty();
    i = 0;
    while i < n
        invariant
            seq_views(keys@) == keys_spec,
            keys_spec.len() == n,
            i <= n,
            distinct_keys_upto(keys_spec, seq_views(bases@), firsts, i as int),
        decreases n - i,
    {
        assert(keys@[i as int]@ == keys_spec[i as int]);
        let mut found = false;
        let mut g: usize = 0;
        let ghost mut at: int = 0;
        while g < bases.len()
            invariant
                seq_views(keys@) == keys_spec,
                i < n == keys_spec.len(),
                g <= bases@.len(),
                found ==> 0 <= at < bases@.len() && seq_views(bases@)[at] == keys_spec[i as int],
                !found ==> forall|h: int| 0 <= h < g ==> seq_views(bases@)[h] != keys_spec[i as int],
            decreases bases.len() - g,
        {
            assert(seq_views(bases@)[g as int] == bases@[g as int]@);
            if equal_chars(bases[g].as_slice(), keys[i].as_slice()) {
                found = true;
                proof {
                    at = g as int;
                }
            }
            g += 1;
        }
        if found {
            assert(distinct_keys_upto(keys_spec, seq_views(bases@), firsts, i + 1)) by {
                let bs = seq_views(bases@);
                assert forall|j: int| #![trigger keys_spec[j]] 0 <= j < i + 1 implies exists|h: int|
                    #![trigger bs[h]]
                    0 <= h < bs.len() && bs[h] == keys_spec[j] by {
                    if j == i {
                        assert(bs[at] == keys_spec[j]);
                    }
                }
            }
        } else {
            let k = copy_range(keys[i].as_slice(), 0, keys[i].len());
            assert(k@ =~= keys_spec[i as int]);
            let ghost before = seq_views(bases@);
            proof {
                lemma_distinct_keys_new(keys_spec, before, firsts, i as int);
                firsts = firsts.push(i as int);
            }
            bases.push(k);
            assert(seq_views(bases@) =~= before.push(keys_spec[i as int]));
        }
        i += 1;
    }
    // One group per distinct key, with the indices of its constants.
    let ghost bs = seq_views(bases@);
    let mut groups: Vec<ConstantGroup> = Vec::new();
    let mut g: usize = 0;
    while g < bases.len()
        invariant
            seq_views(keys@) == keys_spec,
            keys_spec.len() == n,
            bs == seq_views(bases@),
            distinct_keys_upto(keys_spec, bs, firsts, n as int),
            keys_spec == constant_keys(constants@),
            g <= bases@.len(),
            groups@.len() == g,
            forall|h: int|
                0 <= h < g ==> (#[trigger] groups@[h]).base@ == bs[h] && groups@[h].members@
                    == indices_with_key(keys_spec, bs[h], n as int),
        decreases bases.len() - g,
    {
        let ghost b = bs[g as int];
        assert(bases@[g as int]@ == b);
        let mut members: Vec<usize> = Vec::new();
        let mut j: usize = 0;
        while j < n
            invariant
                seq_views(keys@) == keys_spec,
                keys_spec.len() == n,
                bases@[g as int]@ == b,
                g < bases@.len(),
                j <= n,
                members@ == indices_with_key(keys_spec, b, j as int),
            decreases n - j,
        {
            assert(keys@[j as int]@ == keys_spec[j as int]);
            if equal_chars(keys[j].as_slice(), bases[g].as_slice()) {
                members.push(j);
            }
            j += 1;
        }
        let base = string_from_chars(bases[g].as_slice());
        let ghost before = groups@;
        groups.push(ConstantGroup { base, members });
        assert forall|h: int| 0 <= h < g + 1 implies (#[trigger] groups@[h]).base@ == bs[h]
            && groups@[h].members@ == indices_with_key(keys_spec, bs[h], n as int) by {
            if h < g {
                assert(groups@[h] == before[h]);
            }
        }
        g += 1;
    }
    proof {
        let rb = group_bases(groups@);
        let rm = group_members(groups@);
        assert(rb =~= bs);
        assert forall|h: int| 0 <= h < rm.len() implies rm[h] == indices_with_key(keys_spec, rb[h], n as int) by {
            assert(groups@[h].members@ == rm[h]);
        }
        lemma_grouping_members(keys_spec, rb, firsts, rm);
        assert(forall|a: int, b: int| 0 <= a < b < rb.len() ==> rb[a] != rb[b]);
        lemma_every_key_grouped(keys_spec, rb, firsts);
        assert(rm.len() == rb.len());
        assert(forall|g: int| 0 <= g < rm.len() ==> (#[trigger] rm[g]).len() > 0);
        assert(is_grouping(keys_spec, rb, rm));
        assert forall|h: int| 0 <= h < rm.len() implies #[trigger] rm[h][0] == firsts[h] by {
            let f = firsts[h];
            assert(keys_spec[f] == rb[h]);
            assert(rm[h].contains(f as usize));
            let k = choose|k: int| 0 <= k < rm[h].len() && rm[h][k] == f as usize;
            assert(rm[h][0] <= rm[h][k]);
            let m = rm[h][0] as int;
            assert(keys_spec[m] == rb[h]);
            if m < f {
                assert(keys_spec[m] != rb[h]);
            }
        }
        assert(in_first_appearance_order(rm));
    }
    groups
}

} // verus!

verus! {

impl ExtractedView {
    /// The data of two runs side by side: lists concatenated, counts added.
    pub open spec fn merge(self, other: ExtractedView) -> ExtractedView {
        ExtractedView {
            constants: self.constants + other.constants,
            test_count_assertions: self.test_count_assertions + other.test_count_assertions,
            test_function_count: self.test_function_count + other.test_function_count,
            distribution_candidates: self.distribution_candidates + other.distribution_candidates,
            files_scanned: self.files_scanned + other.files_scanned,
        }
    }
}

/// Scanning two lists of files one after the other gives what scanning each
/// gives, side by side: files are scanned independently and in order.
pub proof fn law_extracted_concat(a: Seq<(Seq<char>, Seq<char>)>, b: Seq<(Seq<char>, Seq<char>)>)
    ensures
        extracted(a + b) == extracted(a).merge(extracted(b)),
    decreases b.len(),
{
    let ea = extracted(a);
    if b.len() == 0 {
        assert(a + b =~= a);
        assert(ea.constants + Seq::<ConstantView>::empty() =~= ea.constants);
        assert(ea.test_count_assertions + Seq::<TestCountView>::empty() =~= ea.test_count_assertions);
        assert(ea.distribution_candidates + Seq::<CandidateView>::empty() =~= ea.distribution_candidates);
    } else {
        let b2 = b.drop_last();
        law_extracted_concat(a, b2);
        assert((a + b).drop_last() =~= a + b2);
        assert((a + b).last() == b.last());
        let f = b.last();
        if is_rust_source_path(f.0) {
            let eb = extracted(b2);
            assert((ea.constants + eb.constants) + file_constants(f.0, f.1) =~= ea.constants + (
            eb.constants + file_constants(f.0, f.1)));
            assert((ea.test_count_assertions + eb.test_count_assertions) + file_test_counts(f.0, f.1)
                =~= ea.test_count_assertions + (eb.test_count_assertions + file_test_counts(f.0, f.1)));
            assert((ea.distribution_candidates + eb.distribution_candidates) + file_candidates(f.0, f.1)
                =~= ea.distribution_candidates + (eb.distribution_candidates + file_candidates(
                f.0,
                f.1,
            )));
        }
    }
}

/// A file whose path does not name a `.rs` file contributes nothing, wherever
/// it stands in the list.
pub proof fn law_non_rust_file_ignored(
    a: Seq<(Seq<char>, Seq<char>)>,
    f: (Seq<char>, Seq<char>),
    b: Seq<(Seq<char>, Seq<char>)>,
)
    requires
        !is_rust_source_path(f.0),
    ensures
        extracted(a.push(f) + b) == extracted(a + b),
{
    law_extracted_concat(a.push(f), b);
    law_extracted_concat(a, b);
    assert(a.push(f).drop_last() =~= a);
}

/// Every constant that is extracted has a decimal literal as its value, with
/// no underscore left in it, and is an integer exactly when the literal has
/// no decimal point.
pub open spec fn well_shaped(c: ConstantView) -> bool {
    &&& is_decimal_literal(c.value_text)
    &&& !c.value_text.contains('_')
    &&& c.is_integer == !c.value_text.contains('.')
}

proof fn lemma_remove_char_absent(s: Seq<char>, c: char)
    ensures
        !remove_char(s, c).contains(c),
    decreases s.len(),
{
    if s.len() > 0 {
        lemma_remove_char_absent(s.drop_last(), c);
        let p = remove_char(s.drop_last(), c);
        if s.last() != c {
            assert forall|i: int| 0 <= i < p.push(s.last()).len() implies p.push(s.last())[i] != c by {
                if i < p.len() {
                    assert(p.push(s.last())[i] == p[i]);
                }
            }
        }
    }
}

proof fn lemma_constants_of_matches_shaped(
    path: Seq<char>,
    content: Seq<char>,
    ms: Seq<(Seq<char>, Seq<char>, Seq<char>)>,
)
    ensures
        forall|i: int|
            0 <= i < constants_of_matches(path, content, ms).len() ==> #[trigger] well_shaped(
                constants_of_matches(path, content, ms)[i],
            ) && constants_of_matches(path, content, ms)[i].file == path,
    decreases ms.len(),
{
    if ms.len() > 0 {
        lemma_constants_of_matches_shaped(path, content, ms.drop_last());
        lemma_remove_char_absent(ms.last().2, '_');
        let prev = constants_of_matches(path, content, ms.drop_last());
        let cur = constants_of_matches(path, content, ms);
        assert forall|i: int| 0 <= i < cur.len() implies #[trigger] well_shaped(cur[i]) && cur[i].file == path by {
            if i < prev.len() {
                assert(cur[i] == prev[i]);
            }
        }
    }
}

/// Every extracted constant is well shaped (see `well_shaped`) and comes from
/// a file whose path names a `.rs` file.
pub proof fn law_constants_well_shaped(files: Seq<(Seq<char>, Seq<char>)>)
    ensures
        forall|i: int|
            0 <= i < extracted(files).constants.len() ==> #[trigger] well_shaped(extracted(files).constants[i])
                && is_rust_source_path(extracted(files).constants[i].file),
    decreases files.len(),
{
    if files.len() > 0 {
        law_constants_well_shaped(files.drop_last());
        let f = files.last();
        if is_rust_source_path(f.0) {
            let prev = extracted(files.drop_last()).constants;
            let fc = file_constants(f.0, f.1);
            lemma_constants_of_matches_shaped(f.0, f.1, const_declaration_matches(f.1));
            let cur = extracted(files).constants;
            assert(cur == prev + fc);
            assert forall|i: int| 0 <= i < cur.len() implies #[trigger] well_shaped(cur[i]) && is_rust_source_path(
                cur[i].file,
            ) by {
                if i < prev.len() {
                    assert(cur[i] == prev[i]);
                    assert(well_shaped(prev[i]) && is_rust_source_path(prev[i].file));
                } else {
                    let k = i - prev.len();
                    assert(cur[i] == fc[k]);
                    assert(fc == constants_of_matches(f.0, f.1, const_declaration_matches(f.1)));
                    assert(well_shaped(constants_of_matches(f.0, f.1, const_declaration_matches(f.1))[k]));
                    assert(well_shaped(fc[k]) && fc[k].file == f.0);
                }
            }
        } else {
            let prev = extracted(files.drop_last()).constants;
            assert(extracted(files).constants == prev);
            assert forall|i: int| 0 <= i < prev.len() implies #[trigger] well_shaped(prev[i]) && is_rust_source_path(
                prev[i].file,
            ) by {}
        }
    }
}


// ---------------------------------------------------------------------
// Laws of distribution candidates and grouping keys
// ---------------------------------------------------------------------

proof fn lemma_enclosing_function_nearest(lines: Seq<Seq<char>>, j: int, k: int, f: Seq<char>)
    requires
        0 <= j <= k < lines.len(),
        function_name_capture(lines[j]) == Some(f),
        forall|i: int| j < i <= k ==> (#[trigger] function_name_capture(lines[i])) is None,
    ensures
        enclosing_function(lines, k) == Some(f),
    decreases k - j,
{
    if k > j {
        lemma_enclosing_function_nearest(lines, j, k - 1, f);
    }
}

proof fn lemma_enclosing_function_none(lines: Seq<Seq<char>>, k: int)
    requires
        k < lines.len(),
        forall|i: int| 0 <= i <= k ==> (#[trigger] function_name_capture(lines[i])) is None,
    ensures
        enclosing_function(lines, k) is None,
    decreases k + 1,
{
    if k >= 0 {
        lemma_enclosing_function_none(lines, k - 1);
    }
}

/// A candidate carries the name of the nearest function declared on its own
/// line or above it: where line `j` declares `f` and no line after it, up to
/// and including the candidate's line `k`, declares a function, every
/// candidate of line `k` names `f` (in particular when `j == k`). The
/// candidate's line is counted from 1.
pub proof fn law_candidate_names_nearest_function(
    path: Seq<char>,
    lines: Seq<Seq<char>>,
    j: int,
    k: int,
    f: Seq<char>,
)
    requires
        0 <= j <= k < lines.len(),
        function_name_capture(lines[j]) == Some(f),
        forall|i: int| j < i <= k ==> (#[trigger] function_name_capture(lines[i])) is None,
    ensures
        forall|m: int|
            0 <= m < line_candidates(path, lines, k).len() ==> {
                &&& (#[trigger] line_candidates(path, lines, k)[m]).function_name == f
                &&& line_candidates(path, lines, k)[m].line == k + 1
                &&& line_candidates(path, lines, k)[m].file == path
            },
{
    lemma_enclosing_function_nearest(lines, j, k, f);
}

/// A candidate with no function declared on its line or above it is named
/// `unknown`.
pub proof fn law_candidate_outside_functions_unknown(path: Seq<char>, lines: Seq<Seq<char>>, k: int)
    requires
        0 <= k < lines.len(),
        forall|i: int| 0 <= i <= k ==> (#[trigger] function_name_capture(lines[i])) is None,
    ensures
        forall|m: int|
            0 <= m < line_candidates(path, lines, k).len() ==> (#[trigger] line_candidates(
                path,
                lines,
                k,
            )[m]).function_name == "unknown"@,
{
    lemma_enclosing_function_none(lines, k);
}

proof fn lemma_candidates_upto_lines(path: Seq<char>, lines: Seq<Seq<char>>, n: int)
    requires
        0 <= n <= lines.len(),
    ensures
        forall|m: int|
            0 <= m < candidates_upto(path, lines, n).len() ==> {
                let c = #[trigger] candidates_upto(path, lines, n)[m];
                &&& 1 <= c.line <= n
                &&& c.file == path
                &&& line_candidates(path, lines, c.line - 1).contains(c)
            },
    decreases n,
{
    if n > 0 {
        lemma_candidates_upto_lines(path, lines, n - 1);
        let prev = candidates_upto(path, lines, n - 1);
        let lc = line_candidates(path, lines, n - 1);
        let cur = candidates_upto(path, lines, n);
        assert forall|m: int| 0 <= m < cur.len() implies {
            let c = #[trigger] cur[m];
            &&& 1 <= c.line <= n
            &&& c.file == path
            &&& line_candidates(path, lines, c.line - 1).contains(c)
        } by {
            if m < prev.len() {
                assert(cur[m] == prev[m]);
            } else {
                assert(cur[m] == lc[m - prev.len()]);
                assert(lc.contains(cur[m]));
            }
        }
    }
}

/// Every candidate of a file stands on one of its lines and is one of the
/// candidates of that line, so the laws of line candidates hold of it.
pub proof fn law_file_candidates_by_line(path: Seq<char>, content: Seq<char>)
    ensures
        forall|m: int|
            0 <= m < file_candidates(path, content).len() ==> {
                let c = #[trigger] file_candidates(path, content)[m];
                &&& 1 <= c.line <= lines_of(content).len()
                &&& c.file == path
                &&& line_candidates(path, lines_of(content), c.line - 1).contains(c)
            },
{
    lemma_candidates_upto_lines(path, lines_of(content), lines_of(content).len() as int);
}

proof fn lemma_split_first(s: Seq<char>, sep: char)
    ensures
        split_on(s, sep).len() >= 1,
        split_on(s, sep)[0].len() <= s.len(),
        s.take(split_on(s, sep)[0].len() as int) == split_on(s, sep)[0],
        !split_on(s, sep)[0].contains(sep),
        split_on(s, sep)[0].len() == s.len() || s[split_on(s, sep)[0].len() as int] == sep,
        split_on(s, sep).len() == 1 <==> !s.contains(sep),
    decreases s.len(),
{
    if s.len() == 0 {
        assert(s.take(0) =~= Seq::<char>::empty());
    } else {
        let t = s.drop_last();
        lemma_split_first(t, sep);
        let p = split_on(t, sep);
        let f = p[0];
        assert(s.take(f.len() as int) =~= t.take(f.len() as int));
        if s.last() == sep {
            assert(split_on(s, sep)[0] == f);
            assert(s[t.len() as int] == sep);
            if f.len() < t.len() {
                assert(s[f.len() as int] == t[f.len() as int]);
            }
        } else if p.len() == 1 {
            assert(f.len() == t.len()) by {
                if f.len() < t.len() {
                    assert(t.contains(t[f.len() as int]));
                }
            }
            assert(f =~= t);
            assert(split_on(s, sep)[0] == f.push(s.last()));
            assert(f.push(s.last()) =~= s);
            assert(s.take(s.len() as int) =~= s);
            assert(!s.contains(sep)) by {
                if s.contains(sep) {
                    let i = choose|i: int| 0 <= i < s.len() && s[i] == sep;
                    assert(i < t.len());
                    assert(t[i] == sep);
                    assert(t.contains(sep));
                }
            }
        } else {
            assert(split_on(s, sep)[0] == f);
            let w = choose|i: int| 0 <= i < t.len() && t[i] == sep;
            assert(s[w] == sep);
            assert(s.contains(sep));
            if f.len() == t.len() {
                assert(t.take(t.len() as int) =~= t);
                assert(f.contains(sep)) by {
                    assert(f[w] == t[w]);
                }
            }
            assert(s[f.len() as int] == t[f.len() as int]);
        }
        if s.contains(sep) && s.last() != sep {
            let w = choose|i: int| 0 <= i < s.len() && s[i] == sep;
            assert(t[w] == sep);
            assert(t.contains(sep));
        }
    }
}

/// A name (uppercased) without a total marker is grouped under the text
/// before its first underscore: the key is a prefix of the name, holds no
/// underscore, and is followed in the name by an underscore or by nothing.
pub proof fn law_group_key_plain_name(u: Seq<char>)
    requires
        !has_total_marker(u),
    ensures
        group_key(u).len() <= u.len(),
        u.take(group_key(u).len() as int) == group_key(u),
        !group_key(u).contains('_'),
        group_key(u).len() == u.len() || u[group_key(u).len() as int] == '_',
{
    lemma_split_first(u, '_');
}

proof fn lemma_trim_subrange(s: Seq<char>, k: CharClass)
    ensures
        exists|a: int, b: int| 0 <= a <= b <= s.len() && trim_class(s, k) == s.subrange(a, b),
{
    lemma_trim_start_subrange(s, k);
    let a = choose|a: int| 0 <= a <= s.len() && trim_start_class(s, k) == s.subrange(a, s.len() as int);
    let t = trim_start_class(s, k);
    lemma_trim_end_subrange(t, k);
    let b = choose|b: int| 0 <= b <= t.len() && trim_end_class(t, k) == t.subrange(0, b);
    assert(t.subrange(0, b) =~= s.subrange(a, a + b));
}

proof fn lemma_trim_start_subrange(s: Seq<char>, k: CharClass)
    ensures
        exists|a: int| 0 <= a <= s.len() && trim_start_class(s, k) == s.subrange(a, s.len() as int),
    decreases s.len(),
{
    if s.len() > 0 && crate::text::in_class(k, s[0]) {
        let t = s.drop_first();
        lemma_trim_start_subrange(t, k);
        let a = choose|a: int| 0 <= a <= t.len() && trim_start_class(t, k) == t.subrange(a, t.len() as int);
        assert(t.subrange(a, t.len() as int) =~= s.subrange(a + 1, s.len() as int));
    } else {
        assert(s.subrange(0, s.len() as int) =~= s);
    }
}

proof fn lemma_trim_end_subrange(s: Seq<char>, k: CharClass)
    ensures
        exists|b: int| 0 <= b <= s.len() && trim_end_class(s, k) == s.subrange(0, b),
    decreases s.len(),
{
    if s.len() > 0 && crate::text::in_class(k, s.last()) {
        let t = s.drop_last();
        lemma_trim_end_subrange(t, k);
        let b = choose|b: int| 0 <= b <= t.len() && trim_end_class(t, k) == t.subrange(0, b);
        assert(t.subrange(0, b) =~= s.subrange(0, b));
    } else {
        assert(s.subrange(0, s.len() as int) =~= s);
    }
}

/// No grouping key holds an underscore.
pub proof fn law_group_key_has_no_underscore(u: Seq<char>)
    ensures
        !group_key(u).contains('_'),
{
    reveal_strlit("WEIGHT");
    if has_total_marker(u) {
        if !is_total_of_weights(u) {
            let r = remove_char(remove_text(remove_text(remove_text(u, "TOTAL"@), "SUM"@), "WEIGHT"@), '_');
            lemma_remove_char_absent(remove_text(remove_text(remove_text(u, "TOTAL"@), "SUM"@), "WEIGHT"@), '_');
            lemma_trim_subrange(r, CharClass::WhiteSpace);
            let (a, b) = choose|a: int, b: int| 0 <= a <= b <= r.len() && trim_class(r, CharClass::WhiteSpace) == r.subrange(a, b);
            let key = r.subrange(a, b);
            assert forall|i: int| 0 <= i < key.len() implies key[i] != '_' by {
                assert(key[i] == r[a + i]);
                assert(r.contains(r[a + i]));
            }
        }
    } else {
        law_group_key_plain_name(u);
    }
}

/// A `.rs` file counts test attributes exactly when `#[test]` stands in it
/// somewhere, at whatever index.
pub proof fn law_test_attributes_found(path: Seq<char>, content: Seq<char>)
    requires
        is_rust_source_path(path),
    ensures
        extracted(seq![(path, content)]).test_function_count > 0 <==> exists|j: int|
            0 <= j && j + 7 <= content.len() && #[trigger] content.subrange(j, j + 7) == "#[test]"@,
{
    reveal_strlit("#[test]");
    let fs = seq![(path, content)];
    assert(fs.drop_last() =~= Seq::<(Seq<char>, Seq<char>)>::empty());
    assert(extracted(fs.drop_last()) == ExtractedView::empty());
    assert(fs.last() == (path, content));
    assert(extracted(fs).test_function_count == count_matches(content, "#[test]"@));
    assert("#[test]"@.len() == 7);
    law_count_matches_sees_every_position(content, "#[test]"@);
}

/// A declaration whose value, underscores removed, has the shape
/// `[0-9]+.[0-9]*` yields a constant with that value, however many digits
/// follow the point; it is not an integer.
pub proof fn law_decimal_declarations_kept(
    path: Seq<char>,
    content: Seq<char>,
    ms: Seq<(Seq<char>, Seq<char>, Seq<char>)>,
    m: (Seq<char>, Seq<char>, Seq<char>),
    d: Seq<char>,
    f: Seq<char>,
)
    requires
        d.len() > 0,
        is_digit_text(d),
        is_digit_text(f),
        remove_char(m.2, '_') == d + "."@ + f,
    ensures
        constants_of_matches(path, content, ms.push(m)) == constants_of_matches(path, content, ms).push(
            constant_of_match(path, content, m),
        ),
        constant_of_match(path, content, m).value_text == d + "."@ + f,
        !constant_of_match(path, content, m).is_integer,
        constant_of_match(path, content, m).name == m.1,
{
    reveal_strlit(".");
    law_decimal_literal_shapes(d, f);
    assert(ms.push(m).drop_last() =~= ms);
    assert((d + "."@ + f)[d.len() as int] == '.');
}

} // verus!
