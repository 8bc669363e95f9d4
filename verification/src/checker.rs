//! Conservation checks over extracted data, and the diagnostics they yield.

use vstd::prelude::*;
use crate::diagnostic::{
    str_to_string, Diagnostic, DiagnosticLevel, DiagnosticView, Location, LocationView,
};
use crate::extractor::{
    constant_views, CandidateView, Constant, ConstantView, DistributionCandidate, ExtractedData,
    TestCountAssertion, TestCountView,
};
use crate::pattern::{debug_list, debug_string_list, string_views, to_uppercase, uppercase};
use crate::text::{
    chars_of, contains_chars, contains_text, copy_range, decimal, ends_with_chars, ends_with_text,
    equal_chars, string_from_chars, trim_chars, trim_class, usize_to_string, CharClass,
};

verus! {

/// The kind of conservation check performed.
#[derive(Debug, Clone, Copy, PartialEq, Eq, Structural)]
pub enum CheckKind {
    /// Sub-components should sum to their declared total.
    SumConservation,
    /// Test count in comments should match the actual count of test attributes.
    TestCountAssertion,
    /// Probability distributions should sum to about one.
    EntropyConservation,
}

/// Result of a single conservation check.
pub struct CheckResult {
    pub kind: CheckKind,
    pub passed: bool,
    pub message: String,
    pub diagnostic: Diagnostic,
}

pub open spec fn diagnostic_views(v: Seq<Diagnostic>) -> Seq<DiagnosticView> {
    v.map_values(|d: Diagnostic| d@)
}

/// A diagnostic of the given level, message, code and rendering, located at
/// column 1 of a line.
pub open spec fn located(
    level: DiagnosticLevel,
    message: Seq<char>,
    code: Seq<char>,
    file: Seq<char>,
    line: nat,
    rendered: Option<Seq<char>>,
) -> DiagnosticView {
    DiagnosticView {
        level,
        message,
        code: Some(code),
        location: Some(LocationView { file, line, column: 1 }),
        rendered,
    }
}

fn make_located(
    level: DiagnosticLevel,
    message: String,
    code: &str,
    file: &String,
    line: usize,
    rendered: Option<String>,
) -> (d: Diagnostic)
    ensures
        d@ == located(
            level,
            message@,
            code@,
            file@,
            line as nat,
            match rendered {
                Some(r) => Some(r@),
                None => None,
            },
        ),
{
    Diagnostic {
        level,
        message,
        code: Some(str_to_string(code)),
        location: Some(Location { file: file.clone(), line, column: 1 }),
        rendered,
    }
}

// ---------------------------------------------------------------------
// Test-count assertions
// ---------------------------------------------------------------------

/// The diagnostic for one test-count assertion, given the number of test
/// attributes found: a warning where the counts differ, a note otherwise.
pub open spec fn test_count_diagnostic(a: TestCountView, found: nat) -> DiagnosticView {
    let expected = decimal(a.expected_count as nat);
    if a.expected_count != found {
        located(
            DiagnosticLevel::Warning,
            "Test count assertion says "@ + expected + " tests, but found "@ + decimal(found)
                + " #[test] functions"@,
            "conservation-lint::test-count"@,
            a.file,
            a.line,
            Some("Comment: \""@ + a.raw_comment + "\" \u{2014} expected "@ + expected
                + " tests, found "@ + decimal(found)),
        )
    } else {
        located(
            DiagnosticLevel::Note,
            "\u{2713} Test count OK: assertion of "@ + expected + " matches actual count"@,
            "conservation-lint::test-count"@,
            a.file,
            a.line,
            None,
        )
    }
}

fn test_count_diagnostic_exec(a: &TestCountAssertion, found: usize) -> (d: Diagnostic)
    ensures
        d@ == test_count_diagnostic(a@, found as nat),
{
    let expected = usize_to_string(a.expected_count);
    let found_text = usize_to_string(found);
    if a.expected_count != found {
        let mut m = str_to_string("Test count assertion says ");
        m.append(expected.as_str());
        m.append(" tests, but found ");
        m.append(found_text.as_str());
        m.append(" #[test] functions");
        let mut r = str_to_string("Comment: \"");
        r.append(a.raw_comment.as_str());
        r.append("\" \u{2014} expected ");
        r.append(expected.as_str());
        r.append(" tests, found ");
        r.append(found_text.as_str());
        make_located(
            DiagnosticLevel::Warning,
            m,
            "conservation-lint::test-count",
            &a.file,
            a.line,
            Some(r),
        )
    } else {
        let mut m = str_to_string("\u{2713} Test count OK: assertion of ");
        m.append(expected.as_str());
        m.append(" matches actual count");
        make_located(
            DiagnosticLevel::Note,
            m,
            "conservation-lint::test-count",
            &a.file,
            a.line,
            None,
        )
    }
}

/// Check test count assertions against the actual count of test attributes:
/// one diagnostic per assertion, in order.
pub fn check_test_count_assertions(data: &ExtractedData) -> (r: Vec<Diagnostic>)
    ensures
        diagnostic_views(r@) == data@.test_count_assertions.map_values(
            |a: TestCountView| test_count_diagnostic(a, data@.test_function_count),
        ),
{
    let ghost target = data@.test_count_assertions.map_values(
        |a: TestCountView| test_count_diagnostic(a, data@.test_function_count),
    );
    let mut r: Vec<Diagnostic> = Vec::new();
    let mut i: usize = 0;
    while i < data.test_count_assertions.len()
        invariant
            target == data@.test_count_assertions.map_values(
                |a: TestCountView| test_count_diagnostic(a, data@.test_function_count),
            ),
            i <= data.test_count_assertions@.len(),
            diagnostic_views(r@) == target.take(i as int),
        decreases data.test_count_assertions.len() - i,
    {
        let d = test_count_diagnostic_exec(&data.test_count_assertions[i], data.test_function_count);
        assert(data@.test_count_assertions[i as int] == data.test_count_assertions@[i as int]@);
        let ghost before = diagnostic_views(r@);
        r.push(d);
        assert(diagnostic_views(r@) =~= before.push(d@));
        assert(target.take(i + 1) =~= target.take(i as int).push(target[i as int]));
        i += 1;
    }
    assert(target.take(target.len() as int) =~= target);
    r
}


// ---------------------------------------------------------------------
// Sum conservation: which constants are totals, and what they add up
// ---------------------------------------------------------------------

/// An (uppercased) name that declares a total: it ends with `_TOTAL`, `_SUM`
/// or `_WEIGHT`, or is one of those words.
pub open spec fn is_total_name(u: Seq<char>) -> bool {
    ||| ends_with_text(u, "_TOTAL"@)
    ||| ends_with_text(u, "_SUM"@)
    ||| ends_with_text(u, "_WEIGHT"@)
    ||| u == "TOTAL"@
    ||| u == "SUM"@
    ||| u == "WEIGHT"@
}

/// The prefix a total's sub-components share: the (uppercased) total name
/// without the suffix that makes it a total, with underscores trimmed from
/// both ends; empty for the bare words.
pub open spec fn total_base(u: Seq<char>) -> Seq<char> {
    let stripped = if ends_with_text(u, "_TOTAL"@) {
        u.take(u.len() - "_TOTAL"@.len())
    } else if ends_with_text(u, "_SUM"@) {
        u.take(u.len() - "_SUM"@.len())
    } else if ends_with_text(u, "_WEIGHT"@) {
        u.take(u.len() - "_WEIGHT"@.len())
    } else {
        Seq::<char>::empty()
    };
    trim_class(stripped, CharClass::Underscore)
}

/// A name (uppercased) counts towards the total with base `base`: it
/// declares no total itself, and contains the base.
pub open spec fn is_component_name(u: Seq<char>, base: Seq<char>) -> bool {
    !is_total_name(u) && contains_text(u, base)
}

/// Indices below `n` of the names that count towards `base`, in order.
pub open spec fn components_upto(us: Seq<Seq<char>>, base: Seq<char>, n: int) -> Seq<usize>
    decreases n,
{
    if n <= 0 {
        Seq::<usize>::empty()
    } else {
        let p = components_upto(us, base, n - 1);
        if is_component_name(us[n - 1], base) {
            p.push((n - 1) as usize)
        } else {
            p
        }
    }
}

/// The uppercased names of constants.
pub open spec fn upper_names(cs: Seq<ConstantView>) -> Seq<Seq<char>> {
    cs.map_values(|c: ConstantView| uppercase(c.name))
}

/// A total to check: its index, its base, and the indices of its
/// sub-components.
pub struct SumGroup {
    pub total: usize,
    pub base: String,
    pub components: Vec<usize>,
}

pub struct SumGroupView {
    pub total: usize,
    pub base: Seq<char>,
    pub components: Seq<usize>,
}

impl View for SumGroup {
    type V = SumGroupView;

    open spec fn view(&self) -> SumGroupView {
        SumGroupView { total: self.total, base: self.base@, components: self.components@ }
    }
}

pub open spec fn sum_group_views(v: Seq<SumGroup>) -> Seq<SumGroupView> {
    v.map_values(|g: SumGroup| g@)
}

/// The check for name `t`, if it is a total with a non-empty base and at
/// least one sub-component.
pub open spec fn sum_group_for(us: Seq<Seq<char>>, t: int) -> Option<SumGroupView> {
    let base = total_base(us[t]);
    let comps = components_upto(us, base, us.len() as int);
    if is_total_name(us[t]) && base.len() > 0 && comps.len() > 0 {
        Some(SumGroupView { total: t as usize, base, components: comps })
    } else {
        None
    }
}

/// The checks for the names below `n`, in order.
pub open spec fn sum_groups_upto(us: Seq<Seq<char>>, n: int) -> Seq<SumGroupView>
    decreases n,
{
    if n <= 0 {
        Seq::<SumGroupView>::empty()
    } else {
        let prev = sum_groups_upto(us, n - 1);
        match sum_group_for(us, n - 1) {
            Some(g) => prev.push(g),
            None => prev,
        }
    }
}

/// Given the uppercased names of the constants: one check per total that
/// has a non-empty base and at least one sub-component, in the order the
/// totals were declared.
pub open spec fn sum_groups_of(us: Seq<Seq<char>>) -> Seq<SumGroupView> {
    sum_groups_upto(us, us.len() as int)
}

/// The checks for a list of constants, decided on their uppercased names.
pub open spec fn sum_groups(cs: Seq<ConstantView>) -> Seq<SumGroupView> {
    sum_groups_of(upper_names(cs))
}

fn total_name_chars(u: &[char]) -> (r: bool)
    ensures
        r == is_total_name(u@),
{
    let t = chars_of("_TOTAL");
    let s = chars_of("_SUM");
    let w = chars_of("_WEIGHT");
    let t2 = chars_of("TOTAL");
    let s2 = chars_of("SUM");
    let w2 = chars_of("WEIGHT");
    ends_with_chars(u, t.as_slice()) || ends_with_chars(u, s.as_slice()) || ends_with_chars(
        u,
        w.as_slice(),
    ) || equal_chars(u, t2.as_slice()) || equal_chars(u, s2.as_slice()) || equal_chars(
        u,
        w2.as_slice(),
    )
}

fn total_base_chars(u: &[char]) -> (r: Vec<char>)
    ensures
        r@ == total_base(u@),
{
    let t = chars_of("_TOTAL");
    let s = chars_of("_SUM");
    let w = chars_of("_WEIGHT");
    let stripped = if ends_with_chars(u, t.as_slice()) {
        copy_range(u, 0, u.len() - t.len())
    } else if ends_with_chars(u, s.as_slice()) {
        copy_range(u, 0, u.len() - s.len())
    } else if ends_with_chars(u, w.as_slice()) {
        copy_range(u, 0, u.len() - w.len())
    } else {
        Vec::new()
    };
    assert(stripped@ =~= (if ends_with_text(u@, "_TOTAL"@) {
        u@.take(u@.len() - "_TOTAL"@.len())
    } else if ends_with_text(u@, "_SUM"@) {
        u@.take(u@.len() - "_SUM"@.len())
    } else if ends_with_text(u@, "_WEIGHT"@) {
        u@.take(u@.len() - "_WEIGHT"@.len())
    } else {
        Seq::<char>::empty()
    }));
    trim_chars(stripped.as_slice(), CharClass::Underscore)
}

/// Whether an uppercased name declares a total.
pub fn is_total_name_of(upper: &str) -> (r: bool)
    ensures
        r == is_total_name(upper@),
{
    let uc = chars_of(upper);
    total_name_chars(uc.as_slice())
}

/// The base of an uppercased total name (see `total_base`).
pub fn total_base_of(upper: &str) -> (r: String)
    ensures
        r@ == total_base(upper@),
{
    let uc = chars_of(upper);
    let b = total_base_chars(uc.as_slice());
    string_from_chars(b.as_slice())
}

/// The totals to check, given the uppercased names of the constants, and
/// for each the constants that count towards it.
pub fn sum_groups_of_names(upper_names: &Vec<String>) -> (r: Vec<SumGroup>)
    ensures
        sum_group_views(r@) == sum_groups_of(string_views(upper_names@)),
{
    let ghost us = string_views(upper_names@);
    let n = upper_names.len();
    let mut uppers: Vec<Vec<char>> = Vec::new();
    let mut totals: Vec<bool> = Vec::new();
    let mut i: usize = 0;
    while i < n
        invariant
            n == upper_names@.len(),
            us == string_views(upper_names@),
            i <= n,
            uppers@.len() == i,
            totals@.len() == i,
            forall|j: int| 0 <= j < i ==> (#[trigger] uppers@[j])@ == us[j],
            forall|j: int| 0 <= j < i ==> #[trigger] totals@[j] == is_total_name(us[j]),
        decreases n - i,
    {
        let uc = chars_of(upper_names[i].as_str());
        let is_total = total_name_chars(uc.as_slice());
        uppers.push(uc);
        totals.push(is_total);
        i += 1;
    }
    let mut groups: Vec<SumGroup> = Vec::new();
    let mut t: usize = 0;
    while t < n
        invariant
            n == us.len(),
            uppers@.len() == n,
            totals@.len() == n,
            forall|j: int| 0 <= j < n ==> (#[trigger] uppers@[j])@ == us[j],
            forall|j: int| 0 <= j < n ==> #[trigger] totals@[j] == is_total_name(us[j]),
            t <= n,
            sum_group_views(groups@) == sum_groups_upto(us, t as int),
        decreases n - t,
    {
        if totals[t] {
            let base = total_base_chars(uppers[t].as_slice());
            if base.len() > 0 {
                let mut comps: Vec<usize> = Vec::new();
                let mut j: usize = 0;
                while j < n
                    invariant
                        n == us.len(),
                        uppers@.len() == n,
                        totals@.len() == n,
                        forall|k: int| 0 <= k < n ==> (#[trigger] uppers@[k])@ == us[k],
                        forall|k: int| 0 <= k < n ==> #[trigger] totals@[k] == is_total_name(us[k]),
                        j <= n,
                        comps@ == components_upto(us, base@, j as int),
                    decreases n - j,
                {
                    assert(uppers@[j as int]@ == us[j as int]);
                    assert(totals@[j as int] == is_total_name(us[j as int]));
                    if !totals[j] && contains_chars(uppers[j].as_slice(), base.as_slice()) {
                        comps.push(j);
                    }
                    j += 1;
                }
                if comps.len() > 0 {
                    let g = SumGroup {
                        total: t,
                        base: string_from_chars(base.as_slice()),
                        components: comps,
                    };
                    let ghost before = sum_group_views(groups@);
                    groups.push(g);
                    assert(sum_group_views(groups@) =~= before.push(g@));
                }
            }
        }
        assert(uppers@[t as int]@ == us[t as int]);
        assert(totals@[t as int] == is_total_name(us[t as int]));
        t += 1;
    }
    groups
}

/// The totals to check among `constants` and, for each, the constants that
/// count towards it.
pub fn sum_conservation_groups(constants: &Vec<Constant>) -> (r: Vec<SumGroup>)
    ensures
        sum_group_views(r@) == sum_groups(constant_views(constants@)),
{
    let ghost cs = constant_views(constants@);
    let mut uppers: Vec<String> = Vec::new();
    let mut i: usize = 0;
    while i < constants.len()
        invariant
            cs == constant_views(constants@),
            i <= constants@.len(),
            string_views(uppers@) == upper_names(cs).take(i as int),
        decreases constants.len() - i,
    {
        let u = to_uppercase(constants[i].name.as_str());
        assert(cs[i as int].name == constants@[i as int].name@);
        let ghost before = string_views(uppers@);
        uppers.push(u);
        assert(string_views(uppers@) =~= before.push(u@));
        assert(upper_names(cs).take(i + 1) =~= upper_names(cs).take(i as int).push(upper_names(cs)[i as int]));
        i += 1;
    }
    assert(upper_names(cs).take(cs.len() as int) =~= upper_names(cs));
    sum_groups_of_names(&uppers)
}


/// `items` joined with `sep` between them (`[String]::join`).
pub open spec fn join_with(items: Seq<Seq<char>>, sep: Seq<char>) -> Seq<char>
    decreases items.len(),
{
    if items.len() == 0 {
        Seq::<char>::empty()
    } else if items.len() == 1 {
        items[0]
    } else {
        join_with(items.drop_last(), sep) + sep + items.last()
    }
}

/// `NAME=VALUE` for each sub-component, with the value as the caller wrote it.
pub open spec fn component_entries(
    cs: Seq<ConstantView>,
    comps: Seq<usize>,
    values: Seq<Seq<char>>,
) -> Seq<Seq<char>> {
    Seq::new(comps.len(), |k: int| cs[comps[k] as int].name + "="@ + values[k])
}

/// The diagnostic for one checked total, given whether the sum was found to
/// violate it and the numbers as text (declared total, sum of the
/// sub-components, their difference, and each sub-component's value): an
/// error for a violation, a note otherwise.
pub open spec fn sum_conservation_diagnostic_view(
    cs: Seq<ConstantView>,
    g: SumGroupView,
    violated: bool,
    expected: Seq<char>,
    actual: Seq<char>,
    diff: Seq<char>,
    values: Seq<Seq<char>>,
) -> DiagnosticView {
    let t = cs[g.total as int];
    if violated {
        located(
            DiagnosticLevel::Error,
            "Conservation violation: "@ + t.name + " = "@ + expected + " but sub-components sum to "@
                + actual + " (diff: "@ + diff + ")"@,
            "conservation-lint::sum-conservation"@,
            t.file,
            t.line,
            Some("Components: ["@ + join_with(component_entries(cs, g.components, values), ", "@)
                + "] should sum to "@ + expected + " ("@ + t.name + ")"@),
        )
    } else {
        located(
            DiagnosticLevel::Note,
            "\u{2713} Conservation OK: "@ + t.name + " = "@ + expected + " matches sub-component sum "@
                + actual,
            "conservation-lint::sum-conservation"@,
            t.file,
            t.line,
            None,
        )
    }
}

/// The diagnostic for one checked total (see
/// `sum_conservation_diagnostic_view`). Whether the sub-components violate the
/// total, and the numbers as text, come from the caller, which holds the
/// values as numbers.
pub fn sum_conservation_diagnostic(
    constants: &Vec<Constant>,
    group: &SumGroup,
    violated: bool,
    expected: &str,
    actual: &str,
    diff: &str,
    component_values: &Vec<String>,
) -> (d: Diagnostic)
    requires
        group.total < constants@.len(),
        forall|k: int| 0 <= k < group.components@.len() ==> #[trigger] group.components@[k] < constants@.len(),
        component_values@.len() == group.components@.len(),
    ensures
        d@ == sum_conservation_diagnostic_view(
            constant_views(constants@),
            group@,
            violated,
            expected@,
            actual@,
            diff@,
            component_values@.map_values(|v: String| v@),
        ),
{
    let ghost cs = constant_views(constants@);
    let total = &constants[group.total];
    assert(cs[group.total as int] == total@);
    if violated {
        let mut m = str_to_string("Conservation violation: ");
        m.append(total.name.as_str());
        m.append(" = ");
        m.append(expected);
        m.append(" but sub-components sum to ");
        m.append(actual);
        m.append(" (diff: ");
        m.append(diff);
        m.append(")");
        let ghost entries = component_entries(
            cs,
            group.components@,
            component_values@.map_values(|v: String| v@),
        );
        let mut list = String::new();
        let mut k: usize = 0;
        while k < group.components.len()
            invariant
                cs == constant_views(constants@),
                forall|q: int| 0 <= q < group.components@.len() ==> #[trigger] group.components@[q] < constants@.len(),
                component_values@.len() == group.components@.len(),
                entries == component_entries(
                    cs,
                    group.components@,
                    component_values@.map_values(|v: String| v@),
                ),
                k <= group.components@.len(),
                list@ == join_with(entries.take(k as int), ", "@),
            decreases group.components.len() - k,
        {
            let c = &constants[group.components[k]];
            assert(cs[group.components@[k as int] as int] == c@);
            let ghost before = list@;
            if k > 0 {
                list.append(", ");
            }
            list.append(c.name.as_str());
            list.append("=");
            list.append(component_values[k].as_str());
            assert(entries[k as int] == c.name@ + "="@ + component_values@[k as int]@);
            assert(entries.take(k + 1).drop_last() =~= entries.take(k as int));
            if k == 0 {
                assert(list@ =~= entries[0]);
            } else {
                assert(list@ =~= before + ", "@ + entries[k as int]);
            }
            k += 1;
        }
        assert(entries.take(entries.len() as int) =~= entries);
        let mut r = str_to_string("Components: [");
        r.append(list.as_str());
        r.append("] should sum to ");
        r.append(expected);
        r.append(" (");
        r.append(total.name.as_str());
        r.append(")");
        make_located(
            DiagnosticLevel::Error,
            m,
            "conservation-lint::sum-conservation",
            &total.file,
            total.line,
            Some(r),
        )
    } else {
        let mut m = str_to_string("\u{2713} Conservation OK: ");
        m.append(total.name.as_str());
        m.append(" = ");
        m.append(expected);
        m.append(" matches sub-component sum ");
        m.append(actual);
        make_located(
            DiagnosticLevel::Note,
            m,
            "conservation-lint::sum-conservation",
            &total.file,
            total.line,
            None,
        )
    }
}

// ---------------------------------------------------------------------
// Entropy conservation
// ---------------------------------------------------------------------

/// The diagnostic for one distribution, given its sum as text and whether
/// the sum was found to stray from one: a warning if so, a note otherwise.
pub open spec fn entropy_diagnostic_view(c: CandidateView, sum: Seq<char>, violated: bool) -> DiagnosticView {
    if violated {
        located(
            DiagnosticLevel::Warning,
            "Entropy violation: distribution in "@ + c.function_name + " sums to "@ + sum
                + " (expected ~1.0)"@,
            "conservation-lint::entropy-conservation"@,
            c.file,
            c.line,
            Some("Distribution values: "@ + debug_string_list(c.distribution_values) + " \u{2014} sum = "@
                + sum + " (entropy conservation requires sum \u{2248} 1.0)"@),
        )
    } else {
        located(
            DiagnosticLevel::Note,
            "\u{2713} Entropy OK: distribution in "@ + c.function_name + " sums to "@ + sum,
            "conservation-lint::entropy-conservation"@,
            c.file,
            c.line,
            None,
        )
    }
}

/// The diagnostic for one distribution (see `entropy_diagnostic_view`).
/// The sum, and whether it strays from one, come from the caller, which
/// holds the values as numbers.
pub fn entropy_conservation_diagnostic(
    candidate: &DistributionCandidate,
    sum: &str,
    violated: bool,
) -> (d: Diagnostic)
    ensures
        d@ == entropy_diagnostic_view(candidate@, sum@, violated),
{
    if violated {
        let mut m = str_to_string("Entropy violation: distribution in ");
        m.append(candidate.function_name.as_str());
        m.append(" sums to ");
        m.append(sum);
        m.append(" (expected ~1.0)");
        let values = debug_list(&candidate.distribution_values);
        let mut r = str_to_string("Distribution values: ");
        r.append(values.as_str());
        r.append(" \u{2014} sum = ");
        r.append(sum);
        r.append(" (entropy conservation requires sum \u{2248} 1.0)");
        make_located(
            DiagnosticLevel::Warning,
            m,
            "conservation-lint::entropy-conservation",
            &candidate.file,
            candidate.line,
            Some(r),
        )
    } else {
        let mut m = str_to_string("\u{2713} Entropy OK: distribution in ");
        m.append(candidate.function_name.as_str());
        m.append(" sums to ");
        m.append(sum);
        make_located(
            DiagnosticLevel::Note,
            m,
            "conservation-lint::entropy-conservation",
            &candidate.file,
            candidate.line,
            None,
        )
    }
}


// ---------------------------------------------------------------------
// Laws
// ---------------------------------------------------------------------

/// A test-count assertion yields a warning exactly when its count differs
/// from the number of test attributes found, and a note otherwise; never an
/// error. The diagnostic carries the test-count code and points at the
/// comment's line, column 1.
pub proof fn law_test_count_levels(a: TestCountView, found: nat)
    ensures
        test_count_diagnostic(a, found).level != DiagnosticLevel::Error,
        (test_count_diagnostic(a, found).level == DiagnosticLevel::Warning) <==> a.expected_count != found,
        (test_count_diagnostic(a, found).level == DiagnosticLevel::Note) <==> a.expected_count == found,
        test_count_diagnostic(a, found).code == Some("conservation-lint::test-count"@),
        test_count_diagnostic(a, found).location == Some(LocationView { file: a.file, line: a.line, column: 1 }),
{
}

/// A checked total yields an error exactly when its sub-components were found
/// to violate it, and a note otherwise; the diagnostic points at the total's
/// declaration.
pub proof fn law_sum_diagnostic_levels(
    cs: Seq<ConstantView>,
    g: SumGroupView,
    violated: bool,
    expected: Seq<char>,
    actual: Seq<char>,
    diff: Seq<char>,
    values: Seq<Seq<char>>,
)
    ensures
        ({
            let d = sum_conservation_diagnostic_view(cs, g, violated, expected, actual, diff, values);
            &&& (d.level == DiagnosticLevel::Error) <==> violated
            &&& (d.level == DiagnosticLevel::Note) <==> !violated
            &&& d.code == Some("conservation-lint::sum-conservation"@)
            &&& d.location == Some(
                LocationView { file: cs[g.total as int].file, line: cs[g.total as int].line, column: 1 },
            )
        }),
{
}

/// A distribution yields a warning exactly when its sum was found to stray
/// from one, and a note otherwise; never an error.
pub proof fn law_entropy_diagnostic_levels(c: CandidateView, sum: Seq<char>, violated: bool)
    ensures
        entropy_diagnostic_view(c, sum, violated).level != DiagnosticLevel::Error,
        (entropy_diagnostic_view(c, sum, violated).level == DiagnosticLevel::Warning) <==> violated,
{
}

proof fn lemma_components_upto(us: Seq<Seq<char>>, base: Seq<char>, n: int)
    requires
        0 <= n <= us.len(),
        us.len() <= usize::MAX,
    ensures
        forall|k: int|
            0 <= k < components_upto(us, base, n).len() ==> {
                &&& components_upto(us, base, n)[k] < n
                &&& is_component_name(us[components_upto(us, base, n)[k] as int], base)
            },
        forall|j: int| 0 <= j < n && is_component_name(us[j], base) ==> components_upto(us, base, n).contains(
            j as usize,
        ),
        forall|k1: int, k2: int|
            0 <= k1 < k2 < components_upto(us, base, n).len() ==> components_upto(us, base, n)[k1]
                < components_upto(us, base, n)[k2],
    decreases n,
{
    if n > 0 {
        lemma_components_upto(us, base, n - 1);
        let prev = components_upto(us, base, n - 1);
        if is_component_name(us[n - 1], base) {
            assert forall|j: int| 0 <= j < n && is_component_name(us[j], base) implies components_upto(
                us,
                base,
                n,
            ).contains(j as usize) by {
                if j < n - 1 {
                    let k = choose|k: int| 0 <= k < prev.len() && prev[k] == j as usize;
                    assert(components_upto(us, base, n)[k] == j as usize);
                } else {
                    assert(components_upto(us, base, n)[prev.len() as int] == j as usize);
                }
            }
        }
    }
}

proof fn lemma_sum_groups_upto(us: Seq<Seq<char>>, n: int)
    requires
        0 <= n <= us.len(),
        us.len() <= usize::MAX,
    ensures
        forall|i: int|
            0 <= i < sum_groups_upto(us, n).len() ==> {
                let g = #[trigger] sum_groups_upto(us, n)[i];
                &&& g.total < n
                &&& sum_group_for(us, g.total as int) == Some(g)
            },
        forall|t: int|
            0 <= t < n && (#[trigger] sum_group_for(us, t)) is Some ==> exists|i: int|
                0 <= i < sum_groups_upto(us, n).len() && sum_groups_upto(us, n)[i].total == t,
        forall|i1: int, i2: int|
            0 <= i1 < i2 < sum_groups_upto(us, n).len() ==> sum_groups_upto(us, n)[i1].total
                < sum_groups_upto(us, n)[i2].total,
    decreases n,
{
    if n > 0 {
        lemma_sum_groups_upto(us, n - 1);
        let prev = sum_groups_upto(us, n - 1);
        let cur = sum_groups_upto(us, n);
        match sum_group_for(us, n - 1) {
            Some(g) => {
                assert(cur == prev.push(g));
                assert forall|i: int| 0 <= i < cur.len() implies {
                    let h = #[trigger] cur[i];
                    &&& h.total < n
                    &&& sum_group_for(us, h.total as int) == Some(h)
                } by {
                    if i < prev.len() {
                        assert(cur[i] == prev[i]);
                    }
                }
                assert forall|t: int|
                    0 <= t < n && (#[trigger] sum_group_for(us, t)) is Some implies exists|i: int|
                    0 <= i < cur.len() && cur[i].total == t by {
                    if t < n - 1 {
                        let i = choose|i: int| 0 <= i < prev.len() && prev[i].total == t;
                        assert(cur[i] == prev[i]);
                    } else {
                        assert(cur[prev.len() as int].total == t);
                    }
                }
            },
            None => {},
        }
    }
}

/// Given the uppercased names of the constants: every total that is checked
/// is a name that declares a total, with a non-empty base; its
/// sub-components are listed in order, none of them is itself a total, and
/// each contains the base. Conversely, every total with a non-empty base and
/// at least one such name is checked, exactly once, in declaration order.
pub proof fn law_sum_groups(us: Seq<Seq<char>>)
    requires
        us.len() <= usize::MAX,
    ensures
        forall|i: int|
            0 <= i < sum_groups_of(us).len() ==> {
                let g = #[trigger] sum_groups_of(us)[i];
                &&& g.total < us.len()
                &&& is_total_name(us[g.total as int])
                &&& g.base == total_base(us[g.total as int])
                &&& g.base.len() > 0
                &&& g.components.len() > 0
                &&& forall|k: int|
                    0 <= k < g.components.len() ==> {
                        &&& g.components[k] < us.len()
                        &&& !is_total_name(us[g.components[k] as int])
                        &&& contains_text(us[g.components[k] as int], g.base)
                    }
                &&& forall|j: int|
                    0 <= j < us.len() && is_component_name(us[j], g.base) ==> g.components.contains(j as usize)
            },
        forall|t: int|
            0 <= t < us.len() && is_total_name(us[t]) && total_base(us[t]).len() > 0 && (exists|j: int|
                0 <= j < us.len() && is_component_name(us[j], total_base(us[t]))) ==> exists|i: int|
                0 <= i < sum_groups_of(us).len() && #[trigger] sum_groups_of(us)[i].total == t,
        forall|i1: int, i2: int|
            0 <= i1 < i2 < sum_groups_of(us).len() ==> sum_groups_of(us)[i1].total < sum_groups_of(us)[i2].total,
{
    let n = us.len() as int;
    lemma_sum_groups_upto(us, n);
    assert forall|i: int| 0 <= i < sum_groups_of(us).len() implies {
        let g = #[trigger] sum_groups_of(us)[i];
        &&& g.total < us.len()
        &&& is_total_name(us[g.total as int])
        &&& g.base == total_base(us[g.total as int])
        &&& g.base.len() > 0
        &&& g.components.len() > 0
        &&& forall|k: int|
            0 <= k < g.components.len() ==> {
                &&& g.components[k] < us.len()
                &&& !is_total_name(us[g.components[k] as int])
                &&& contains_text(us[g.components[k] as int], g.base)
            }
        &&& forall|j: int| 0 <= j < us.len() && is_component_name(us[j], g.base) ==> g.components.contains(j as usize)
    } by {
        let g = sum_groups_of(us)[i];
        assert(sum_group_for(us, g.total as int) == Some(g));
        lemma_components_upto(us, g.base, n);
    }
    assert forall|t: int|
        0 <= t < us.len() && is_total_name(us[t]) && total_base(us[t]).len() > 0 && (exists|j: int|
            0 <= j < us.len() && is_component_name(us[j], total_base(us[t]))) implies exists|i: int|
        0 <= i < sum_groups_of(us).len() && #[trigger] sum_groups_of(us)[i].total == t by {
        let base = total_base(us[t]);
        let j = choose|j: int| 0 <= j < us.len() && is_component_name(us[j], base);
        lemma_components_upto(us, base, n);
        assert(components_upto(us, base, n).contains(j as usize));
        assert(sum_group_for(us, t) is Some);
        let i = choose|i: int| 0 <= i < sum_groups_upto(us, n).len() && sum_groups_upto(us, n)[i].total == t;
        assert(sum_groups_of(us)[i].total == t);
    }
}

proof fn lemma_components_append_total(us: Seq<Seq<char>>, u: Seq<char>, base: Seq<char>, k: int)
    requires
        is_total_name(u),
        0 <= k <= us.len() + 1,
    ensures
        components_upto(us.push(u), base, k) == components_upto(us, base, if k <= us.len() { k } else { us.len() as int }),
    decreases k,
{
    if k > 0 {
        lemma_components_append_total(us, u, base, k - 1);
        if k <= us.len() {
            assert(us.push(u)[k - 1] == us[k - 1]);
        } else {
            assert(us.push(u)[k - 1] == u);
        }
    }
}

proof fn lemma_sum_groups_append_total(us: Seq<Seq<char>>, u: Seq<char>, k: int)
    requires
        is_total_name(u),
        0 <= k <= us.len(),
    ensures
        sum_groups_upto(us.push(u), k) == sum_groups_upto(us, k),
    decreases k,
{
    if k > 0 {
        lemma_sum_groups_append_total(us, u, k - 1);
        let t = k - 1;
        assert(us.push(u)[t] == us[t]);
        lemma_components_append_total(us, u, total_base(us[t]), us.len() + 1int);
        assert(sum_group_for(us.push(u), t) == sum_group_for(us, t));
    }
}

/// Declaring one more total leaves the checks of the earlier totals as they
/// were: a total never counts as a sub-component, so the checks for the
/// longer list are those for the shorter one, followed by at most one check,
/// that of the new total.
pub proof fn law_total_appended(us: Seq<Seq<char>>, u: Seq<char>)
    requires
        is_total_name(u),
        us.len() < usize::MAX,
    ensures
        sum_groups_of(us.push(u)).len() == sum_groups_of(us).len() || sum_groups_of(us.push(u)).len()
            == sum_groups_of(us).len() + 1,
        sum_groups_of(us.push(u)).take(sum_groups_of(us).len() as int) == sum_groups_of(us),
        sum_groups_of(us.push(u)).len() == sum_groups_of(us).len() + 1 ==> sum_groups_of(
            us.push(u),
        ).last().total == us.len(),
{
    let n = us.len() as int;
    lemma_sum_groups_append_total(us, u, n);
    let prev = sum_groups_upto(us.push(u), n);
    assert(prev == sum_groups_of(us));
    match sum_group_for(us.push(u), n) {
        Some(g) => {
            assert(sum_groups_of(us.push(u)) == prev.push(g));
            assert(prev.push(g).take(prev.len() as int) =~= prev);
        },
        None => {
            assert(sum_groups_of(us.push(u)) == prev);
            assert(prev.take(prev.len() as int) =~= prev);
        },
    }
}

/// Appending a total constant keeps each earlier check, and the diagnostic
/// it yields, unchanged.
pub proof fn law_total_appended_diagnostic(
    cs: Seq<ConstantView>,
    t: ConstantView,
    i: int,
    violated: bool,
    expected: Seq<char>,
    actual: Seq<char>,
    diff: Seq<char>,
    values: Seq<Seq<char>>,
)
    requires
        is_total_name(uppercase(t.name)),
        cs.len() < usize::MAX,
        0 <= i < sum_groups(cs).len(),
        values.len() == sum_groups(cs)[i].components.len(),
    ensures
        sum_groups(cs.push(t))[i] == sum_groups(cs)[i],
        sum_conservation_diagnostic_view(cs.push(t), sum_groups(cs)[i], violated, expected, actual, diff, values)
            == sum_conservation_diagnostic_view(cs, sum_groups(cs)[i], violated, expected, actual, diff, values),
{
    let us = upper_names(cs);
    assert(upper_names(cs.push(t)) =~= us.push(uppercase(t.name)));
    law_total_appended(us, uppercase(t.name));
    assert(sum_groups(cs.push(t)).take(sum_groups(cs).len() as int)[i] == sum_groups(cs.push(t))[i]);
    law_sum_groups(us);
    let g = sum_groups(cs)[i];
    assert(cs.push(t)[g.total as int] == cs[g.total as int]);
    assert(component_entries(cs.push(t), g.components, values) =~= component_entries(cs, g.components, values))
        by {
        assert forall|k: int| 0 <= k < g.components.len() implies cs.push(t)[g.components[k] as int]
            == cs[g.components[k] as int] by {}
    }
}

/// `u` ends with the characters of `suffix`.
pub open spec fn has_suffix(u: Seq<char>, suffix: Seq<char>) -> bool {
    suffix.len() <= u.len() && u.subrange(u.len() - suffix.len(), u.len() as int) == suffix
}

/// The names that declare a total are exactly those ending with `_TOTAL`,
/// `_SUM` or `_WEIGHT`, and the three bare words.
pub proof fn law_total_names(u: Seq<char>)
    ensures
        is_total_name(u) <==> (has_suffix(u, "_TOTAL"@) || has_suffix(u, "_SUM"@) || has_suffix(u, "_WEIGHT"@)
            || u == "TOTAL"@ || u == "SUM"@ || u == "WEIGHT"@),
{
}

/// A name ending with `_WEIGHT` (or `_TOTAL`, `_SUM`) whose base is not
/// empty is checked whenever some other name that is no total contains
/// that base.
pub proof fn law_suffixed_totals_are_checked(us: Seq<Seq<char>>, t: int, j: int)
    requires
        us.len() <= usize::MAX,
        0 <= t < us.len(),
        0 <= j < us.len(),
        has_suffix(us[t], "_TOTAL"@) || has_suffix(us[t], "_SUM"@) || has_suffix(us[t], "_WEIGHT"@),
        total_base(us[t]).len() > 0,
        is_component_name(us[j], total_base(us[t])),
    ensures
        exists|i: int| 0 <= i < sum_groups_of(us).len() && #[trigger] sum_groups_of(us)[i].total == t,
{
    law_total_names(us[t]);
    law_sum_groups(us);
}

} // verus!
