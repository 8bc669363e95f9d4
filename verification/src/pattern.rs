//! The regular expressions that find declarations, test-count comments,
//! array literals and function names, and the few standard-library text
//! functions whose results are named rather than restated.

use vstd::prelude::*;
use regex::Regex;
use crate::text::occurs_in;

verus! {

#[verifier::external_type_specification]
#[verifier::external_body]
pub struct ExRegex(Regex);

/// Declarations of numeric constants: (name, value).
pub const CONST_DECL_PATTERN: &'static str =
    r"(?m)^\s*(?:pub\s+)?(?:const|static)\s+(\w+)\s*:\s*\w+\s*=\s*(-?\d+\.?\d*(?:_\d+)*)\s*;";

/// Test-count comments such as `// 15 tests`: (count).
pub const TEST_COUNT_PATTERN: &'static str = r"//\s*(\d+)\s+tests?";

/// Array literals of two or more numbers: (the list inside the brackets).
pub const ARRAY_LITERAL_PATTERN: &'static str = r"(?:vec!|&)\s*\[\s*([\d.]+(?:\s*,\s*[\d.]+)+)\s*\]";

/// Function declarations: (name).
pub const FUNCTION_NAME_PATTERN: &'static str = r"fn\s+(\w+)";

/// The patterns this library compiles; each is a valid regular expression.
pub open spec fn is_library_pattern(s: Seq<char>) -> bool {
    ||| s == CONST_DECL_PATTERN@
    ||| s == TEST_COUNT_PATTERN@
    ||| s == ARRAY_LITERAL_PATTERN@
    ||| s == FUNCTION_NAME_PATTERN@
}

/// What `Regex::captures_iter` yields for `pattern` on `haystack`: for each
/// match, left to right without overlap, the text of every capture group
/// (group 0 being the whole match), or `None` for a group that took no part.
pub uninterp spec fn regex_captures(pattern: Seq<char>, haystack: Seq<char>) -> Seq<Seq<Option<Seq<char>>>>;

/// What `str::to_uppercase` gives for `s`.
pub uninterp spec fn uppercase(s: Seq<char>) -> Seq<char>;

/// What `{:?}` writes for a vector of strings.
pub uninterp spec fn debug_string_list(values: Seq<Seq<char>>) -> Seq<char>;

pub open spec fn string_views(v: Seq<String>) -> Seq<Seq<char>> {
    v.map_values(|s: String| s@)
}

pub open spec fn opt_views(v: Seq<Option<String>>) -> Seq<Option<Seq<char>>> {
    v.map_values(|o: Option<String>| match o {
        Some(s) => Some(s@),
        None => None,
    })
}

pub open spec fn capture_views(v: Seq<Vec<Option<String>>>) -> Seq<Seq<Option<Seq<char>>>> {
    v.map_values(|m: Vec<Option<String>>| opt_views(m@))
}

/// The text of capture group `k` of a match; empty where the group took no
/// part (which the library's patterns never leave a group out of).
pub open spec fn capture_text(m: Seq<Option<Seq<char>>>, k: int) -> Seq<char> {
    if 0 <= k < m.len() {
        match m[k] {
            Some(t) => t,
            None => Seq::<char>::empty(),
        }
    } else {
        Seq::<char>::empty()
    }
}

/// A compiled regular expression together with its source. Values come only
/// from [`Pattern::new`], so the field `re` is always `source` compiled.
pub struct Pattern {
    source: String,
    re: Regex,
}

impl Pattern {
    pub closed spec fn source(&self) -> Seq<char> {
        self.source@
    }

    /// Trusted: `Regex::new`, on one of the library's patterns, which all
    /// compile, so the `unwrap` never fails. The pattern's source is kept
    /// beside it.
    #[verifier::external_body]
    pub(crate) fn new(source: &str) -> (r: Pattern)
        requires
            is_library_pattern(source@),
        ensures
            r.source() == source@,
    {
        Pattern { source: source.to_string(), re: Regex::new(source).unwrap() }
    }

    /// Trusted: `Regex::captures_iter`, each match turned into the texts of
    /// its groups (`Captures::iter`, `Match::as_str`). The result is named
    /// (`regex_captures`); stated beside it is what the documentation gives:
    /// group 0 is always present ("when `i == 0`, this is guaranteed to
    /// return a non-`None` value") and is a piece of the haystack (`as_str`
    /// returns "the substring of the haystack that matched").
    #[verifier::external_body]
    pub(crate) fn captures_all(&self, haystack: &str) -> (r: Vec<Vec<Option<String>>>)
        ensures
            capture_views(r@) == regex_captures(self.source(), haystack@),
            forall|i: int|
                0 <= i < r@.len() ==> {
                    &&& (#[trigger] r@[i])@.len() > 0
                    &&& r@[i]@[0] is Some
                    &&& occurs_in(haystack@, r@[i]@[0]->0@)
                },
    {
        self.re.captures_iter(haystack).map(
            |c| c.iter().map(|m| m.map(|m| m.as_str().to_string())).collect(),
        ).collect()
    }
}

/// Trusted: `str::to_uppercase`; the result is named (`uppercase`).
#[verifier::external_body]
pub(crate) fn to_uppercase(s: &str) -> (r: String)
    ensures
        r@ == uppercase(s@),
{
    s.to_uppercase()
}

/// Trusted: `{:?}` formatting of a vector of strings (`format!`); the
/// result is named (`debug_string_list`).
#[verifier::external_body]
pub(crate) fn debug_list(values: &Vec<String>) -> (r: String)
    ensures
        r@ == debug_string_list(string_views(values@)),
{
    format!("{:?}", values)
}

/// The text of capture group `k` of a match, empty where the group is absent.
pub fn capture_string(m: &Vec<Option<String>>, k: usize) -> (r: String)
    ensures
        r@ == capture_text(opt_views(m@), k as int),
{
    if k < m.len() {
        match &m[k] {
            Some(t) => t.clone(),
            None => String::new(),
        }
    } else {
        String::new()
    }
}

// ---------------------------------------------------------------------
// What each pattern yields
// ---------------------------------------------------------------------

/// The constant declarations in `content`: (whole match, name, value).
pub open spec fn const_declaration_matches(content: Seq<char>) -> Seq<(Seq<char>, Seq<char>, Seq<char>)> {
    regex_captures(CONST_DECL_PATTERN@, content).map_values(
        |m: Seq<Option<Seq<char>>>| (capture_text(m, 0), capture_text(m, 1), capture_text(m, 2)),
    )
}

/// The test-count comments in `content`: (whole match, count digits).
pub open spec fn test_count_comment_matches(content: Seq<char>) -> Seq<(Seq<char>, Seq<char>)> {
    regex_captures(TEST_COUNT_PATTERN@, content).map_values(
        |m: Seq<Option<Seq<char>>>| (capture_text(m, 0), capture_text(m, 1)),
    )
}

/// The lists inside the array literals of one line.
pub open spec fn array_literal_lists(line: Seq<char>) -> Seq<Seq<char>> {
    regex_captures(ARRAY_LITERAL_PATTERN@, line).map_values(|m: Seq<Option<Seq<char>>>| capture_text(m, 1))
}

/// The name in the first function declaration of one line, if any.
pub open spec fn function_name_capture(line: Seq<char>) -> Option<Seq<char>> {
    let ms = regex_captures(FUNCTION_NAME_PATTERN@, line);
    if ms.len() > 0 {
        Some(capture_text(ms[0], 1))
    } else {
        None
    }
}

pub open spec fn pair_views(v: Seq<(String, String)>) -> Seq<(Seq<char>, Seq<char>)> {
    v.map_values(|p: (String, String)| (p.0@, p.1@))
}

pub open spec fn triple_views(v: Seq<(String, String, String)>) -> Seq<(Seq<char>, Seq<char>, Seq<char>)> {
    v.map_values(|t: (String, String, String)| (t.0@, t.1@, t.2@))
}

impl Pattern {
    /// The constant declarations in `content`.
    pub(crate) fn const_declarations(&self, content: &str) -> (r: Vec<(String, String, String)>)
        requires
            self.source() == CONST_DECL_PATTERN@,
        ensures
            triple_views(r@) == const_declaration_matches(content@),
            forall|i: int| 0 <= i < r@.len() ==> occurs_in(content@, #[trigger] r@[i].0@),
    {
        let caps = self.captures_all(content);
        let ghost ms = regex_captures(self.source(), content@);
        let ghost target = const_declaration_matches(content@);
        let mut r: Vec<(String, String, String)> = Vec::new();
        let mut i: usize = 0;
        while i < caps.len()
            invariant
                capture_views(caps@) == ms,
                ms == regex_captures(CONST_DECL_PATTERN@, content@),
                target == const_declaration_matches(content@),
                forall|j: int|
                    0 <= j < caps@.len() ==> {
                        &&& (#[trigger] caps@[j])@.len() > 0
                        &&& caps@[j]@[0] is Some
                        &&& occurs_in(content@, caps@[j]@[0]->0@)
                    },
                i <= caps@.len(),
                triple_views(r@) == target.take(i as int),
                forall|j: int| 0 <= j < r@.len() ==> occurs_in(content@, #[trigger] r@[j].0@),
            decreases caps.len() - i,
        {
            let m = &caps[i];
            assert(opt_views(m@) == ms[i as int]);
            let t = (capture_string(m, 0), capture_string(m, 1), capture_string(m, 2));
            assert(t.0@ == m@[0]->0@);
            let ghost before = triple_views(r@);
            r.push(t);
            assert(triple_views(r@) =~= before.push((t.0@, t.1@, t.2@)));
            assert(target.take(i + 1) =~= target.take(i as int).push(target[i as int]));
            i += 1;
        }
        assert(target.take(target.len() as int) =~= target);
        r
    }

    /// The test-count comments in `content`.
    pub(crate) fn test_count_comments(&self, content: &str) -> (r: Vec<(String, String)>)
        requires
            self.source() == TEST_COUNT_PATTERN@,
        ensures
            pair_views(r@) == test_count_comment_matches(content@),
            forall|i: int| 0 <= i < r@.len() ==> occurs_in(content@, #[trigger] r@[i].0@),
    {
        let caps = self.captures_all(content);
        let ghost ms = regex_captures(self.source(), content@);
        let ghost target = test_count_comment_matches(content@);
        let mut r: Vec<(String, String)> = Vec::new();
        let mut i: usize = 0;
        while i < caps.len()
            invariant
                capture_views(caps@) == ms,
                ms == regex_captures(TEST_COUNT_PATTERN@, content@),
                target == test_count_comment_matches(content@),
                forall|j: int|
                    0 <= j < caps@.len() ==> {
                        &&& (#[trigger] caps@[j])@.len() > 0
                        &&& caps@[j]@[0] is Some
                        &&& occurs_in(content@, caps@[j]@[0]->0@)
                    },
                i <= caps@.len(),
                pair_views(r@) == target.take(i as int),
                forall|j: int| 0 <= j < r@.len() ==> occurs_in(content@, #[trigger] r@[j].0@),
            decreases caps.len() - i,
        {
            let m = &caps[i];
            assert(opt_views(m@) == ms[i as int]);
            let t = (capture_string(m, 0), capture_string(m, 1));
            assert(t.0@ == m@[0]->0@);
            let ghost before = pair_views(r@);
            r.push(t);
            assert(pair_views(r@) =~= before.push((t.0@, t.1@)));
            assert(target.take(i + 1) =~= target.take(i as int).push(target[i as int]));
            i += 1;
        }
        assert(target.take(target.len() as int) =~= target);
        r
    }

    /// The lists inside the array literals of one line.
    pub(crate) fn array_lists(&self, line: &str) -> (r: Vec<String>)
        requires
            self.source() == ARRAY_LITERAL_PATTERN@,
        ensures
            string_views(r@) == array_literal_lists(line@),
    {
        let caps = self.captures_all(line);
        let ghost ms = regex_captures(self.source(), line@);
        let ghost target = array_literal_lists(line@);
        let mut r: Vec<String> = Vec::new();
        let mut i: usize = 0;
        while i < caps.len()
            invariant
                capture_views(caps@) == ms,
                ms == regex_captures(ARRAY_LITERAL_PATTERN@, line@),
                target == array_literal_lists(line@),
                i <= caps@.len(),
                string_views(r@) == target.take(i as int),
            decreases caps.len() - i,
        {
            let m = &caps[i];
            assert(opt_views(m@) == ms[i as int]);
            let t = capture_string(m, 1);
            let ghost before = string_views(r@);
            r.push(t);
            assert(string_views(r@) =~= before.push(t@));
            assert(target.take(i + 1) =~= target.take(i as int).push(target[i as int]));
            i += 1;
        }
        assert(target.take(target.len() as int) =~= target);
        r
    }

    /// The name in the first function declaration of one line, if any.
    pub(crate) fn function_name(&self, line: &str) -> (r: Option<String>)
        requires
            self.source() == FUNCTION_NAME_PATTERN@,
        ensures
            match r {
                Some(n) => function_name_capture(line@) == Some(n@),
                None => function_name_capture(line@) is None,
            },
    {
        let caps = self.captures_all(line);
        if caps.len() > 0 {
            assert(opt_views(caps@[0]@) == regex_captures(self.source(), line@)[0]);
            Some(capture_string(&caps[0], 1))
        } else {
            None
        }
    }
}

} // verus!
