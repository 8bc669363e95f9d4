//! Character sequences: conversions, searching, splitting and trimming,
//! with their specifications over `Seq<char>`.

use vstd::prelude::*;

verus! {

broadcast use vstd::string::group_string_axioms;

/// The characters of a string slice, in order.
pub fn chars_of(s: &str) -> (r: Vec<char>)
    ensures
        r@ == s@,
{
    let mut r: Vec<char> = Vec::new();
    for c in it: s.chars()
        invariant
            it.seq() == s@,
            r@ == it.seq().take(it.index() as int),
    {
        r.push(c);
    }
    r
}


/// A string holding the given characters, in order.
/// Trusted: `Iterator::collect` into `String` (its `FromIterator<&char>`
/// impl), which appends the characters one after another.
#[verifier::external_body]
pub(crate) fn string_from_chars(v: &[char]) -> (r: String)
    ensures
        r@ == v@,
{
    v.iter().collect()
}

/// The characters of `s` from index `from` up to, not including, `to`.
pub fn copy_range(s: &[char], from: usize, to: usize) -> (r: Vec<char>)
    requires
        from <= to <= s@.len(),
    ensures
        r@ == s@.subrange(from as int, to as int),
{
    let mut r: Vec<char> = Vec::new();
    let mut i = from;
    while i < to
        invariant
            from <= i <= to <= s@.len(),
            r@ == s@.subrange(from as int, i as int),
        decreases to - i,
    {
        r.push(s[i]);
        i += 1;
        assert(r@ =~= s@.subrange(from as int, i as int));
    }
    r
}

/// Unicode `White_Space`: the characters that `char::is_whitespace`,
/// `str::trim` and the `\s` class of regular expressions treat as space.
pub open spec fn is_white_space(c: char) -> bool {
    ||| ('\u{9}' <= c && c <= '\u{d}')
    ||| c == ' '
    ||| c == '\u{85}'
    ||| c == '\u{a0}'
    ||| c == '\u{1680}'
    ||| ('\u{2000}' <= c && c <= '\u{200a}')
    ||| c == '\u{2028}'
    ||| c == '\u{2029}'
    ||| c == '\u{202f}'
    ||| c == '\u{205f}'
    ||| c == '\u{3000}'
}

pub open spec fn is_ascii_digit(c: char) -> bool {
    '0' <= c && c <= '9'
}

/// The two kinds of characters that get trimmed from the ends of a text.
#[derive(Clone, Copy)]
pub enum CharClass {
    WhiteSpace,
    Underscore,
}

pub open spec fn in_class(k: CharClass, c: char) -> bool {
    match k {
        CharClass::WhiteSpace => is_white_space(c),
        CharClass::Underscore => c == '_',
    }
}

pub fn char_in_class(k: CharClass, c: char) -> (r: bool)
    ensures
        r == in_class(k, c),
{
    match k {
        CharClass::WhiteSpace => {
            ('\u{9}' <= c && c <= '\u{d}') || c == ' ' || c == '\u{85}' || c == '\u{a0}'
                || c == '\u{1680}' || ('\u{2000}' <= c && c <= '\u{200a}') || c == '\u{2028}'
                || c == '\u{2029}' || c == '\u{202f}' || c == '\u{205f}' || c == '\u{3000}'
        },
        CharClass::Underscore => c == '_',
    }
}

/// `s` without its leading characters of class `k`.
pub open spec fn trim_start_class(s: Seq<char>, k: CharClass) -> Seq<char>
    decreases s.len(),
{
    if s.len() > 0 && in_class(k, s[0]) {
        trim_start_class(s.drop_first(), k)
    } else {
        s
    }
}

/// `s` without its trailing characters of class `k`.
pub open spec fn trim_end_class(s: Seq<char>, k: CharClass) -> Seq<char>
    decreases s.len(),
{
    if s.len() > 0 && in_class(k, s.last()) {
        trim_end_class(s.drop_last(), k)
    } else {
        s
    }
}

/// `s` without the characters of class `k` at either end
/// (`str::trim` for white space, `str::trim_matches('_')` for underscores).
pub open spec fn trim_class(s: Seq<char>, k: CharClass) -> Seq<char> {
    trim_end_class(trim_start_class(s, k), k)
}

/// Number of leading characters of `s` in class `k`.
pub fn leading_class_len(s: &[char], k: CharClass) -> (r: usize)
    ensures
        r <= s@.len(),
        trim_start_class(s@, k) == s@.subrange(r as int, s@.len() as int),
{
    let n = s.len();
    let mut i: usize = 0;
    assert(s@.skip(0) =~= s@);
    while i < n && char_in_class(k, s[i])
        invariant
            i <= n == s@.len(),
            trim_start_class(s@, k) == trim_start_class(s@.skip(i as int), k),
        decreases n - i,
    {
        assert(s@.skip(i as int).drop_first() =~= s@.skip(i + 1));
        i += 1;
    }
    assert(s@.skip(i as int) =~= s@.subrange(i as int, n as int));
    i
}

pub fn trim_chars(s: &[char], k: CharClass) -> (r: Vec<char>)
    ensures
        r@ == trim_class(s@, k),
{
    let n = s.len();
    let i = leading_class_len(s, k);
    let mut j: usize = n;
    while j > i && char_in_class(k, s[j - 1])
        invariant
            i <= j <= n == s@.len(),
            trim_class(s@, k) == trim_end_class(s@.subrange(i as int, j as int), k),
        decreases j,
    {
        assert(s@.subrange(i as int, j as int).drop_last() =~= s@.subrange(i as int, j - 1));
        j -= 1;
    }
    copy_range(s, i, j)
}


/// `n` occurs in `h` starting at index `i`.
pub open spec fn occurs_at(h: Seq<char>, n: Seq<char>, i: int) -> bool {
    0 <= i && i + n.len() <= h.len() && h.subrange(i, i + n.len()) == n
}

/// `n` occurs somewhere in `h`.
pub open spec fn occurs_in(h: Seq<char>, n: Seq<char>) -> bool {
    exists|k: int| occurs_at(h, n, k)
}

/// The first index at or after `k` where `n` occurs in `h`.
pub open spec fn find_from(h: Seq<char>, n: Seq<char>, k: int) -> Option<int>
    decreases h.len() + 1 - k,
{
    if k < 0 || k + n.len() > h.len() {
        None
    } else if occurs_at(h, n, k) {
        Some(k)
    } else {
        find_from(h, n, k + 1)
    }
}

/// The first index where `n` occurs in `h` (`str::find`, counted in characters).
pub open spec fn find_first(h: Seq<char>, n: Seq<char>) -> Option<int> {
    find_from(h, n, 0)
}

/// `h` contains `n` (`str::contains` with a string pattern).
pub open spec fn contains_text(h: Seq<char>, n: Seq<char>) -> bool {
    find_first(h, n) is Some
}

pub open spec fn starts_with_text(h: Seq<char>, n: Seq<char>) -> bool {
    occurs_at(h, n, 0)
}

pub open spec fn ends_with_text(h: Seq<char>, n: Seq<char>) -> bool {
    n.len() <= h.len() && occurs_at(h, n, h.len() - n.len())
}

/// Whether `n` occurs in `h` at index `k`.
pub fn matches_at(h: &[char], n: &[char], k: usize) -> (r: bool)
    ensures
        r == occurs_at(h@, n@, k as int),
{
    if n.len() > h.len() || k > h.len() - n.len() {
        return false;
    }
    let mut i: usize = 0;
    while i < n.len()
        invariant
            h@.len() <= usize::MAX,
            n@.len() <= h@.len(),
            k + n@.len() <= h@.len(),
            i <= n@.len(),
            forall|j: int| 0 <= j < i ==> h@[k + j] == n@[j],
        decreases n.len() - i,
    {
        if h[k + i] != n[i] {
            assert(h@.subrange(k as int, k + n@.len())[i as int] != n@[i as int]);
            return false;
        }
        i += 1;
    }
    assert(h@.subrange(k as int, k + n@.len()) =~= n@);
    true
}

/// The first index where `n` occurs in `h`.
pub fn find_chars(h: &[char], n: &[char]) -> (r: Option<usize>)
    ensures
        match r {
            Some(i) => find_first(h@, n@) == Some(i as int),
            None => find_first(h@, n@) is None,
        },
{
    if n.len() > h.len() {
        return None;
    }
    let last = h.len() - n.len();
    let mut k: usize = 0;
    loop
        invariant
            last + n@.len() == h@.len(),
            k <= last,
            find_first(h@, n@) == find_from(h@, n@, k as int),
        decreases last - k,
    {
        if matches_at(h, n, k) {
            return Some(k);
        }
        if k == last {
            assert(find_from(h@, n@, k + 1) is None);
            return None;
        }
        k += 1;
    }
}

pub fn contains_chars(h: &[char], n: &[char]) -> (r: bool)
    ensures
        r == contains_text(h@, n@),
{
    find_chars(h, n).is_some()
}

pub fn starts_with_chars(h: &[char], n: &[char]) -> (r: bool)
    ensures
        r == starts_with_text(h@, n@),
{
    matches_at(h, n, 0)
}

pub fn ends_with_chars(h: &[char], n: &[char]) -> (r: bool)
    ensures
        r == ends_with_text(h@, n@),
{
    n.len() <= h.len() && matches_at(h, n, h.len() - n.len())
}

pub fn equal_chars(a: &[char], b: &[char]) -> (r: bool)
    ensures
        r == (a@ == b@),
{
    if a.len() != b.len() {
        return false;
    }
    let r = matches_at(a, b, 0);
    assert(r ==> a@.subrange(0, b@.len() as int) =~= a@);
    assert(a@ == b@ ==> a@.subrange(0, b@.len() as int) =~= a@);
    r
}

/// Number of non-overlapping occurrences of `n` in `h` at or after `k`,
/// taken from left to right (the count that `Regex::find_iter` gives for a
/// literal pattern).
pub open spec fn count_matches_from(h: Seq<char>, n: Seq<char>, k: int) -> nat
    decreases h.len() + 1 - k,
{
    if n.len() == 0 || k < 0 || k + n.len() > h.len() {
        0
    } else if occurs_at(h, n, k) {
        1 + count_matches_from(h, n, k + n.len())
    } else {
        count_matches_from(h, n, k + 1)
    }
}

pub open spec fn count_matches(h: Seq<char>, n: Seq<char>) -> nat {
    count_matches_from(h, n, 0)
}

pub fn count_chars_matches(h: &[char], n: &[char]) -> (r: usize)
    ensures
        r == count_matches(h@, n@),
        r <= h@.len(),
{
    if n.len() == 0 || n.len() > h.len() {
        return 0;
    }
    let last = h.len() - n.len();
    let mut k: usize = 0;
    let mut count: usize = 0;
    while k <= last
        invariant
            0 < n@.len(),
            h@.len() <= usize::MAX,
            last + n@.len() == h@.len(),
            k <= h@.len(),
            count <= k,
            count + count_matches_from(h@, n@, k as int) == count_matches(h@, n@),
        decreases h@.len() - k,
    {
        if matches_at(h, n, k) {
            count += 1;
            k += n.len();
        } else {
            k += 1;
        }
    }
    count
}

/// Number of occurrences of `c` in `s`.
pub open spec fn count_char(s: Seq<char>, c: char) -> nat
    decreases s.len(),
{
    if s.len() == 0 {
        0
    } else {
        count_char(s.drop_last(), c) + if s.last() == c { 1nat } else { 0nat }
    }
}

pub proof fn lemma_count_char_bound(s: Seq<char>, c: char)
    ensures
        count_char(s, c) <= s.len(),
    decreases s.len(),
{
    if s.len() > 0 {
        lemma_count_char_bound(s.drop_last(), c);
    }
}

/// Number of lines of `s`, as `str::lines().count()` gives it: one per line
/// feed, and one more for a last line that no line feed ends.
pub open spec fn line_count(s: Seq<char>) -> nat {
    count_char(s, '\n') + if s.len() > 0 && s.last() != '\n' { 1nat } else { 0nat }
}

/// Number of lines among the first `upto` characters of `s` (see `line_count`).
pub fn line_count_of(s: &[char], upto: usize) -> (r: usize)
    requires
        upto <= s@.len(),
    ensures
        r == line_count(s@.take(upto as int)),
        r <= upto,
{
    let count = count_newlines_upto(s, upto);
    if upto > 0 && s[upto - 1] != '\n' {
        proof {
            assert(s@.take(upto as int).drop_last() =~= s@.take(upto - 1));
            lemma_count_char_bound(s@.take(upto - 1), '\n');
        }
        count + 1
    } else {
        count
    }
}

/// Number of line feeds among the first `upto` characters of `s`.
pub fn count_newlines_upto(s: &[char], upto: usize) -> (r: usize)
    requires
        upto <= s@.len(),
    ensures
        r == count_char(s@.take(upto as int), '\n'),
        r <= upto,
{
    let mut i: usize = 0;
    let mut count: usize = 0;
    assert(s@.take(0) =~= Seq::<char>::empty());
    while i < upto
        invariant
            i <= upto <= s@.len(),
            count <= i,
            count == count_char(s@.take(i as int), '\n'),
        decreases upto - i,
    {
        assert(s@.take(i + 1).drop_last() =~= s@.take(i as int));
        if s[i] == '\n' {
            count += 1;
        }
        i += 1;
    }
    count
}

/// The pieces of `s` between occurrences of `sep` (`str::split` with a
/// character pattern): always at least one piece.
pub open spec fn split_on(s: Seq<char>, sep: char) -> Seq<Seq<char>>
    decreases s.len(),
{
    if s.len() == 0 {
        seq![Seq::<char>::empty()]
    } else {
        let p = split_on(s.drop_last(), sep);
        if s.last() == sep {
            p.push(Seq::<char>::empty())
        } else {
            p.update(p.len() - 1, p.last().push(s.last()))
        }
    }
}

pub proof fn lemma_split_on_nonempty(s: Seq<char>, sep: char)
    ensures
        split_on(s, sep).len() >= 1,
    decreases s.len(),
{
    if s.len() > 0 {
        lemma_split_on_nonempty(s.drop_last(), sep);
    }
}

pub open spec fn seq_views(v: Seq<Vec<char>>) -> Seq<Seq<char>> {
    v.map_values(|x: Vec<char>| x@)
}

pub fn split_chars(s: &[char], sep: char) -> (r: Vec<Vec<char>>)
    ensures
        seq_views(r@) == split_on(s@, sep),
{
    let mut pieces: Vec<Vec<char>> = Vec::new();
    let mut cur: Vec<char> = Vec::new();
    let mut i: usize = 0;
    assert(s@.take(0) =~= Seq::<char>::empty());
    assert(seq_views(pieces@).push(cur@) =~= split_on(s@.take(0), sep));
    while i < s.len()
        invariant
            i <= s@.len(),
            seq_views(pieces@).push(cur@) == split_on(s@.take(i as int), sep),
        decreases s.len() - i,
    {
        assert(s@.take(i + 1).drop_last() =~= s@.take(i as int));
        let c = s[i];
        if c == sep {
            let done = cur;
            pieces.push(done);
            cur = Vec::new();
            assert(seq_views(pieces@).push(cur@) =~= split_on(s@.take(i as int), sep).push(
                Seq::<char>::empty(),
            ));
        } else {
            let ghost before = cur@;
            cur.push(c);
            assert(seq_views(pieces@).push(cur@) =~= seq_views(pieces@).push(before).update(
                pieces@.len() as int,
                before.push(c),
            ));
        }
        i += 1;
    }
    assert(s@.take(s@.len() as int) =~= s@);
    pieces.push(cur);
    assert(seq_views(pieces@) =~= split_on(s@, sep));
    pieces
}

/// `l` without one carriage return at its end.
pub open spec fn strip_cr(l: Seq<char>) -> Seq<char> {
    if l.len() > 0 && l.last() == '\r' {
        l.drop_last()
    } else {
        l
    }
}

/// The lines of `s` as `str::lines` gives them: split at line feeds, a
/// carriage return just before a line feed dropped, and no empty last line
/// after a final line feed.
pub open spec fn lines_of(s: Seq<char>) -> Seq<Seq<char>> {
    let p = split_on(s, '\n');
    let body = Seq::new((p.len() - 1) as nat, |i: int| strip_cr(p[i]));
    if p.last().len() > 0 {
        body.push(p.last())
    } else {
        body
    }
}

pub fn strip_cr_chars(l: &[char]) -> (r: Vec<char>)
    ensures
        r@ == strip_cr(l@),
{
    if l.len() > 0 && l[l.len() - 1] == '\r' {
        copy_range(l, 0, l.len() - 1)
    } else {
        copy_range(l, 0, l.len())
    }
}

pub fn lines_chars(s: &[char]) -> (r: Vec<Vec<char>>)
    ensures
        seq_views(r@) == lines_of(s@),
{
    let pieces = split_chars(s, '\n');
    proof {
        lemma_split_on_nonempty(s@, '\n');
    }
    let last = pieces.len() - 1;
    let mut r: Vec<Vec<char>> = Vec::new();
    let mut i: usize = 0;
    while i < last
        invariant
            last + 1 == pieces@.len(),
            seq_views(pieces@) == split_on(s@, '\n'),
            i <= last,
            seq_views(r@) == Seq::new(i as nat, |j: int| strip_cr(split_on(s@, '\n')[j])),
        decreases last - i,
    {
        let l = strip_cr_chars(pieces[i].as_slice());
        assert(pieces@[i as int]@ == split_on(s@, '\n')[i as int]);
        let ghost before = seq_views(r@);
        r.push(l);
        assert(seq_views(r@) =~= before.push(l@));
        i += 1;
        assert(seq_views(r@) =~= Seq::new(i as nat, |j: int| strip_cr(split_on(s@, '\n')[j])));
    }
    assert(pieces@[last as int]@ == split_on(s@, '\n')[last as int]);
    let ghost p = split_on(s@, '\n');
    let ghost body = Seq::new((p.len() - 1) as nat, |i: int| strip_cr(p[i]));
    assert(seq_views(r@) =~= body);
    if pieces[last].len() > 0 {
        let l = copy_range(pieces[last].as_slice(), 0, pieces[last].len());
        assert(l@ =~= pieces@[last as int]@);
        assert(p.last() == p[last as int]);
        let ghost before = seq_views(r@);
        r.push(l);
        assert(seq_views(r@) =~= before.push(l@));
        assert(seq_views(r@) =~= body.push(p.last()));
    } else {
        assert(seq_views(r@) =~= body);
    }
    assert(seq_views(r@) =~= lines_of(s@));
    r
}


/// `s` with every `c` removed (`str::replace(c, "")`).
pub open spec fn remove_char(s: Seq<char>, c: char) -> Seq<char>
    decreases s.len(),
{
    if s.len() == 0 {
        s
    } else {
        let p = remove_char(s.drop_last(), c);
        if s.last() == c {
            p
        } else {
            p.push(s.last())
        }
    }
}

pub fn remove_char_chars(s: &[char], c: char) -> (r: Vec<char>)
    ensures
        r@ == remove_char(s@, c),
{
    let mut r: Vec<char> = Vec::new();
    let mut i: usize = 0;
    assert(s@.take(0) =~= Seq::<char>::empty());
    while i < s.len()
        invariant
            i <= s@.len(),
            r@ == remove_char(s@.take(i as int), c),
        decreases s.len() - i,
    {
        assert(s@.take(i + 1).drop_last() =~= s@.take(i as int));
        if s[i] != c {
            r.push(s[i]);
        }
        i += 1;
    }
    assert(s@.take(s@.len() as int) =~= s@);
    r
}

/// `s` with the occurrences of `p` removed, taken from left to right without
/// overlap from index `k` on (`str::replace(p, "")`).
pub open spec fn remove_text_from(s: Seq<char>, p: Seq<char>, k: int) -> Seq<char>
    decreases s.len() + 1 - k,
{
    if k < 0 || k >= s.len() {
        Seq::<char>::empty()
    } else if p.len() > 0 && occurs_at(s, p, k) {
        remove_text_from(s, p, k + p.len())
    } else {
        seq![s[k]] + remove_text_from(s, p, k + 1)
    }
}

pub open spec fn remove_text(s: Seq<char>, p: Seq<char>) -> Seq<char> {
    remove_text_from(s, p, 0)
}

pub fn remove_text_chars(s: &[char], p: &[char]) -> (r: Vec<char>)
    ensures
        r@ == remove_text(s@, p@),
{
    let mut r: Vec<char> = Vec::new();
    let mut k: usize = 0;
    while k < s.len()
        invariant
            k <= s@.len(),
            r@ + remove_text_from(s@, p@, k as int) == remove_text(s@, p@),
        decreases s.len() - k,
    {
        if p.len() > 0 && matches_at(s, p, k) {
            k += p.len();
        } else {
            let ghost rest = remove_text_from(s@, p@, k + 1);
            assert(r@.push(s@[k as int]) + rest =~= r@ + (seq![s@[k as int]] + rest));
            r.push(s[k]);
            k += 1;
        }
    }
    assert(r@ + Seq::<char>::empty() =~= r@);
    r
}

/// The character of a decimal digit `d` (0 to 9).
pub open spec fn digit_char(d: int) -> char {
    (d + 48) as char
}

/// The decimal numeral of `n`, as `Display` writes an unsigned integer.
pub open spec fn decimal(n: nat) -> Seq<char>
    decreases n,
{
    if n < 10 {
        seq![digit_char(n as int)]
    } else {
        decimal(n / 10).push(digit_char((n % 10) as int))
    }
}

pub fn decimal_chars(n: usize) -> (r: Vec<char>)
    ensures
        r@ == decimal(n as nat),
    decreases n,
{
    let d: u8 = (n % 10) as u8;
    let c: char = (48u8 + d) as char;
    if n < 10 {
        let mut v: Vec<char> = Vec::new();
        v.push(c);
        assert(v@ =~= seq![digit_char(n as int)]);
        v
    } else {
        let mut v = decimal_chars(n / 10);
        v.push(c);
        v
    }
}

/// `n` written in decimal, as `n.to_string()` writes it.
pub fn usize_to_string(n: usize) -> (r: String)
    ensures
        r@ == decimal(n as nat),
{
    let v = decimal_chars(n);
    string_from_chars(v.as_slice())
}

pub open spec fn all_ascii_digits(s: Seq<char>) -> bool {
    forall|i: int| 0 <= i < s.len() ==> is_ascii_digit(#[trigger] s[i])
}

/// The number that a sequence of decimal digits denotes.
pub open spec fn digits_value(s: Seq<char>) -> nat
    decreases s.len(),
{
    if s.len() == 0 {
        0
    } else {
        digits_value(s.drop_last()) * 10 + ((s.last() as int) - 48) as nat
    }
}

/// What `usize::from_str` gives for `s`: an optional `+` followed by one or
/// more decimal digits whose value fits in a `usize`.
pub open spec fn parse_usize(s: Seq<char>) -> Option<usize> {
    let body = if s.len() > 0 && s[0] == '+' {
        s.drop_first()
    } else {
        s
    };
    if body.len() > 0 && all_ascii_digits(body) && digits_value(body) <= usize::MAX {
        Some(digits_value(body) as usize)
    } else {
        None
    }
}

pub proof fn lemma_digits_value_prefix(s: Seq<char>, k: int)
    requires
        0 <= k <= s.len(),
        all_ascii_digits(s),
    ensures
        digits_value(s.take(k)) <= digits_value(s),
    decreases s.len(),
{
    if k < s.len() {
        assert(s.drop_last().take(k) =~= s.take(k));
        assert(all_ascii_digits(s.drop_last()));
        lemma_digits_value_prefix(s.drop_last(), k);
    } else {
        assert(s.take(k) =~= s);
    }
}

pub fn parse_usize_chars(s: &[char]) -> (r: Option<usize>)
    ensures
        r == parse_usize(s@),
{
    let start: usize = if s.len() > 0 && s[0] == '+' {
        1
    } else {
        0
    };
    let ghost body = if s@.len() > 0 && s@[0] == '+' {
        s@.drop_first()
    } else {
        s@
    };
    assert(body =~= s@.subrange(start as int, s@.len() as int));
    if start >= s.len() {
        return None;
    }
    let mut v: usize = 0;
    let mut i: usize = start;
    assert(body.take(0) =~= Seq::<char>::empty());
    while i < s.len()
        invariant
            start <= i <= s@.len(),
            body == s@.subrange(start as int, s@.len() as int),
            body == (if s@.len() > 0 && s@[0] == '+' { s@.drop_first() } else { s@ }),
            all_ascii_digits(body.take(i - start)),
            v == digits_value(body.take(i - start)),
        decreases s.len() - i,
    {
        let c = s[i];
        if !('0' <= c && c <= '9') {
            assert(body[i - start] == c);
            assert(!all_ascii_digits(body));
            assert(parse_usize(s@) is None);
            return None;
        }
        let d: usize = (c as u32 - 48) as usize;
        assert(body.take(i - start + 1).drop_last() =~= body.take(i - start));
        assert(all_ascii_digits(body.take(i - start + 1)));
        if v > (usize::MAX - d) / 10 {
            proof {
                let t = body.take(i - start + 1);
                assert(digits_value(t) == v * 10 + d);
                assert(v * 10 + d > usize::MAX) by (nonlinear_arith)
                    requires
                        v > (usize::MAX - d) / 10,
                        d <= 9,
                ;
                if all_ascii_digits(body) {
                    lemma_digits_value_prefix(body, i - start + 1);
                    assert(digits_value(body) > usize::MAX);
                }
                assert(parse_usize(s@) is None);
            }
            return None;
        }
        assert(v * 10 + d <= usize::MAX) by (nonlinear_arith)
            requires
                v <= (usize::MAX - d) / 10,
                d <= 9,
        ;
        v = v * 10 + d;
        i += 1;
    }
    assert(body.take(i - start) =~= body);
    Some(v)
}

/// Everything after an optional leading `-`: one ASCII digit, then ASCII
/// digits with at most one `.` among them.
pub open spec fn is_unsigned_decimal(b: Seq<char>) -> bool {
    &&& b.len() > 0
    &&& is_ascii_digit(b[0])
    &&& forall|i: int| 0 <= i < b.len() ==> is_ascii_digit(#[trigger] b[i]) || b[i] == '.'
    &&& forall|i: int, j: int| 0 <= i < j < b.len() && #[trigger] b[i] == '.' ==> #[trigger] b[j] != '.'
}

/// A decimal literal in the shape `-?[0-9]+(\.[0-9]*)?`, the shapes of the
/// declared values that a float parser accepts.
pub open spec fn is_decimal_literal(s: Seq<char>) -> bool {
    if s.len() > 0 && s[0] == '-' {
        is_unsigned_decimal(s.drop_first())
    } else {
        is_unsigned_decimal(s)
    }
}

pub fn is_decimal_literal_chars(s: &[char]) -> (r: bool)
    ensures
        r == is_decimal_literal(s@),
{
    let start: usize = if s.len() > 0 && s[0] == '-' {
        1
    } else {
        0
    };
    let ghost b = if s@.len() > 0 && s@[0] == '-' {
        s@.drop_first()
    } else {
        s@
    };
    assert(b =~= s@.subrange(start as int, s@.len() as int));
    if start >= s.len() || !('0' <= s[start] && s[start] <= '9') {
        return false;
    }
    let mut seen_dot = false;
    let mut i: usize = start;
    while i < s.len()
        invariant
            start < s@.len(),
            start <= i <= s@.len(),
            b == s@.subrange(start as int, s@.len() as int),
            b == (if s@.len() > 0 && s@[0] == '-' { s@.drop_first() } else { s@ }),
            is_ascii_digit(b[0]),
            forall|k: int| 0 <= k < i - start ==> is_ascii_digit(#[trigger] b[k]) || b[k] == '.',
            forall|k: int, j: int|
                0 <= k < j < i - start && #[trigger] b[k] == '.' ==> #[trigger] b[j] != '.',
            seen_dot <==> exists|k: int| 0 <= k < i - start && b[k] == '.',
        decreases s.len() - i,
    {
        let c = s[i];
        assert(b[i - start] == c);
        if c == '.' {
            if seen_dot {
                let ghost k = choose|k: int| 0 <= k < i - start && b[k] == '.';
                assert(b[k] == '.' && b[i - start] == '.');
                return false;
            }
            seen_dot = true;
        } else if !('0' <= c && c <= '9') {
            return false;
        }
        i += 1;
    }
    true
}

/// Whether `c` occurs in `s`.
pub fn contains_char(s: &[char], c: char) -> (r: bool)
    ensures
        r == s@.contains(c),
{
    let mut i: usize = 0;
    while i < s.len()
        invariant
            i <= s@.len(),
            forall|k: int| 0 <= k < i ==> s@[k] != c,
        decreases s.len() - i,
    {
        if s[i] == c {
            assert(s@[i as int] == c);
            return true;
        }
        i += 1;
    }
    false
}


// ---------------------------------------------------------------------
// Laws of counting and of decimal literals
// ---------------------------------------------------------------------

proof fn lemma_count_positive_from(h: Seq<char>, n: Seq<char>, k: int)
    requires
        n.len() > 0,
        0 <= k,
    ensures
        count_matches_from(h, n, k) > 0 <==> exists|j: int|
            k <= j && j + n.len() <= h.len() && #[trigger] h.subrange(j, j + n.len()) == n,
    decreases h.len() + 1 - k,
{
    if k + n.len() > h.len() {
        assert forall|j: int| k <= j && j + n.len() <= h.len() implies #[trigger] h.subrange(j, j + n.len()) != n by {}
    } else if occurs_at(h, n, k) {
        assert(h.subrange(k, k + n.len()) == n);
    } else {
        lemma_count_positive_from(h, n, k + 1);
        if exists|j: int| k <= j && j + n.len() <= h.len() && #[trigger] h.subrange(j, j + n.len()) == n {
            let j = choose|j: int| k <= j && j + n.len() <= h.len() && #[trigger] h.subrange(j, j + n.len()) == n;
            assert(j != k);
            assert(h.subrange(j, j + n.len()) == n);
        }
    }
}

/// A non-empty text is counted at least once in `h` exactly when it occurs
/// in `h`, at whatever index: an occurrence is counted wherever it stands.
pub proof fn law_count_matches_sees_every_position(h: Seq<char>, n: Seq<char>)
    requires
        n.len() > 0,
    ensures
        count_matches(h, n) > 0 <==> exists|j: int|
            0 <= j && j + n.len() <= h.len() && #[trigger] h.subrange(j, j + n.len()) == n,
{
    lemma_count_positive_from(h, n, 0);
}

proof fn lemma_count_matches_shift(p: Seq<char>, q: Seq<char>, n: Seq<char>, k: int)
    requires
        0 <= k,
    ensures
        count_matches_from(p + q, n, p.len() + k) == count_matches_from(q, n, k),
    decreases q.len() + 1 - k,
{
    let h = p + q;
    if n.len() == 0 || k + n.len() > q.len() {
    } else {
        assert(h.subrange(p.len() + k, p.len() + k + n.len()) =~= q.subrange(k, k + n.len()));
        if occurs_at(q, n, k) {
            lemma_count_matches_shift(p, q, n, k + n.len());
        } else {
            lemma_count_matches_shift(p, q, n, k + 1);
        }
    }
}

/// A text that stands at the start counts once, and counting goes on after
/// it as in the rest of the text alone.
pub proof fn law_count_matches_prefix(n: Seq<char>, q: Seq<char>)
    requires
        n.len() > 0,
    ensures
        count_matches(n + q, n) == 1 + count_matches(q, n),
{
    assert((n + q).subrange(0, n.len() as int) =~= n);
    lemma_count_matches_shift(n, q, n, 0);
}

/// Texts standing apart are counted apart: where the counting of `p` ends
/// exactly at its end (no occurrence runs over into `q`), the count of
/// `p + q` is the sum of the counts.
pub proof fn law_count_matches_concat(p: Seq<char>, q: Seq<char>, n: Seq<char>)
    requires
        n.len() > 0,
        forall|j: int| 0 <= j < p.len() && p.len() < j + n.len() <= p.len() + q.len()
            ==> #[trigger] (p + q).subrange(j, j + n.len()) != n,
    ensures
        count_matches(p + q, n) == count_matches(p, n) + count_matches(q, n),
{
    lemma_count_matches_concat_from(p, q, n, 0);
    lemma_count_matches_shift(p, q, n, 0);
}

proof fn lemma_count_matches_concat_from(p: Seq<char>, q: Seq<char>, n: Seq<char>, k: int)
    requires
        n.len() > 0,
        0 <= k,
        forall|j: int| 0 <= j < p.len() && p.len() < j + n.len() <= p.len() + q.len()
            ==> #[trigger] (p + q).subrange(j, j + n.len()) != n,
    ensures
        k <= p.len() ==> count_matches_from(p + q, n, k) == count_matches_from(p, n, k)
            + count_matches_from(p + q, n, p.len() as int),
    decreases p.len() + 1 - k,
{
    let h = p + q;
    if k < p.len() {
        if k + n.len() > p.len() {
            // No occurrence of `n` in `p` from here; none in `h` before `p`'s end either.
            lemma_count_matches_skip(p, q, n, k);
        } else {
            assert(h.subrange(k, k + n.len()) =~= p.subrange(k, k + n.len()));
            if occurs_at(p, n, k) {
                lemma_count_matches_concat_from(p, q, n, k + n.len());
            } else {
                lemma_count_matches_concat_from(p, q, n, k + 1);
            }
        }
    }
}

proof fn lemma_count_matches_skip(p: Seq<char>, q: Seq<char>, n: Seq<char>, k: int)
    requires
        n.len() > 0,
        0 <= k <= p.len(),
        k + n.len() > p.len(),
        forall|j: int| 0 <= j < p.len() && p.len() < j + n.len() <= p.len() + q.len()
            ==> #[trigger] (p + q).subrange(j, j + n.len()) != n,
    ensures
        count_matches_from(p + q, n, k) == count_matches_from(p + q, n, p.len() as int),
        count_matches_from(p, n, k) == 0,
    decreases p.len() - k,
{
    if k < p.len() {
        let h = p + q;
        if k + n.len() <= h.len() {
            assert(h.subrange(k, k + n.len()) != n);
        }
        lemma_count_matches_skip(p, q, n, k + 1);
    }
}

pub open spec fn is_digit_text(d: Seq<char>) -> bool {
    forall|i: int| 0 <= i < d.len() ==> '0' <= #[trigger] d[i] && d[i] <= '9'
}

proof fn lemma_unsigned_decimal_shape(d: Seq<char>, f: Seq<char>)
    requires
        d.len() > 0,
        is_digit_text(d),
        is_digit_text(f),
    ensures
        is_unsigned_decimal(d),
        is_unsigned_decimal(d + "."@ + f),
{
    reveal_strlit(".");
    let b = d + "."@ + f;
    assert forall|i: int| 0 <= i < b.len() implies is_ascii_digit(#[trigger] b[i]) || b[i] == '.' by {
        if i < d.len() {
            assert(b[i] == d[i]);
        } else if i > d.len() {
            assert(b[i] == f[i - d.len() - 1]);
        }
    }
    assert forall|i: int, j: int| 0 <= i < j < b.len() && #[trigger] b[i] == '.' implies #[trigger] b[j] != '.' by {
        if i < d.len() {
            assert(b[i] == d[i]);
        }
        assert(b[j] == f[j - d.len() - 1]);
    }
    assert(b[0] == d[0]);
    assert forall|i: int| 0 <= i < d.len() implies is_ascii_digit(#[trigger] d[i]) || d[i] == '.' by {}
}

/// Every literal of the shape `[0-9]+(\.[0-9]*)?`, with or without a leading
/// minus sign, is a decimal literal, whatever the number of digits on either
/// side of the point.
pub proof fn law_decimal_literal_shapes(d: Seq<char>, f: Seq<char>)
    requires
        d.len() > 0,
        is_digit_text(d),
        is_digit_text(f),
    ensures
        is_decimal_literal(d),
        is_decimal_literal(d + "."@ + f),
        is_decimal_literal("-"@ + d),
        is_decimal_literal("-"@ + d + "."@ + f),
{
    reveal_strlit("-");
    reveal_strlit(".");
    lemma_unsigned_decimal_shape(d, f);
    assert(d[0] != '-');
    assert((d + "."@ + f)[0] == d[0]);
    assert(("-"@ + d).drop_first() =~= d);
    assert(("-"@ + d + "."@ + f).drop_first() =~= d + "."@ + f);
}

/// A decimal literal is made of digits and at most one point, with a minus
/// sign at most in front and a digit right after it.
pub proof fn law_decimal_literal_characters(s: Seq<char>)
    requires
        is_decimal_literal(s),
    ensures
        s.len() > 0,
        forall|i: int| 0 <= i < s.len() ==> ('0' <= #[trigger] s[i] && s[i] <= '9') || s[i] == '.' || (i == 0 && s[i] == '-'),
        forall|i: int, j: int| 0 <= i < j < s.len() && #[trigger] s[i] == '.' ==> #[trigger] s[j] != '.',
{
    if s.len() > 0 && s[0] == '-' {
        let b = s.drop_first();
        assert forall|i: int| 0 <= i < s.len() implies ('0' <= #[trigger] s[i] && s[i] <= '9') || s[i] == '.' || (i == 0
            && s[i] == '-') by {
            if i > 0 {
                assert(s[i] == b[i - 1]);
            }
        }
        assert forall|i: int, j: int| 0 <= i < j < s.len() && #[trigger] s[i] == '.' implies #[trigger] s[j] != '.' by {
            assert(i > 0);
            assert(s[i] == b[i - 1] && s[j] == b[j - 1]);
        }
    } else {
        assert forall|i: int| 0 <= i < s.len() implies ('0' <= #[trigger] s[i] && s[i] <= '9') || s[i] == '.' || (i == 0
            && s[i] == '-') by {
            assert(is_ascii_digit(s[i]) || s[i] == '.');
        }
    }
}

} // verus!
