//! Text as sequences of characters.
//!
//! Every rule of this library that reads text is stated over `Seq<char>`, the view of
//! `str` and `String`. This module holds the vocabulary those rules are written in
//! (trimming, searching, splitting, joining, ordering) and the executable functions that
//! compute it on character slices.

use vstd::prelude::*;
use vstd::slice::slice_subrange;

verus! {

/// `String::push` puts the given character behind the characters of the string.
pub assume_specification[ String::push ](s: &mut String, c: char)
    ensures
        final(s)@ == old(s)@.push(c),
;

// ---------------------------------------------------------------------------------------
// Character classes
// ---------------------------------------------------------------------------------------

/// The characters with the Unicode property White_Space.
pub open spec fn white_space(c: char) -> bool {
    let u = c as u32;
    ||| 0x9 <= u <= 0xd
    ||| u == 0x20
    ||| u == 0x85
    ||| u == 0xa0
    ||| u == 0x1680
    ||| 0x2000 <= u <= 0x200a
    ||| u == 0x2028
    ||| u == 0x2029
    ||| u == 0x202f
    ||| u == 0x205f
    ||| u == 0x3000
}

/// The ASCII punctuation characters.
pub open spec fn ascii_punctuation(c: char) -> bool {
    let u = c as u32;
    ||| 0x21 <= u <= 0x2f
    ||| 0x3a <= u <= 0x40
    ||| 0x5b <= u <= 0x60
    ||| 0x7b <= u <= 0x7e
}

/// The ASCII letters.
pub open spec fn ascii_letter(c: char) -> bool {
    let u = c as u32;
    ||| 0x41 <= u <= 0x5a
    ||| 0x61 <= u <= 0x7a
}

/// The ASCII letters and digits.
pub open spec fn ascii_letter_or_digit(c: char) -> bool {
    let u = c as u32;
    ||| ascii_letter(c)
    ||| 0x30 <= u <= 0x39
}

/// The small letter of an ASCII capital letter, and any other character itself.
pub open spec fn ascii_lowercase(c: char) -> char {
    if 0x41 <= c as u32 <= 0x5a {
        (c as u32 + 32) as char
    } else {
        c
    }
}

/// The wide punctuation that separates words of a search query beside ASCII punctuation.
pub open spec fn wide_punctuation(c: char) -> bool {
    let u = c as u32;
    ||| u == 0xff0c
    ||| u == 0x3002
    ||| u == 0xff01
    ||| u == 0xff1f
    ||| u == 0x3001
    ||| u == 0xff1b
    ||| u == 0xff1a
    ||| u == 0x201c
    ||| u == 0x201d
    ||| u == 0x2018
    ||| u == 0x2019
    ||| u == 0xff08
    ||| u == 0xff09
    ||| u == 0xb7
    ||| u == 0xff5e
    ||| u == 0x2026
}

/// The characters that separate the words of a search query.
pub open spec fn query_separator(c: char) -> bool {
    white_space(c) || ascii_punctuation(c) || wide_punctuation(c)
}

/// A set of characters that text is trimmed of or split at.
#[derive(Clone, Copy)]
pub enum CharSet {
    /// The characters with the Unicode property White_Space.
    WhiteSpace,
    /// The characters that separate the words of a search query.
    QuerySeparator,
    /// One character.
    Only(char),
}

impl CharSet {
    /// Whether the set holds `c`.
    pub open spec fn holds(self, c: char) -> bool {
        match self {
            CharSet::WhiteSpace => white_space(c),
            CharSet::QuerySeparator => query_separator(c),
            CharSet::Only(one) => c == one,
        }
    }

    /// Whether the set holds `c`.
    pub fn has(self, c: char) -> (r: bool)
        ensures
            r == self.holds(c),
    {
        match self {
            CharSet::WhiteSpace => is_whitespace(c),
            CharSet::QuerySeparator => is_query_separator(c),
            CharSet::Only(one) => c == one,
        }
    }
}

/// Whether `c` has the Unicode property White_Space.
pub fn is_whitespace(c: char) -> (r: bool)
    ensures
        r == white_space(c),
{
    let u: u32 = c as u32;
    (0x9 <= u && u <= 0xd) || u == 0x20 || u == 0x85 || u == 0xa0 || u == 0x1680
        || (0x2000 <= u && u <= 0x200a) || u == 0x2028 || u == 0x2029 || u == 0x202f
        || u == 0x205f || u == 0x3000
}

/// Whether `c` is ASCII punctuation.
pub fn is_ascii_punctuation(c: char) -> (r: bool)
    ensures
        r == ascii_punctuation(c),
{
    let u: u32 = c as u32;
    (0x21 <= u && u <= 0x2f) || (0x3a <= u && u <= 0x40) || (0x5b <= u && u <= 0x60) || (0x7b
        <= u && u <= 0x7e)
}

/// Whether `c` is an ASCII letter.
pub fn is_ascii_letter(c: char) -> (r: bool)
    ensures
        r == ascii_letter(c),
{
    let u: u32 = c as u32;
    (0x41 <= u && u <= 0x5a) || (0x61 <= u && u <= 0x7a)
}

/// Whether `c` is an ASCII letter or digit.
pub fn is_ascii_letter_or_digit(c: char) -> (r: bool)
    ensures
        r == ascii_letter_or_digit(c),
{
    let u: u32 = c as u32;
    is_ascii_letter(c) || (0x30 <= u && u <= 0x39)
}

/// Whether `c` separates the words of a search query.
pub fn is_query_separator(c: char) -> (r: bool)
    ensures
        r == query_separator(c),
{
    let u: u32 = c as u32;
    is_whitespace(c) || is_ascii_punctuation(c) || u == 0xff0c || u == 0x3002 || u == 0xff01 || u
        == 0xff1f || u == 0x3001 || u == 0xff1b || u == 0xff1a || u == 0x201c || u == 0x201d || u
        == 0x2018 || u == 0x2019 || u == 0xff08 || u == 0xff09 || u == 0xb7 || u == 0xff5e || u
        == 0x2026
}

// ---------------------------------------------------------------------------------------
// Strings and characters
// ---------------------------------------------------------------------------------------

/// The characters of `s`.
pub fn to_chars(s: &str) -> (r: Vec<char>)
    ensures
        r@ == s@,
{
    let mut out: Vec<char> = Vec::new();
    for c in it: s.chars()
        invariant
            it.seq() == s@,
            out@ == s@.take(it.index()),
    {
        out.push(c);
        assert(s@.take(it.index() + 1) =~= s@.take(it.index()).push(c));
    }
    assert(s@.take(s@.len() as int) =~= s@);
    out
}

/// The string of the characters `s`.
pub fn to_text(s: &[char]) -> (r: String)
    ensures
        r@ == s@,
{
    let mut out = String::new();
    let mut i: usize = 0;
    while i < s.len()
        invariant
            i <= s@.len(),
            out@ == s@.take(i as int),
        decreases s@.len() - i,
    {
        out.push(s[i]);
        assert(s@.take(i + 1) =~= s@.take(i as int).push(s@[i as int]));
        i += 1;
    }
    assert(s@.take(s@.len() as int) =~= s@);
    out
}

/// Whether two character slices hold the same text.
pub fn same(a: &[char], b: &[char]) -> (r: bool)
    ensures
        r == (a@ == b@),
{
    if a.len() != b.len() {
        return false;
    }
    let mut i: usize = 0;
    while i < a.len()
        invariant
            i <= a@.len(),
            a@.len() == b@.len(),
            forall|k: int| 0 <= k < i ==> a@[k] == b@[k],
        decreases a@.len() - i,
    {
        if a[i] != b[i] {
            return false;
        }
        i += 1;
    }
    assert(a@ =~= b@);
    true
}

/// Whether the slice holds the text `b`.
pub fn is_text(a: &[char], b: &str) -> (r: bool)
    ensures
        r == (a@ == b@),
{
    same(a, to_chars(b).as_slice())
}

/// Whether two strings hold the same text.
pub fn same_text(a: &str, b: &str) -> (r: bool)
    ensures
        r == (a@ == b@),
{
    same(to_chars(a).as_slice(), to_chars(b).as_slice())
}

// ---------------------------------------------------------------------------------------
// Trimming
// ---------------------------------------------------------------------------------------

/// `s` without the characters of `set` at its start.
pub open spec fn trimmed_start(s: Seq<char>, set: CharSet) -> Seq<char>
    decreases s.len(),
{
    if s.len() > 0 && set.holds(s[0]) {
        trimmed_start(s.subrange(1, s.len() as int), set)
    } else {
        s
    }
}

/// `s` without the characters of `set` at its end.
pub open spec fn trimmed_end(s: Seq<char>, set: CharSet) -> Seq<char>
    decreases s.len(),
{
    if s.len() > 0 && set.holds(s.last()) {
        trimmed_end(s.drop_last(), set)
    } else {
        s
    }
}

/// `s` without the characters of `set` at either end.
pub open spec fn trimmed_of(s: Seq<char>, set: CharSet) -> Seq<char> {
    trimmed_end(trimmed_start(s, set), set)
}

/// `s` without white space at either end.
pub open spec fn trimmed(s: Seq<char>) -> Seq<char> {
    trimmed_of(s, CharSet::WhiteSpace)
}

/// `s` without any number of `suffix` at its end.
pub open spec fn without_suffixes(s: Seq<char>, suffix: Seq<char>) -> Seq<char>
    decreases s.len(),
{
    if suffix.len() > 0 && ends_with(s, suffix) {
        without_suffixes(s.subrange(0, s.len() - suffix.len()), suffix)
    } else {
        s
    }
}

/// `s` without any number of `prefix` at its start.
pub open spec fn without_prefixes(s: Seq<char>, prefix: Seq<char>) -> Seq<char>
    decreases s.len(),
{
    if prefix.len() > 0 && starts_with(s, prefix) {
        without_prefixes(s.subrange(prefix.len() as int, s.len() as int), prefix)
    } else {
        s
    }
}

/// Whether `s` starts with `prefix`.
pub open spec fn starts_with(s: Seq<char>, prefix: Seq<char>) -> bool {
    prefix.len() <= s.len() && s.subrange(0, prefix.len() as int) == prefix
}

/// Whether `s` ends with `suffix`.
pub open spec fn ends_with(s: Seq<char>, suffix: Seq<char>) -> bool {
    suffix.len() <= s.len() && s.subrange(s.len() - suffix.len(), s.len() as int) == suffix
}

/// What follows `prefix` in `s`, where `s` starts with it.
pub open spec fn after_prefix(s: Seq<char>, prefix: Seq<char>) -> Option<Seq<char>> {
    if starts_with(s, prefix) {
        Some(s.subrange(prefix.len() as int, s.len() as int))
    } else {
        None
    }
}

/// What precedes `suffix` in `s`, where `s` ends with it.
pub open spec fn before_suffix(s: Seq<char>, suffix: Seq<char>) -> Option<Seq<char>> {
    if ends_with(s, suffix) {
        Some(s.subrange(0, s.len() - suffix.len()))
    } else {
        None
    }
}

/// The part of a text that an optional slice stands for.
pub open spec fn part(o: Option<&[char]>) -> Option<Seq<char>> {
    match o {
        Some(p) => Some(p@),
        None => None,
    }
}

/// Removes the characters of `set` at the start of `s`.
pub fn trim_start(s: &[char], set: CharSet) -> (r: &[char])
    ensures
        r@ == trimmed_start(s@, set),
{
    let mut i: usize = 0;
    assert(s@.subrange(0, s@.len() as int) =~= s@);
    while i < s.len() && set.has(s[i])
        invariant
            i <= s@.len(),
            trimmed_start(s@.subrange(i as int, s@.len() as int), set) == trimmed_start(s@, set),
        decreases s@.len() - i,
    {
        assert(s@.subrange(i as int, s@.len() as int).subrange(1, s@.len() - i) =~= s@.subrange(
            i + 1,
            s@.len() as int,
        ));
        i += 1;
    }
    slice_subrange(s, i, s.len())
}

/// Removes the characters of `set` at the end of `s`.
pub fn trim_end(s: &[char], set: CharSet) -> (r: &[char])
    ensures
        r@ == trimmed_end(s@, set),
{
    let mut i: usize = s.len();
    assert(s@.subrange(0, s@.len() as int) =~= s@);
    while i > 0 && set.has(s[i - 1])
        invariant
            i <= s@.len(),
            trimmed_end(s@.subrange(0, i as int), set) == trimmed_end(s@, set),
        decreases i,
    {
        assert(s@.subrange(0, i as int).drop_last() =~= s@.subrange(0, i - 1));
        i -= 1;
    }
    slice_subrange(s, 0, i)
}

/// Removes the characters of `set` at both ends of `s`.
pub fn trim_of(s: &[char], set: CharSet) -> (r: &[char])
    ensures
        r@ == trimmed_of(s@, set),
{
    trim_end(trim_start(s, set), set)
}

/// Removes white space at both ends of `s`.
pub fn trim(s: &[char]) -> (r: &[char])
    ensures
        r@ == trimmed(s@),
{
    trim_of(s, CharSet::WhiteSpace)
}

/// Whether `s` starts with `prefix`.
pub fn has_prefix(s: &[char], prefix: &[char]) -> (r: bool)
    ensures
        r == starts_with(s@, prefix@),
{
    prefix.len() <= s.len() && same(slice_subrange(s, 0, prefix.len()), prefix)
}

/// Whether `s` ends with `suffix`.
pub fn has_suffix(s: &[char], suffix: &[char]) -> (r: bool)
    ensures
        r == ends_with(s@, suffix@),
{
    suffix.len() <= s.len() && same(slice_subrange(s, s.len() - suffix.len(), s.len()), suffix)
}

/// What follows `prefix` in `s`, where `s` starts with it.
pub fn strip_prefix<'a>(s: &'a [char], prefix: &[char]) -> (r: Option<&'a [char]>)
    ensures
        part(r) == after_prefix(s@, prefix@),
{
    if has_prefix(s, prefix) {
        Some(slice_subrange(s, prefix.len(), s.len()))
    } else {
        None
    }
}

/// What precedes `suffix` in `s`, where `s` ends with it.
pub fn strip_suffix<'a>(s: &'a [char], suffix: &[char]) -> (r: Option<&'a [char]>)
    ensures
        part(r) == before_suffix(s@, suffix@),
{
    if has_suffix(s, suffix) {
        Some(slice_subrange(s, 0, s.len() - suffix.len()))
    } else {
        None
    }
}

/// Removes any number of `suffix` from the end of `s`.
pub fn trim_suffixes<'a>(s: &'a [char], suffix: &[char]) -> (r: &'a [char])
    ensures
        r@ == without_suffixes(s@, suffix@),
{
    if suffix.len() == 0 {
        return s;
    }
    let mut rest: &[char] = s;
    while has_suffix(rest, suffix)
        invariant
            suffix@.len() > 0,
            without_suffixes(rest@, suffix@) == without_suffixes(s@, suffix@),
        decreases rest@.len(),
    {
        rest = slice_subrange(rest, 0, rest.len() - suffix.len());
    }
    rest
}

/// Removes any number of `prefix` from the start of `s`.
pub fn trim_prefixes<'a>(s: &'a [char], prefix: &[char]) -> (r: &'a [char])
    ensures
        r@ == without_prefixes(s@, prefix@),
{
    if prefix.len() == 0 {
        return s;
    }
    let mut rest: &[char] = s;
    while has_prefix(rest, prefix)
        invariant
            prefix@.len() > 0,
            without_prefixes(rest@, prefix@) == without_prefixes(s@, prefix@),
        decreases rest@.len(),
    {
        rest = slice_subrange(rest, prefix.len(), rest.len());
    }
    rest
}

// ---------------------------------------------------------------------------------------
// Searching
// ---------------------------------------------------------------------------------------

/// Whether `pattern` stands in `s` at position `i`.
pub open spec fn occurs_at(s: Seq<char>, pattern: Seq<char>, i: int) -> bool {
    &&& 0 <= i
    &&& i + pattern.len() <= s.len()
    &&& s.subrange(i, i + pattern.len()) == pattern
}

/// The first position from `i` on at which `pattern` stands in `s`.
pub open spec fn position_from(s: Seq<char>, pattern: Seq<char>, i: int) -> Option<int>
    decreases s.len() + 1 - i,
{
    if i < 0 || i + pattern.len() > s.len() {
        None
    } else if occurs_at(s, pattern, i) {
        Some(i)
    } else {
        position_from(s, pattern, i + 1)
    }
}

/// The first position at which `pattern` stands in `s`.
pub open spec fn position(s: Seq<char>, pattern: Seq<char>) -> Option<int> {
    position_from(s, pattern, 0)
}

/// Whether `pattern` stands anywhere in `s`.
pub open spec fn contains_text(s: Seq<char>, pattern: Seq<char>) -> bool {
    exists|i: int| occurs_at(s, pattern, i)
}

/// How often `pattern` stands in `s`, counted from the left without overlaps. The empty
/// text is counted nowhere.
pub open spec fn occurrences(s: Seq<char>, pattern: Seq<char>) -> nat
    decreases s.len(),
{
    match position(s, pattern) {
        Some(i) => if pattern.len() == 0 {
            0
        } else {
            proof {
                lemma_position_from(s, pattern, 0);
            }
            1 + occurrences(s.subrange(i + pattern.len(), s.len() as int), pattern)
        },
        None => 0,
    }
}

/// `s` with every occurrence of `pattern`, counted from the left without overlaps, replaced.
pub open spec fn replaced(s: Seq<char>, pattern: Seq<char>, by: Seq<char>) -> Seq<char>
    decreases s.len(),
{
    match position(s, pattern) {
        Some(i) => if pattern.len() == 0 {
            s
        } else {
            proof {
                lemma_position_from(s, pattern, 0);
            }
            s.subrange(0, i) + by + replaced(
                s.subrange(i + pattern.len(), s.len() as int),
                pattern,
                by,
            )
        },
        None => s,
    }
}

/// `s` with every character `from` replaced by `to`.
pub open spec fn with_char(s: Seq<char>, from: char, to: char) -> Seq<char> {
    s.map_values(
        |c: char|
            if c == from {
                to
            } else {
                c
            },
    )
}

/// A search finds the first occurrence, and none only where there is none.
pub proof fn lemma_position_from(s: Seq<char>, pattern: Seq<char>, from: int)
    ensures
        position_from(s, pattern, from) matches Some(i) ==> from <= i && occurs_at(s, pattern, i)
            && (forall|k: int| from <= k < i ==> !#[trigger] occurs_at(s, pattern, k)),
        from >= 0 && position_from(s, pattern, from) is None ==> (forall|k: int|
            from <= k ==> !#[trigger] occurs_at(s, pattern, k)),
    decreases s.len() + 1 - from,
{
    if 0 <= from && from + pattern.len() <= s.len() && !occurs_at(s, pattern, from) {
        lemma_position_from(s, pattern, from + 1);
    }
}

/// A text is found in another exactly where it stands in it somewhere.
pub proof fn lemma_found_is_contained(s: Seq<char>, pattern: Seq<char>)
    ensures
        position(s, pattern) is Some <==> contains_text(s, pattern),
{
    lemma_position_from(s, pattern, 0);
}

/// The first position of `pattern` in `s`.
pub fn find(s: &[char], pattern: &[char]) -> (r: Option<usize>)
    ensures
        match r {
            Some(i) => position(s@, pattern@) == Some(i as int) && i + pattern@.len() <= s@.len(),
            None => position(s@, pattern@) is None,
        },
{
    if pattern.len() > s.len() {
        return None;
    }
    let mut i: usize = 0;
    let last: usize = s.len() - pattern.len();
    while i < last
        invariant
            last + pattern@.len() == s@.len(),
            s@.len() <= usize::MAX,
            i <= last,
            position_from(s@, pattern@, i as int) == position(s@, pattern@),
        decreases last - i,
    {
        if same(slice_subrange(s, i, i + pattern.len()), pattern) {
            return Some(i);
        }
        i += 1;
    }
    proof {
        reveal_with_fuel(position_from, 2);
    }
    if same(slice_subrange(s, last, s.len()), pattern) {
        Some(last)
    } else {
        None
    }
}

/// Whether `pattern` stands anywhere in `s`.
pub fn has_text(s: &[char], pattern: &[char]) -> (r: bool)
    ensures
        r == contains_text(s@, pattern@),
{
    proof {
        lemma_found_is_contained(s@, pattern@);
    }
    find(s, pattern).is_some()
}

/// Whether `s` holds the character `c`.
pub fn has_char(s: &[char], c: char) -> (r: bool)
    ensures
        r == s@.contains(c),
{
    let mut i: usize = 0;
    while i < s.len()
        invariant
            i <= s@.len(),
            forall|k: int| 0 <= k < i ==> s@[k] != c,
        decreases s@.len() - i,
    {
        if s[i] == c {
            return true;
        }
        i += 1;
    }
    false
}

/// Whether `s` holds a character of `set`.
pub fn has_any(s: &[char], set: CharSet) -> (r: bool)
    ensures
        r == exists|k: int| 0 <= k < s@.len() && set.holds(#[trigger] s@[k]),
{
    let mut i: usize = 0;
    while i < s.len()
        invariant
            i <= s@.len(),
            forall|k: int| 0 <= k < i ==> !set.holds(#[trigger] s@[k]),
        decreases s@.len() - i,
    {
        if set.has(s[i]) {
            return true;
        }
        i += 1;
    }
    false
}

/// How often `pattern` stands in `s`, counted from the left without overlaps.
pub fn count_occurrences(s: &[char], pattern: &[char]) -> (r: usize)
    ensures
        r == occurrences(s@, pattern@),
        r <= s@.len(),
{
    if pattern.len() == 0 {
        return 0;
    }
    let mut rest: &[char] = s;
    let mut count: usize = 0;
    let total: usize = s.len();
    loop
        invariant
            pattern@.len() > 0,
            s@.len() == total,
            count + occurrences(rest@, pattern@) == occurrences(s@, pattern@),
            count + rest@.len() <= s@.len(),
        decreases rest@.len(),
    {
        match find(rest, pattern) {
            Some(i) => {
                let end: usize = rest.len();
                count += 1;
                rest = slice_subrange(rest, i + pattern.len(), end);
            },
            None => {
                return count;
            },
        }
    }
}

/// Appends `b` to `a`.
pub fn append(a: &mut Vec<char>, b: &[char])
    ensures
        final(a)@ == old(a)@ + b@,
{
    let ghost start = a@;
    let mut i: usize = 0;
    assert(start + b@.take(0) =~= start);
    while i < b.len()
        invariant
            i <= b@.len(),
            a@ == start + b@.take(i as int),
        decreases b@.len() - i,
    {
        a.push(b[i]);
        assert((start + b@.take(i as int)).push(b@[i as int]) =~= start + b@.take(i + 1));
        i += 1;
    }
    assert(b@.take(b@.len() as int) =~= b@);
}

/// Replaces every occurrence of `pattern` in `s`, from the left without overlaps.
pub fn replace(s: &[char], pattern: &[char], by: &[char]) -> (r: Vec<char>)
    ensures
        r@ == replaced(s@, pattern@, by@),
{
    let mut out: Vec<char> = Vec::new();
    if pattern.len() == 0 {
        append(&mut out, s);
        return out;
    }
    let mut rest: &[char] = s;
    assert(Seq::<char>::empty() + replaced(s@, pattern@, by@) =~= replaced(s@, pattern@, by@));
    loop
        invariant
            pattern@.len() > 0,
            out@ + replaced(rest@, pattern@, by@) == replaced(s@, pattern@, by@),
        decreases rest@.len(),
    {
        match find(rest, pattern) {
            Some(i) => {
                let ghost before = out@;
                let ghost tail = replaced(
                    rest@.subrange(i + pattern@.len(), rest@.len() as int),
                    pattern@,
                    by@,
                );
                append(&mut out, slice_subrange(rest, 0, i));
                append(&mut out, by);
                assert(before + (rest@.subrange(0, i as int) + by@ + tail) =~= out@ + tail);
                let end: usize = rest.len();
                rest = slice_subrange(rest, i + pattern.len(), end);
            },
            None => {
                append(&mut out, rest);
                return out;
            },
        }
    }
}

/// Replaces every character `from` in `s` by `to`.
pub fn replace_char(s: &[char], from: char, to: char) -> (r: Vec<char>)
    ensures
        r@ == with_char(s@, from, to),
{
    let mut out: Vec<char> = Vec::new();
    let mut i: usize = 0;
    while i < s.len()
        invariant
            i <= s@.len(),
            out@ =~= with_char(s@, from, to).take(i as int),
        decreases s@.len() - i,
    {
        out.push(
            if s[i] == from {
                to
            } else {
                s[i]
            },
        );
        i += 1;
    }
    assert(out@ =~= with_char(s@, from, to));
    out
}

// ---------------------------------------------------------------------------------------
// Splitting and joining
// ---------------------------------------------------------------------------------------

/// The texts that a list of character vectors stands for.
pub open spec fn texts(v: Seq<Vec<char>>) -> Seq<Seq<char>> {
    v.map_values(|x: Vec<char>| x@)
}

/// The texts that a list of strings stands for.
pub open spec fn strings(v: Seq<String>) -> Seq<Seq<char>> {
    v.map_values(|x: String| x@)
}

/// The text that an optional string stands for.
pub open spec fn optional(s: Option<String>) -> Option<Seq<char>> {
    match s {
        Some(x) => Some(x@),
        None => None,
    }
}

/// The text that an optional string slice stands for.
pub open spec fn optional_str(s: Option<&str>) -> Option<Seq<char>> {
    match s {
        Some(x) => Some(x@),
        None => None,
    }
}

/// The pieces of `s` between the characters of `set`, empty ones kept.
pub open spec fn pieces(s: Seq<char>, set: CharSet) -> Seq<Seq<char>>
    decreases s.len(),
{
    if s.len() == 0 {
        seq![Seq::<char>::empty()]
    } else {
        let before = pieces(s.drop_last(), set);
        if set.holds(s.last()) {
            before.push(Seq::<char>::empty())
        } else {
            before.drop_last().push(before.last().push(s.last()))
        }
    }
}

/// Whether a text is not empty.
pub open spec fn not_empty(s: Seq<char>) -> bool {
    s.len() > 0
}

/// The words of `s`: its pieces between white space that are not empty.
pub open spec fn words(s: Seq<char>) -> Seq<Seq<char>> {
    pieces(s, CharSet::WhiteSpace).filter(|w: Seq<char>| not_empty(w))
}

/// A line without the carriage return at its end.
pub open spec fn without_return(line: Seq<char>) -> Seq<char> {
    if line.len() > 0 && line.last() == '\r' {
        line.drop_last()
    } else {
        line
    }
}

/// The lines of `s`. A line ends with a line feed or with a carriage return and a line feed,
/// which are not part of it. The text behind the last line feed is a line only where it is not
/// empty.
pub open spec fn line_list(s: Seq<char>) -> Seq<Seq<char>> {
    let all = pieces(s, CharSet::Only('\n'));
    let ended = all.drop_last().map_values(|line: Seq<char>| without_return(line));
    if all.last().len() == 0 {
        ended
    } else {
        ended.push(all.last())
    }
}

/// The texts of `parts` with `between` put between neighbours.
pub open spec fn joined(parts: Seq<Seq<char>>, between: Seq<char>) -> Seq<char>
    decreases parts.len(),
{
    if parts.len() == 0 {
        Seq::empty()
    } else if parts.len() == 1 {
        parts[0]
    } else {
        joined(parts.drop_last(), between) + between + parts.last()
    }
}

/// A text has at least one piece.
pub proof fn lemma_pieces_not_empty(s: Seq<char>, set: CharSet)
    ensures
        pieces(s, set).len() > 0,
    decreases s.len(),
{
    if s.len() > 0 {
        lemma_pieces_not_empty(s.drop_last(), set);
    }
}

/// No piece of a text holds a character that the text was split at, and every character of a
/// piece is a character of the text.
pub proof fn lemma_pieces_hold_no_separator(s: Seq<char>, set: CharSet)
    ensures
        forall|i: int, k: int|
            0 <= i < pieces(s, set).len() && 0 <= k < pieces(s, set)[i].len() ==> {
                &&& !set.holds(#[trigger] pieces(s, set)[i][k])
                &&& s.contains(pieces(s, set)[i][k])
            },
    decreases s.len(),
{
    if s.len() > 0 {
        let before = pieces(s.drop_last(), set);
        let all = pieces(s, set);
        lemma_pieces_hold_no_separator(s.drop_last(), set);
        lemma_pieces_not_empty(s.drop_last(), set);
        assert forall|i: int, k: int| 0 <= i < all.len() && 0 <= k < all[i].len() implies {
            &&& !set.holds(#[trigger] all[i][k])
            &&& s.contains(all[i][k])
        } by {
            if i < before.len() && k < before[i].len() {
                assert(all[i][k] == before[i][k]);
                let at = choose|at: int|
                    0 <= at < s.drop_last().len() && s.drop_last()[at] == before[i][k];
                assert(s[at] == before[i][k]);
            } else {
                assert(all[i][k] == s[s.len() - 1]);
            }
        }
    }
}

/// The pieces of a text, put together with the character it was split at, are the text.
pub proof fn lemma_pieces_join(s: Seq<char>, c: char)
    ensures
        joined(pieces(s, CharSet::Only(c)), seq![c]) == s,
    decreases s.len(),
{
    let set = CharSet::Only(c);
    let all = pieces(s, set);
    if s.len() == 0 {
        assert(all[0] =~= s);
    } else {
        let before = pieces(s.drop_last(), set);
        lemma_pieces_join(s.drop_last(), c);
        lemma_pieces_not_empty(s.drop_last(), set);
        if s.last() == c {
            assert(all.drop_last() =~= before);
            assert(joined(all, seq![c]) =~= s.drop_last().push(c));
        } else {
            assert(all.drop_last() =~= before.drop_last());
            if before.len() == 1 {
                assert(joined(all, seq![c]) =~= joined(before, seq![c]).push(s.last()));
            } else {
                assert(joined(all, seq![c]) =~= joined(before, seq![c]).push(s.last()));
            }
        }
        assert(s.drop_last().push(s.last()) =~= s);
    }
}

/// The pieces of two texts with the character between them that they are split at are the pieces
/// of the one and then those of the other.
pub proof fn lemma_pieces_concat(a: Seq<char>, b: Seq<char>, c: char)
    ensures
        pieces(a + seq![c] + b, CharSet::Only(c)) == pieces(a, CharSet::Only(c)) + pieces(
            b,
            CharSet::Only(c),
        ),
    decreases b.len(),
{
    let set = CharSet::Only(c);
    let whole = a + seq![c] + b;
    if b.len() == 0 {
        assert(whole.drop_last() =~= a);
        assert(whole.last() == c);
        assert(pieces(whole, set) =~= pieces(a, set) + pieces(b, set));
    } else {
        let rest = b.drop_last();
        lemma_pieces_concat(a, rest, c);
        lemma_pieces_not_empty(rest, set);
        assert(whole.drop_last() =~= a + seq![c] + rest);
        assert(whole.last() == b.last());
        assert(pieces(whole, set) =~= pieces(a, set) + pieces(b, set));
    }
}

/// A text without the character that it is split at is its only piece.
pub proof fn lemma_pieces_single(s: Seq<char>, c: char)
    requires
        !s.contains(c),
    ensures
        pieces(s, CharSet::Only(c)) == seq![s],
    decreases s.len(),
{
    if s.len() > 0 {
        assert(s[s.len() - 1] == s.last());
        assert forall|k: int| 0 <= k < s.drop_last().len() implies s.drop_last()[k] != c by {
            assert(s[k] != c);
        }
        lemma_pieces_single(s.drop_last(), c);
        assert(s.drop_last().push(s.last()) =~= s);
        assert(pieces(s, CharSet::Only(c)) =~= seq![s]);
    } else {
        assert(s =~= Seq::<char>::empty());
        assert(pieces(s, CharSet::Only(c)) =~= seq![s]);
    }
}

/// Texts without the character between them are the pieces of the text that they make.
pub proof fn lemma_joined_pieces(parts: Seq<Seq<char>>, c: char)
    requires
        parts.len() > 0,
        forall|i: int| 0 <= i < parts.len() ==> !(#[trigger] parts[i]).contains(c),
    ensures
        pieces(joined(parts, seq![c]), CharSet::Only(c)) == parts,
    decreases parts.len(),
{
    if parts.len() == 1 {
        lemma_pieces_single(parts[0], c);
        assert(parts =~= seq![parts[0]]);
    } else {
        let rest = parts.drop_last();
        assert forall|i: int| 0 <= i < rest.len() implies !(#[trigger] rest[i]).contains(c) by {
            assert(rest[i] == parts[i]);
        }
        lemma_joined_pieces(rest, c);
        lemma_pieces_concat(joined(rest, seq![c]), parts.last(), c);
        lemma_pieces_single(parts.last(), c);
        assert(rest + seq![parts.last()] =~= parts);
    }
}

/// A copy of the characters `s`.
pub fn copy(s: &[char]) -> (r: Vec<char>)
    ensures
        r@ == s@,
{
    let mut out: Vec<char> = Vec::new();
    append(&mut out, s);
    assert(Seq::<char>::empty() + s@ =~= s@);
    out
}

/// The pieces of `s` between the characters of `set`, empty ones kept.
pub fn split(s: &[char], set: CharSet) -> (r: Vec<Vec<char>>)
    ensures
        texts(r@) == pieces(s@, set),
        r@.len() > 0,
{
    let mut out: Vec<Vec<char>> = Vec::new();
    let mut current: Vec<char> = Vec::new();
    let mut i: usize = 0;
    assert(texts(out@).push(current@) =~= pieces(s@.take(0), set));
    while i < s.len()
        invariant
            i <= s@.len(),
            texts(out@).push(current@) == pieces(s@.take(i as int), set),
        decreases s@.len() - i,
    {
        let ghost before = texts(out@).push(current@);
        assert(s@.take(i + 1).drop_last() =~= s@.take(i as int));
        if set.has(s[i]) {
            out.push(current);
            current = Vec::new();
            assert(texts(out@) =~= before);
        } else {
            current.push(s[i]);
            assert(before.drop_last() =~= texts(out@));
        }
        i += 1;
    }
    assert(s@.take(s@.len() as int) =~= s@);
    out.push(current);
    assert(texts(out@) =~= pieces(s@, set));
    out
}

/// The parts that are not empty.
pub fn keep_not_empty(parts: Vec<Vec<char>>) -> (r: Vec<Vec<char>>)
    ensures
        texts(r@) == texts(parts@).filter(|w: Seq<char>| not_empty(w)),
{
    let mut out: Vec<Vec<char>> = Vec::new();
    let mut i: usize = 0;
    let ghost keep = |w: Seq<char>| not_empty(w);
    proof {
        reveal(Seq::filter);
        assert(texts(out@) =~= texts(parts@).take(0).filter(keep));
    }
    while i < parts.len()
        invariant
            i <= parts@.len(),
            keep == |w: Seq<char>| not_empty(w),
            texts(out@) == texts(parts@).take(i as int).filter(keep),
        decreases parts@.len() - i,
    {
        let ghost before = texts(out@);
        proof {
            reveal(Seq::filter);
            assert(texts(parts@).take(i + 1).drop_last() =~= texts(parts@).take(i as int));
        }
        if parts[i].len() > 0 {
            out.push(copy(parts[i].as_slice()));
            assert(texts(out@) =~= before.push(parts@[i as int]@));
        }
        i += 1;
    }
    assert(texts(parts@).take(parts@.len() as int) =~= texts(parts@));
    out
}

/// The words of `s`: its pieces between white space that are not empty.
pub fn split_words(s: &[char]) -> (r: Vec<Vec<char>>)
    ensures
        texts(r@) == words(s@),
{
    keep_not_empty(split(s, CharSet::WhiteSpace))
}

/// The lines of `s`.
pub fn lines(s: &[char]) -> (r: Vec<Vec<char>>)
    ensures
        texts(r@) == line_list(s@),
{
    let all = split(s, CharSet::Only('\n'));
    let ghost p = pieces(s@, CharSet::Only('\n'));
    let ghost ended = p.drop_last().map_values(|line: Seq<char>| without_return(line));
    let last: usize = all.len() - 1;
    let mut out: Vec<Vec<char>> = Vec::new();
    let mut i: usize = 0;
    while i < last
        invariant
            i <= last,
            last + 1 == all@.len(),
            texts(all@) == p,
            ended == p.drop_last().map_values(|line: Seq<char>| without_return(line)),
            texts(out@) =~= ended.take(i as int),
        decreases last - i,
    {
        let ghost before = texts(out@);
        let line: &Vec<char> = &all[i];
        assert(line@ == p[i as int]);
        let n: usize = line.len();
        if n > 0 && line[n - 1] == '\r' {
            out.push(copy(slice_subrange(line.as_slice(), 0, n - 1)));
            assert(line@.drop_last() =~= line@.subrange(0, n - 1));
        } else {
            out.push(copy(line.as_slice()));
        }
        assert(texts(out@) =~= before.push(without_return(line@)));
        assert(ended[i as int] == without_return(line@));
        i += 1;
    }
    assert(texts(out@) =~= ended);
    if all[last].len() > 0 {
        out.push(copy(all[last].as_slice()));
        assert(texts(out@) =~= ended.push(p.last()));
    }
    out
}

/// The texts of `parts` with `between` put between neighbours.
pub fn join(parts: &Vec<Vec<char>>, between: &[char]) -> (r: Vec<char>)
    ensures
        r@ == joined(texts(parts@), between@),
{
    let mut out: Vec<char> = Vec::new();
    let mut i: usize = 0;
    while i < parts.len()
        invariant
            i <= parts@.len(),
            out@ == joined(texts(parts@).take(i as int), between@),
        decreases parts@.len() - i,
    {
        let ghost before = out@;
        assert(texts(parts@).take(i + 1).drop_last() =~= texts(parts@).take(i as int));
        if i > 0 {
            append(&mut out, between);
        }
        append(&mut out, parts[i].as_slice());
        assert(out@ =~= joined(texts(parts@).take(i + 1), between@));
        i += 1;
    }
    assert(texts(parts@).take(parts@.len() as int) =~= texts(parts@));
    out
}

// ---------------------------------------------------------------------------------------
// Order
// ---------------------------------------------------------------------------------------

/// The lexicographic order of texts by the numbers of their characters.
pub open spec fn text_le(a: Seq<char>, b: Seq<char>) -> bool
    decreases a.len(),
{
    if a.len() == 0 {
        true
    } else if b.len() == 0 {
        false
    } else if a[0] == b[0] {
        text_le(a.subrange(1, a.len() as int), b.subrange(1, b.len() as int))
    } else {
        (a[0] as int) < (b[0] as int)
    }
}

/// Whether `a` stands before `b` in the order of texts.
pub open spec fn text_lt(a: Seq<char>, b: Seq<char>) -> bool {
    text_le(a, b) && a != b
}

/// Of two texts one is at most the other.
pub proof fn lemma_text_total(a: Seq<char>, b: Seq<char>)
    ensures
        text_le(a, b) || text_le(b, a),
    decreases a.len(),
{
    if a.len() > 0 && b.len() > 0 && a[0] == b[0] {
        lemma_text_total(a.subrange(1, a.len() as int), b.subrange(1, b.len() as int));
    }
}

/// Two texts that are each at most the other are the same.
pub proof fn lemma_text_antisymmetric(a: Seq<char>, b: Seq<char>)
    requires
        text_le(a, b),
        text_le(b, a),
    ensures
        a == b,
    decreases a.len(),
{
    if a.len() == 0 {
        assert(a =~= b);
    } else {
        let (ta, tb) = (a.subrange(1, a.len() as int), b.subrange(1, b.len() as int));
        lemma_text_antisymmetric(ta, tb);
        assert(a =~= seq![a[0]] + ta);
        assert(b =~= seq![b[0]] + tb);
    }
}

/// The order of texts is transitive.
pub proof fn lemma_text_transitive(a: Seq<char>, b: Seq<char>, c: Seq<char>)
    requires
        text_le(a, b),
        text_le(b, c),
    ensures
        text_le(a, c),
    decreases a.len(),
{
    if a.len() > 0 && a[0] == b[0] && b[0] == c[0] {
        lemma_text_transitive(
            a.subrange(1, a.len() as int),
            b.subrange(1, b.len() as int),
            c.subrange(1, c.len() as int),
        );
    }
}

/// A text is at most itself.
pub proof fn lemma_text_reflexive(a: Seq<char>)
    ensures
        text_le(a, a),
    decreases a.len(),
{
    lemma_text_total(a, a);
}

/// Whether `a` has a smaller number than `b`.
pub fn char_below(a: char, b: char) -> (r: bool)
    ensures
        r == ((a as int) < (b as int)),
{
    (a as u32) < (b as u32)
}

/// Whether `a` is at most `b` in the order of texts.
pub fn at_most(a: &[char], b: &[char]) -> (r: bool)
    ensures
        r == text_le(a@, b@),
{
    let mut i: usize = 0;
    assert(a@.subrange(0, a@.len() as int) =~= a@);
    assert(b@.subrange(0, b@.len() as int) =~= b@);
    while i < a.len()
        invariant
            i <= a@.len(),
            i <= b@.len(),
            text_le(a@.subrange(i as int, a@.len() as int), b@.subrange(i as int, b@.len() as int))
                == text_le(a@, b@),
        decreases a@.len() - i,
    {
        if i == b.len() {
            return false;
        }
        let (x, y): (char, char) = (a[i], b[i]);
        if x != y {
            return char_below(x, y);
        }
        assert(a@.subrange(i as int, a@.len() as int).subrange(1, a@.len() - i) =~= a@.subrange(
            i + 1,
            a@.len() as int,
        ));
        assert(b@.subrange(i as int, b@.len() as int).subrange(1, b@.len() - i) =~= b@.subrange(
            i + 1,
            b@.len() as int,
        ));
        i += 1;
    }
    true
}

/// Whether the string `a` is at most the string `b` in the order of texts.
pub fn string_at_most(a: &str, b: &str) -> (r: bool)
    ensures
        r == text_le(a@, b@),
{
    at_most(to_chars(a).as_slice(), to_chars(b).as_slice())
}

// ---------------------------------------------------------------------------------------
// Numbers
// ---------------------------------------------------------------------------------------

/// The character of a decimal digit.
pub open spec fn digit(d: nat) -> char {
    (48 + d) as char
}

/// `n` in decimal digits.
pub open spec fn decimal(n: nat) -> Seq<char>
    decreases n,
{
    if n < 10 {
        seq![digit(n)]
    } else {
        decimal(n / 10).push(digit(n % 10))
    }
}

/// A number in decimal digits has at least one digit, and holds nothing but digits.
pub proof fn lemma_decimal(n: nat)
    ensures
        decimal(n).len() > 0,
        forall|i: int| 0 <= i < decimal(n).len() ==> 48 <= (#[trigger] decimal(n)[i] as int) <= 57,
    decreases n,
{
    if n >= 10 {
        lemma_decimal(n / 10);
        let before = decimal(n / 10);
        assert forall|i: int| 0 <= i < decimal(n).len() implies 48 <= (#[trigger] decimal(
            n,
        )[i] as int) <= 57 by {
            if i < before.len() {
                assert(decimal(n)[i] == before[i]);
            }
        }
    }
}

/// A text with no white space at either end is its own trimmed text.
pub proof fn lemma_trimmed_same(s: Seq<char>)
    requires
        s.len() > 0,
        !white_space(s[0]),
        !white_space(s.last()),
    ensures
        trimmed(s) == s,
{
}

/// The character of a decimal digit.
pub fn digit_char(d: u64) -> (r: char)
    requires
        d < 10,
    ensures
        r == digit(d as nat),
{
    (48u8 + d as u8) as char
}

/// `n` in decimal digits.
pub fn decimal_chars(n: u64) -> (r: Vec<char>)
    ensures
        r@ == decimal(n as nat),
    decreases n,
{
    if n < 10 {
        let mut out: Vec<char> = Vec::new();
        out.push(digit_char(n));
        assert(out@ =~= decimal(n as nat));
        out
    } else {
        let mut out = decimal_chars(n / 10);
        out.push(digit_char(n % 10));
        out
    }
}

/// `n` in decimal digits.
pub fn decimal_text(n: u64) -> (r: String)
    ensures
        r@ == decimal(n as nat),
{
    to_text(decimal_chars(n).as_slice())
}

} // verus!
