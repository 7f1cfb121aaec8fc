//! What holds of texts, whatever their characters: trimming, splitting, searching and numbers.

use crate::text;
use crate::text::CharSet;
use vstd::prelude::*;

verus! {

// ---------------------------------------------------------------------------------------
// Trimming
// ---------------------------------------------------------------------------------------

/// Whether every character of a text is one of a set.
pub open spec fn all_in(s: Seq<char>, set: CharSet) -> bool {
    forall|k: int| 0 <= k < s.len() ==> set.holds(#[trigger] s[k])
}

/// Whether no character of a text is one of a set.
pub open spec fn none_in(s: Seq<char>, set: CharSet) -> bool {
    forall|k: int| 0 <= k < s.len() ==> !set.holds(#[trigger] s[k])
}

/// Trimming takes away what stands around a text, and that alone: what is taken away on either
/// side is made of characters of the set, and what is left neither starts nor ends with one.
pub proof fn lemma_trimmed_parts(s: Seq<char>, set: CharSet)
    ensures
        exists|a: Seq<char>, b: Seq<char>|
            #![trigger all_in(a, set), all_in(b, set)]
            all_in(a, set) && all_in(b, set) && s == a + text::trimmed_of(s, set) + b,
        text::trimmed_of(s, set).len() > 0 ==> !set.holds(text::trimmed_of(s, set)[0])
            && !set.holds(text::trimmed_of(s, set).last()),
{
    let t = text::trimmed_start(s, set);
    let r = text::trimmed_end(t, set);
    let a = lemma_trimmed_start(s, set);
    let b = lemma_trimmed_end(t, set);
    assert(s =~= a + r + b);
    assert(all_in(a, set) && all_in(b, set));
}

proof fn lemma_trimmed_start(s: Seq<char>, set: CharSet) -> (a: Seq<char>)
    ensures
        all_in(a, set),
        s == a + text::trimmed_start(s, set),
        text::trimmed_start(s, set).len() > 0 ==> !set.holds(text::trimmed_start(s, set)[0]),
    decreases s.len(),
{
    if s.len() > 0 && set.holds(s[0]) {
        let rest = s.subrange(1, s.len() as int);
        let a = lemma_trimmed_start(rest, set);
        let t = text::trimmed_start(rest, set);
        assert(s =~= seq![s[0]] + rest);
        assert(seq![s[0]] + (a + t) =~= seq![s[0]] + a + t);
        seq![s[0]] + a
    } else {
        assert(s =~= Seq::<char>::empty() + s);
        Seq::empty()
    }
}

proof fn lemma_trimmed_end(s: Seq<char>, set: CharSet) -> (b: Seq<char>)
    ensures
        all_in(b, set),
        s == text::trimmed_end(s, set) + b,
        text::trimmed_end(s, set).len() > 0 ==> !set.holds(text::trimmed_end(s, set).last())
            && text::trimmed_end(s, set)[0] == s[0],
    decreases s.len(),
{
    if s.len() > 0 && set.holds(s.last()) {
        let b = lemma_trimmed_end(s.drop_last(), set);
        let t = text::trimmed_end(s.drop_last(), set);
        assert(s =~= s.drop_last().push(s.last()));
        assert((t + b).push(s.last()) =~= t + b.push(s.last()));
        b.push(s.last())
    } else {
        assert(s =~= s + Seq::<char>::empty());
        Seq::empty()
    }
}

/// Characters of the set around a text make no difference to what trimming leaves, and a text that
/// neither starts nor ends with one is left as it is.
pub proof fn lemma_trimmed_around(a: Seq<char>, s: Seq<char>, b: Seq<char>, set: CharSet)
    requires
        all_in(a, set),
        all_in(b, set),
        s.len() > 0 ==> !set.holds(s[0]) && !set.holds(s.last()),
    ensures
        text::trimmed_of(a + s + b, set) == s,
{
    lemma_start_around(a, s + b, set);
    assert(a + s + b =~= a + (s + b));
    if s.len() > 0 {
        assert((s + b)[0] == s[0]);
        lemma_end_around(s, b, set);
    } else {
        assert(a + (s + b) =~= a + b);
        assert(all_in(a + b, set)) by {
            assert forall|k: int| 0 <= k < (a + b).len() implies set.holds(#[trigger] (a + b)[k]) by {
                if k < a.len() {
                    assert((a + b)[k] == a[k]);
                } else {
                    assert((a + b)[k] == b[k - a.len()]);
                }
            }
        }
        lemma_all_trimmed(a + b, set);
        assert(s =~= Seq::<char>::empty());
    }
}

proof fn lemma_all_trimmed(s: Seq<char>, set: CharSet)
    ensures
        all_in(s, set) ==> text::trimmed_start(s, set).len() == 0,
    decreases s.len(),
{
    if s.len() > 0 && all_in(s, set) {
        let rest = s.subrange(1, s.len() as int);
        assert forall|k: int| 0 <= k < rest.len() implies set.holds(#[trigger] rest[k]) by {
            assert(rest[k] == s[k + 1]);
        }
        assert(set.holds(s[0]));
        lemma_all_trimmed(rest, set);
    }
}

proof fn lemma_start_around(a: Seq<char>, s: Seq<char>, set: CharSet)
    requires
        all_in(a, set),
    ensures
        text::trimmed_start(a + s, set) == text::trimmed_start(s, set),
    decreases a.len(),
{
    if a.len() > 0 {
        let rest = a.subrange(1, a.len() as int);
        assert(set.holds(a[0]));
        assert((a + s)[0] == a[0]);
        assert((a + s).subrange(1, (a + s).len() as int) =~= rest + s);
        assert forall|k: int| 0 <= k < rest.len() implies set.holds(#[trigger] rest[k]) by {
            assert(rest[k] == a[k + 1]);
        }
        lemma_start_around(rest, s, set);
    } else {
        assert(a + s =~= s);
    }
}

proof fn lemma_end_around(s: Seq<char>, b: Seq<char>, set: CharSet)
    requires
        all_in(b, set),
        s.len() > 0,
        !set.holds(s.last()),
    ensures
        text::trimmed_end(s + b, set) == s,
    decreases b.len(),
{
    if b.len() > 0 {
        assert((s + b).last() == b.last());
        assert(set.holds(b[b.len() - 1]));
        assert((s + b).drop_last() =~= s + b.drop_last());
        lemma_end_around(s, b.drop_last(), set);
    } else {
        assert(s + b =~= s);
    }
}

/// White space is the space, the line and page breaks, the tabs and the spaces of other widths, and
/// no character of a word: no letter, digit or punctuation mark of ASCII.
pub proof fn lemma_white_space(c: char)
    ensures
        c == ' ' || c == '\t' || c == '\n' || c == '\r' || c == '\u{a0}' || c == '\u{3000}'
            ==> text::white_space(c),
        text::ascii_letter_or_digit(c) || text::ascii_punctuation(c) ==> !text::white_space(c),
        0x21 <= c as u32 <= 0x7e <==> text::ascii_letter_or_digit(c) || text::ascii_punctuation(c),
{
}

// ---------------------------------------------------------------------------------------
// Searching
// ---------------------------------------------------------------------------------------

/// A text contains a pattern exactly where it is made of something, the pattern and something.
pub proof fn lemma_contains(s: Seq<char>, pattern: Seq<char>)
    ensures
        text::contains_text(s, pattern) <==> exists|a: Seq<char>, b: Seq<char>|
            s == #[trigger] (a + pattern + b),
{
    if text::contains_text(s, pattern) {
        let i = choose|i: int| text::occurs_at(s, pattern, i);
        let (a, b) = (s.subrange(0, i), s.subrange(i + pattern.len(), s.len() as int));
        assert(s =~= a + s.subrange(i, i + pattern.len()) + b);
        assert(s == a + pattern + b);
    }
    if exists|a: Seq<char>, b: Seq<char>| s == #[trigger] (a + pattern + b) {
        let (a, b) = choose|a: Seq<char>, b: Seq<char>| s == #[trigger] (a + pattern + b);
        lemma_occurs(a, pattern, b);
    }
}

/// A pattern occurs where it is put.
pub proof fn lemma_occurs(a: Seq<char>, pattern: Seq<char>, b: Seq<char>)
    ensures
        text::occurs_at(a + pattern + b, pattern, a.len() as int),
        text::contains_text(a + pattern + b, pattern),
{
    let s = a + pattern + b;
    assert(s.subrange(a.len() as int, a.len() as int + pattern.len()) =~= pattern);
}

/// The position of a pattern is the first one where it occurs: before it the text, cut off behind
/// the pattern, has no other.
pub proof fn lemma_position(a: Seq<char>, pattern: Seq<char>, b: Seq<char>)
    requires
        forall|k: int| 0 <= k < a.len() ==> !#[trigger] text::occurs_at(a + pattern + b, pattern, k),
    ensures
        text::position(a + pattern + b, pattern) == Some(a.len() as int),
{
    let s = a + pattern + b;
    lemma_occurs(a, pattern, b);
    text::lemma_position_from(s, pattern, 0);
}

/// A pattern is counted from the left without overlaps: behind its first occurrence counting starts
/// again. A pattern that does not occur, and the empty one, are counted nowhere.
pub proof fn lemma_occurrences(s: Seq<char>, pattern: Seq<char>, i: int)
    ensures
        text::occurs_at(s, pattern, i) && pattern.len() > 0 && (forall|k: int|
            0 <= k < i ==> !#[trigger] text::occurs_at(s, pattern, k)) ==> text::occurrences(
            s,
            pattern,
        ) == 1 + text::occurrences(s.subrange(i + pattern.len(), s.len() as int), pattern),
        text::occurrences(s, pattern) > 0 <==> pattern.len() > 0 && text::contains_text(s, pattern),
{
    text::lemma_position_from(s, pattern, 0);
    text::lemma_found_is_contained(s, pattern);
}

/// A pattern occurs no more often than it fits into a text.
pub proof fn lemma_occurrences_fit(s: Seq<char>, pattern: Seq<char>)
    ensures
        text::occurrences(s, pattern) * pattern.len() <= s.len(),
    decreases s.len(),
{
    text::lemma_position_from(s, pattern, 0);
    if pattern.len() > 0 {
        match text::position(s, pattern) {
            Some(i) => {
                let rest = s.subrange(i + pattern.len(), s.len() as int);
                lemma_occurrences_fit(rest, pattern);
                let n = text::occurrences(rest, pattern);
                assert((1 + n) * pattern.len() == pattern.len() + n * pattern.len())
                    by (nonlinear_arith);
            },
            None => {
                assert(0 * pattern.len() == 0);
            },
        }
    } else {
        assert(text::occurrences(s, pattern) == 0);
    }
}

/// Replacing leaves a text without the pattern as it is, and otherwise puts the other text in the
/// place of the first occurrence and goes on behind it.
pub proof fn lemma_replaced(s: Seq<char>, pattern: Seq<char>, by: Seq<char>, i: int)
    requires
        pattern.len() > 0,
    ensures
        !text::contains_text(s, pattern) ==> text::replaced(s, pattern, by) == s,
        text::occurs_at(s, pattern, i) && (forall|k: int|
            0 <= k < i ==> !#[trigger] text::occurs_at(s, pattern, k)) ==> text::replaced(
            s,
            pattern,
            by,
        ) == s.take(i) + by + text::replaced(
            s.subrange(i + pattern.len(), s.len() as int),
            pattern,
            by,
        ),
{
    text::lemma_position_from(s, pattern, 0);
    text::lemma_found_is_contained(s, pattern);
    if text::occurs_at(s, pattern, i) {
        assert(s.take(i) =~= s.subrange(0, i));
    }
}

/// A suffix is taken away as often as it stands at the end, and nothing else is.
pub proof fn lemma_without_suffixes(s: Seq<char>, suffix: Seq<char>)
    requires
        suffix.len() > 0,
    ensures
        text::without_suffixes(s + suffix, suffix) == text::without_suffixes(s, suffix),
        !text::ends_with(s, suffix) ==> text::without_suffixes(s, suffix) == s,
        !text::ends_with(text::without_suffixes(s, suffix), suffix),
    decreases s.len(),
{
    let t = s + suffix;
    assert(t.subrange(t.len() - suffix.len(), t.len() as int) =~= suffix);
    assert(t.subrange(0, t.len() - suffix.len()) =~= s);
    if text::ends_with(s, suffix) {
        lemma_without_suffixes(s.subrange(0, s.len() - suffix.len()), suffix);
    }
}

/// A prefix is taken away as often as it stands at the start, and nothing else is.
pub proof fn lemma_without_prefixes(s: Seq<char>, prefix: Seq<char>)
    requires
        prefix.len() > 0,
    ensures
        text::without_prefixes(prefix + s, prefix) == text::without_prefixes(s, prefix),
        !text::starts_with(s, prefix) ==> text::without_prefixes(s, prefix) == s,
        !text::starts_with(text::without_prefixes(s, prefix), prefix),
    decreases s.len(),
{
    let t = prefix + s;
    assert(t.subrange(0, prefix.len() as int) =~= prefix);
    assert(t.subrange(prefix.len() as int, t.len() as int) =~= s);
    if text::starts_with(s, prefix) {
        lemma_without_prefixes(s.subrange(prefix.len() as int, s.len() as int), prefix);
    }
}

/// A text starts with what stands first in it, and ends with what stands last in it.
pub proof fn lemma_starts_and_ends(a: Seq<char>, b: Seq<char>)
    ensures
        text::starts_with(a + b, a),
        text::ends_with(a + b, b),
        text::after_prefix(a + b, a) == Some(b),
        text::before_suffix(a + b, b) == Some(a),
{
    let s = a + b;
    assert(s.subrange(0, a.len() as int) =~= a);
    assert(s.subrange(s.len() - b.len(), s.len() as int) =~= b);
    assert(s.subrange(a.len() as int, s.len() as int) =~= b);
    assert(s.subrange(0, s.len() - b.len()) =~= a);
}

// ---------------------------------------------------------------------------------------
// Splitting
// ---------------------------------------------------------------------------------------

/// A separator ends a piece: the pieces of two texts with a separator between them are those of the
/// first and those of the second.
pub proof fn lemma_pieces_around(a: Seq<char>, c: char, b: Seq<char>, set: CharSet)
    requires
        set.holds(c),
    ensures
        text::pieces(a + seq![c] + b, set) == text::pieces(a, set) + text::pieces(b, set),
    decreases b.len(),
{
    text::lemma_pieces_not_empty(a, set);
    text::lemma_pieces_not_empty(b, set);
    if b.len() == 0 {
        assert(a + seq![c] + b =~= a.push(c));
        assert(a.push(c).drop_last() =~= a);
        assert(text::pieces(a, set).push(Seq::<char>::empty()) =~= text::pieces(a, set)
            + seq![Seq::<char>::empty()]);
    } else {
        let s = a + seq![c] + b;
        let t = b.drop_last();
        assert(s.drop_last() =~= a + seq![c] + t);
        assert(s.last() == b.last());
        lemma_pieces_around(a, c, t, set);
        text::lemma_pieces_not_empty(t, set);
        let (x, y) = (text::pieces(a, set), text::pieces(t, set));
        if set.holds(b.last()) {
            assert((x + y).push(Seq::<char>::empty()) =~= x + y.push(Seq::<char>::empty()));
        } else {
            assert((x + y).drop_last().push((x + y).last().push(b.last())) =~= x
                + y.drop_last().push(y.last().push(b.last())));
        }
    }
}

/// A text without a separator is one piece.
pub proof fn lemma_one_piece(s: Seq<char>, set: CharSet)
    requires
        none_in(s, set),
    ensures
        text::pieces(s, set) == seq![s],
    decreases s.len(),
{
    if s.len() > 0 {
        let t = s.drop_last();
        assert forall|k: int| 0 <= k < t.len() implies !set.holds(#[trigger] t[k]) by {
            assert(t[k] == s[k]);
        }
        lemma_one_piece(t, set);
        assert(!set.holds(s[s.len() - 1]));
        assert(t.push(s.last()) =~= s);
        assert(text::pieces(s, set) =~= seq![s]);
    } else {
        assert(s =~= Seq::<char>::empty());
    }
}

/// What stands between two separators, or between one and an end of the text, and holds none, is a
/// piece of it.
pub proof fn lemma_piece_between(a: Seq<char>, word: Seq<char>, b: Seq<char>, set: CharSet)
    requires
        none_in(word, set),
        a.len() == 0 || set.holds(a.last()),
        b.len() == 0 || set.holds(b[0]),
    ensures
        text::pieces(a + word + b, set).contains(word),
{
    lemma_one_piece(word, set);
    let s = a + word + b;
    let right = if b.len() == 0 {
        assert(word + b =~= word);
        text::pieces(word, set)
    } else {
        let rest = b.subrange(1, b.len() as int);
        assert(word + b =~= word + seq![b[0]] + rest);
        lemma_pieces_around(word, b[0], rest, set);
        text::pieces(word, set) + text::pieces(rest, set)
    };
    assert(text::pieces(word + b, set) == right);
    assert(right[0] == word);
    if a.len() == 0 {
        assert(s =~= word + b);
        assert(text::pieces(s, set)[0] == word);
    } else {
        let before = a.drop_last();
        assert(s =~= before + seq![a.last()] + (word + b));
        lemma_pieces_around(before, a.last(), word + b, set);
        assert(text::pieces(s, set)[text::pieces(before, set).len() as int] == word);
    }
}

/// The words of two texts with white space between them are those of the first and those of the
/// second. A text that holds no white space is one word, unless it is empty.
pub proof fn lemma_words(a: Seq<char>, c: char, b: Seq<char>)
    requires
        text::white_space(c),
    ensures
        text::words(a + seq![c] + b) == text::words(a) + text::words(b),
        none_in(a, CharSet::WhiteSpace) && a.len() > 0 ==> text::words(a) == seq![a],
        a.len() == 0 ==> text::words(a) == Seq::<Seq<char>>::empty(),
{
    let set = CharSet::WhiteSpace;
    let keep = |w: Seq<char>| text::not_empty(w);
    lemma_pieces_around(a, c, b, set);
    let (x, y) = (text::pieces(a, set), text::pieces(b, set));
    lemma_filter_concat(x, y, keep);
    reveal(Seq::filter);
    if none_in(a, set) {
        lemma_one_piece(a, set);
        assert(seq![a].drop_last() =~= Seq::<Seq<char>>::empty());
        assert(Seq::<Seq<char>>::empty().filter(keep) =~= Seq::empty());
        assert(seq![a].last() == a);
        assert(seq![a].filter(keep) =~= if a.len() > 0 {
            seq![a]
        } else {
            Seq::empty()
        });
    }
}

proof fn lemma_filter_concat(x: Seq<Seq<char>>, y: Seq<Seq<char>>, keep: spec_fn(Seq<char>) -> bool)
    ensures
        (x + y).filter(keep) == x.filter(keep) + y.filter(keep),
    decreases y.len(),
{
    reveal(Seq::filter);
    if y.len() == 0 {
        assert(x + y =~= x);
        assert(x.filter(keep) + y.filter(keep) =~= x.filter(keep));
    } else {
        assert((x + y).drop_last() =~= x + y.drop_last());
        lemma_filter_concat(x, y.drop_last(), keep);
        assert((x + y).filter(keep) =~= x.filter(keep) + y.filter(keep));
    }
}

/// A line feed ends a line, and so does a carriage return with a line feed behind it: the first
/// line of a text is what stands before its first line feed, and the others are the lines of what
/// stands behind it. What stands behind the last line feed is a line, unless it is empty.
pub proof fn lemma_lines(line: Seq<char>, rest: Seq<char>)
    requires
        !line.contains('\n'),
    ensures
        text::line_list(line + seq!['\n'] + rest) == seq![
            if line.len() > 0 && line.last() == '\r' {
                line.drop_last()
            } else {
                line
            },
        ] + text::line_list(rest),
        text::line_list(line) == if line.len() == 0 {
            Seq::<Seq<char>>::empty()
        } else {
            seq![line]
        },
{
    let set = CharSet::Only('\n');
    let cut = |l: Seq<char>| text::without_return(l);
    assert(none_in(line, set)) by {
        assert forall|k: int| 0 <= k < line.len() implies !set.holds(#[trigger] line[k]) by {
            assert(line.contains(line[k]));
        }
    }
    lemma_one_piece(line, set);
    lemma_pieces_around(line, '\n', rest, set);
    text::lemma_pieces_not_empty(rest, set);
    let others = text::pieces(rest, set);
    let all = seq![line] + others;
    assert(all.drop_last() =~= seq![line] + others.drop_last());
    assert(all.drop_last().map_values(cut) =~= seq![text::without_return(line)]
        + others.drop_last().map_values(cut));
    assert(text::line_list(line + seq!['\n'] + rest) =~= seq![text::without_return(line)]
        + text::line_list(rest));
    assert(seq![line].drop_last().map_values(cut) =~= Seq::<Seq<char>>::empty());
    assert(text::line_list(line) =~= if line.len() == 0 {
        Seq::<Seq<char>>::empty()
    } else {
        seq![line]
    });
}

/// Joining puts the separator between neighbours and nowhere else.
pub proof fn lemma_joined(parts: Seq<Seq<char>>, last: Seq<char>, between: Seq<char>)
    ensures
        text::joined(parts.push(last), between) == if parts.len() == 0 {
            last
        } else {
            text::joined(parts, between) + between + last
        },
        text::joined(Seq::<Seq<char>>::empty(), between) == Seq::<char>::empty(),
{
    assert(parts.push(last).drop_last() =~= parts);
}

// ---------------------------------------------------------------------------------------
// Order
// ---------------------------------------------------------------------------------------

/// Texts stand in the order of a dictionary: a text stands before those that it begins, and of two
/// texts that differ at some place first, the one with the smaller character there stands first.
pub proof fn lemma_dictionary_order(
    common: Seq<char>,
    c: char,
    a: Seq<char>,
    d: char,
    b: Seq<char>,
)
    ensures
        text::text_le(common, common + a),
        (c as int) < (d as int) ==> text::text_lt(
            common + seq![c] + a,
            common + seq![d] + b,
        ) && !text::text_le(common + seq![d] + b, common + seq![c] + a),
    decreases common.len(),
{
    let (x, y) = (common + seq![c] + a, common + seq![d] + b);
    if common.len() == 0 {
        assert(x[0] == c && y[0] == d);
    } else {
        let rest = common.subrange(1, common.len() as int);
        assert(x[0] == common[0] && y[0] == common[0] && (common + a)[0] == common[0]);
        assert(x.subrange(1, x.len() as int) =~= rest + seq![c] + a);
        assert(y.subrange(1, y.len() as int) =~= rest + seq![d] + b);
        assert((common + a).subrange(1, (common + a).len() as int) =~= rest + a);
        lemma_dictionary_order(rest, c, a, d, b);
    }
    if (c as int) < (d as int) {
        assert(x[common.len() as int] == c && y[common.len() as int] == d);
    }
}

// ---------------------------------------------------------------------------------------
// Numbers
// ---------------------------------------------------------------------------------------

/// The number that a text of decimal digits stands for.
pub open spec fn value(digits: Seq<char>) -> int
    decreases digits.len(),
{
    if digits.len() == 0 {
        0
    } else {
        10 * value(digits.drop_last()) + (digits.last() as int - '0' as int)
    }
}

/// A number in digits stands for the number, and starts with a zero only where it is zero.
pub proof fn lemma_decimal_value(n: nat)
    ensures
        value(text::decimal(n)) == n,
        text::decimal(n).len() > 0,
        n > 0 ==> text::decimal(n)[0] != '0',
        n < 10 ==> text::decimal(n).len() == 1,
    decreases n,
{
    reveal_with_fuel(value, 2);
    let s = text::decimal(n);
    if n >= 10 {
        lemma_decimal_value(n / 10);
        assert(s.drop_last() =~= text::decimal(n / 10));
        assert(s[0] == text::decimal(n / 10)[0]);
    } else {
        assert(s.drop_last() =~= Seq::<char>::empty());
    }
}

/// Replacing a character replaces each of its occurrences by the other one, and nothing else.
pub proof fn lemma_with_char(a: Seq<char>, from: char, b: Seq<char>, to: char)
    ensures
        text::with_char(a + seq![from] + b, from, to) == text::with_char(a, from, to) + seq![to]
            + text::with_char(b, from, to),
        !a.contains(from) ==> text::with_char(a, from, to) == a,
        text::with_char(a, from, to).len() == a.len(),
{
    assert(text::with_char(a + seq![from] + b, from, to) =~= text::with_char(a, from, to) + seq![to]
        + text::with_char(b, from, to));
    if !a.contains(from) {
        assert forall|k: int| 0 <= k < a.len() implies a[k] != from by {
            assert(a.contains(a[k]));
        }
        assert(text::with_char(a, from, to) =~= a);
    }
}

/// Words of a query stand between white space, ASCII punctuation and the punctuation of Chinese
/// texts, and no letter, no digit and no ideograph separates them.
pub proof fn lemma_query_separators(c: char)
    ensures
        text::white_space(c) || text::ascii_punctuation(c) ==> text::query_separator(c),
        c == '，' || c == '。' || c == '！' || c == '？' || c == '、' || c == '；' || c == '：' || c == '“'
            || c == '”' || c == '‘' || c == '’' || c == '（' || c == '）' || c == '·' || c == '～' || c
            == '…' ==> text::query_separator(c),
        text::ascii_letter_or_digit(c) ==> !text::query_separator(c),
        0x3400 <= c as u32 <= 0x9fff ==> !text::query_separator(c),
        text::query_separator(c) && c as u32 >= 0x80 ==> text::white_space(c) || c == '，' || c == '。'
            || c == '！' || c == '？' || c == '、' || c == '；' || c == '：' || c == '“' || c == '”' || c
            == '‘' || c == '’' || c == '（' || c == '）' || c == '·' || c == '～' || c == '…',
{
}

/// Which characters are white space: the controls from the tabulator to the carriage return, the
/// space, and the spaces and separators beyond ASCII.
pub proof fn lemma_all_white_space(c: char)
    ensures
        text::white_space(c) <==> seq![
            0x9,
            0xa,
            0xb,
            0xc,
            0xd,
            0x20,
            0x85,
            0xa0,
            0x1680,
            0x2000,
            0x2001,
            0x2002,
            0x2003,
            0x2004,
            0x2005,
            0x2006,
            0x2007,
            0x2008,
            0x2009,
            0x200a,
            0x2028,
            0x2029,
            0x202f,
            0x205f,
            0x3000,
        ].contains(c as int),
{
    let all: Seq<int> = seq![
        0x9,
        0xa,
        0xb,
        0xc,
        0xd,
        0x20,
        0x85,
        0xa0,
        0x1680,
        0x2000,
        0x2001,
        0x2002,
        0x2003,
        0x2004,
        0x2005,
        0x2006,
        0x2007,
        0x2008,
        0x2009,
        0x200a,
        0x2028,
        0x2029,
        0x202f,
        0x205f,
        0x3000,
    ];
    let u = c as int;
    assert(all[0] == 0x9 && all[1] == 0xa && all[2] == 0xb && all[3] == 0xc && all[4] == 0xd);
    assert(all[5] == 0x20 && all[6] == 0x85 && all[7] == 0xa0 && all[8] == 0x1680);
    assert(0x2000 <= u <= 0x200a ==> all[u - 0x2000 + 9] == u);
    assert(all[20] == 0x2028 && all[21] == 0x2029 && all[22] == 0x202f && all[23] == 0x205f
        && all[24] == 0x3000);
}

} // verus!
