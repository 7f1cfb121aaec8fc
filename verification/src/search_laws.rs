//! What holds of searching, whatever the query and the pages.

use crate::files::EntryKind;
use crate::markdown;
use crate::order;
use crate::order::Ranked;
use crate::outside;
use crate::path_laws;
use crate::paths;
use crate::search;
use crate::search::{FoundPage, Score, SearchPlan, SearchScore, WalkedEntry};
use crate::text;
use crate::text::CharSet;
use crate::text_laws;
use vstd::prelude::*;

verus! {

// ---------------------------------------------------------------------------------------
// Tokens
// ---------------------------------------------------------------------------------------

/// Whether `word` stands in a query with a separator or an end of the query on either side.
pub open spec fn stands_alone(query: Seq<char>, a: Seq<char>, word: Seq<char>, b: Seq<char>) -> bool {
    &&& query == a + word + b
    &&& text_laws::none_in(word, CharSet::QuerySeparator)
    &&& a.len() == 0 || text::query_separator(a.last())
    &&& b.len() == 0 || text::query_separator(b[0])
}

/// Every word of a query is a token, unless it is a stop word or a single character.
pub proof fn lemma_words_are_tokens(query: Seq<char>, a: Seq<char>, word: Seq<char>, b: Seq<char>)
    requires
        stands_alone(query, a, word, b),
        word.len() >= 2,
        !search::is_stop(word),
    ensures
        search::is_query_token(query, word),
{
    let set = CharSet::QuerySeparator;
    text_laws::lemma_piece_between(a, word, b, set);
    let pieces = text::pieces(query, set);
    let i = choose|i: int| 0 <= i < pieces.len() && pieces[i] == word;
    assert(search::is_query_word(pieces[i]));
    assert(search::is_token_of(pieces[i], word));
}

/// A word of three characters or more in Chinese, Japanese or Korean writing has every pair of
/// neighbouring characters as a token, and every single character that is no stop word.
pub proof fn lemma_cjk_words_are_taken_apart(
    query: Seq<char>,
    a: Seq<char>,
    word: Seq<char>,
    b: Seq<char>,
    i: int,
    c: int,
)
    requires
        stands_alone(query, a, word, b),
        word.len() >= 3,
        !search::is_stop(word),
        0 <= c < word.len(),
        0x3400 <= word[c] as int <= 0x9fff,
        0 <= i < word.len(),
    ensures
        i + 1 < word.len() ==> search::is_query_token(query, seq![word[i], word[i + 1]]),
        !search::is_stop(seq![word[i]]) ==> search::is_query_token(query, seq![word[i]]),
{
    let set = CharSet::QuerySeparator;
    text_laws::lemma_piece_between(a, word, b, set);
    let pieces = text::pieces(query, set);
    let k = choose|k: int| 0 <= k < pieces.len() && pieces[k] == word;
    assert(search::is_cjk(word[c]));
    assert(search::holds_cjk(word));
    assert(search::is_query_word(pieces[k]));
    if i + 1 < word.len() {
        assert(word.subrange(i, i + 2) =~= seq![word[i], word[i + 1]]);
        assert(search::is_token_of(pieces[k], seq![word[i], word[i + 1]]));
    }
    if !search::is_stop(seq![word[i]]) {
        assert(seq![word[i]] == seq![word[i]]);
        assert(search::is_token_of(pieces[k], seq![word[i]]));
    }
}

/// A token stands in its query. One that is no word of it is a pair of characters, or a single
/// character that is no stop word, of a word in Chinese, Japanese or Korean writing.
pub proof fn lemma_tokens_stand_in_the_query(query: Seq<char>, token: Seq<char>)
    requires
        search::is_query_token(query, token),
    ensures
        ({
            let pieces = text::pieces(query, CharSet::QuerySeparator);
            exists|i: int|
                0 <= i < pieces.len() && (#[trigger] pieces[i]).len() >= 2 && !search::is_stop(
                    pieces[i],
                ) && text::contains_text(pieces[i], token) && (token != pieces[i] ==> pieces[i].len()
                    >= 3 && token.len() <= 2 && search::holds_cjk(pieces[i]) && (token.len() == 1
                    ==> !search::is_stop(token)))
        }),
{
    let pieces = text::pieces(query, CharSet::QuerySeparator);
    let i = choose|i: int|
        0 <= i < pieces.len() && search::is_query_word(#[trigger] pieces[i])
            && search::is_token_of(pieces[i], token);
    let word = pieces[i];
    if token == word {
        assert(text::occurs_at(word, token, 0)) by {
            assert(word.subrange(0, word.len() as int) =~= word);
        }
    } else if exists|j: int| 0 <= j < word.len() - 1 && token == #[trigger] word.subrange(j, j + 2) {
        let j = choose|j: int| 0 <= j < word.len() - 1 && token == #[trigger] word.subrange(j, j + 2);
        assert(text::occurs_at(word, token, j));
    } else {
        let j = choose|j: int|
            0 <= j < word.len() && token == seq![#[trigger] word[j]] && !search::is_stop(token);
        assert(word.subrange(j, j + 1) =~= token);
        assert(text::occurs_at(word, token, j));
    }
    assert(text::contains_text(word, token));
}

// ---------------------------------------------------------------------------------------
// Points
// ---------------------------------------------------------------------------------------

/// The numbers of the tokens that stand in a text.
pub open spec fn standing(s: Seq<char>, tokens: Seq<Seq<char>>) -> Set<int> {
    Set::new(|i: int| 0 <= i < tokens.len() && text::contains_text(s, tokens[i]))
}

proof fn lemma_standing(s: Seq<char>, tokens: Seq<Seq<char>>)
    ensures
        standing(s, tokens).finite(),
        search::tokens_in(s, tokens) == standing(s, tokens).len(),
    decreases tokens.len(),
{
    if tokens.len() == 0 {
        assert(standing(s, tokens) =~= Set::<int>::empty());
    } else {
        let rest = tokens.drop_last();
        let last = tokens.len() - 1;
        lemma_standing(s, rest);
        if text::contains_text(s, tokens.last()) {
            assert(standing(s, tokens) =~= standing(s, rest).insert(last));
        } else {
            assert(standing(s, tokens) =~= standing(s, rest));
        }
    }
}

/// Each token of a query adds points of its own, whatever the other tokens are: one where it stands
/// in the page, and five where it stands in the title or the file name.
pub proof fn lemma_each_token_counts(
    title: Seq<char>,
    content: Seq<char>,
    stem: Seq<char>,
    tokens: Seq<Seq<char>>,
    token: Seq<char>,
    phrase: Seq<char>,
)
    ensures
        ({
            let without = search::page_match(title, content, stem, tokens, phrase);
            let with = search::page_match(title, content, stem, tokens.push(token), phrase);
            &&& with.content_tokens == without.content_tokens + if text::contains_text(
                content,
                token,
            ) {
                1nat
            } else {
                0
            }
            &&& with.title_tokens == without.title_tokens + if text::contains_text(title, token) {
                1nat
            } else {
                0
            }
            &&& with.points() == without.points() + (if text::contains_text(content, token) {
                1nat
            } else {
                0
            }) + if text::contains_text(title, token) {
                5nat
            } else {
                0
            }
            &&& text::contains_text(content, token) || text::contains_text(title, token)
                ==> with.is_match()
            &&& without.is_match() ==> with.is_match()
        }),
{
    assert(tokens.push(token).drop_last() =~= tokens);
    assert(5 * (search::tokens_in(title, tokens) + 1) == 5 * search::tokens_in(title, tokens) + 5);
}

/// The points of a page: two hundred where its file name is the phrase of the query, fifty where the
/// phrase stands in the title or the file name, twenty for each time that it stands in the page, ten
/// times at most, five for each token in the title or the file name and one for each in the page. A
/// page goes with the query exactly where it has points.
pub proof fn lemma_points(
    title: Seq<char>,
    content: Seq<char>,
    stem: Seq<char>,
    tokens: Seq<Seq<char>>,
    phrase: Seq<char>,
)
    ensures
        ({
            let m = search::page_match(title, content, stem, tokens, phrase);
            let times = text::occurrences(content, phrase);
            &&& m.points() == (if phrase.len() > 0 && stem == phrase {
                200int
            } else {
                0
            }) + (if phrase.len() > 0 && text::contains_text(title, phrase) {
                50int
            } else {
                0
            }) + 20 * (if times <= 10 {
                times
            } else {
                10
            }) + 5 * standing(title, tokens).len() + standing(content, tokens).len()
            &&& m.is_match() <==> m.points() > 0
        }),
{
    lemma_standing(title, tokens);
    lemma_standing(content, tokens);
}

/// The plan's tokens.
pub open spec fn tokens_of(plan: SearchPlan) -> Seq<Seq<char>> {
    text::strings(plan.tokens@)
}

/// A page that holds a token of the query is found, whatever the other tokens are: it is no miss.
pub proof fn lemma_page_with_a_token_is_found(
    plan: SearchPlan,
    path: Seq<char>,
    content: Seq<char>,
    i: int,
    before: Seq<char>,
    behind: Seq<char>,
)
    requires
        0 <= i < tokens_of(plan).len(),
        outside::lowercase(content) == before + tokens_of(plan)[i] + behind,
    ensures
        search::page_score(plan, path, content) !is Miss,
        search::page_score(plan, path, content) matches Score::Hit(page) ==> (page.score matches SearchScore::Keyword(
            points,
        ) && points >= 1),
{
    let tokens = tokens_of(plan);
    let lower = outside::lowercase(content);
    text_laws::lemma_contains(lower, tokens[i]);
    lemma_points_bound(plan, path, content);
    lemma_standing(lower, tokens);
    assert(standing(lower, tokens).contains(i));
    assert(standing(lower, tokens).len() > 0) by {
        vstd::set_lib::lemma_set_empty_equivalency_len(standing(lower, tokens));
    }
}

/// What a page is scored by: its title with the file name behind it, its text, and its file name
/// without `.md`, all in lower case.
pub open spec fn match_of(plan: SearchPlan, path: Seq<char>, content: Seq<char>) -> search::Match {
    let name = search::name_at(path);
    search::page_match(
        outside::lowercase(markdown::page_title(content, name) + " "@ + name),
        outside::lowercase(content),
        outside::lowercase(text::without_suffixes(name, ".md"@)),
        tokens_of(plan),
        plan.phrase@,
    )
}

proof fn lemma_points_bound(plan: SearchPlan, path: Seq<char>, content: Seq<char>)
    ensures
        match_of(plan, path, content).points() <= u128::MAX,
{
    let m = match_of(plan, path, content);
    let name = search::name_at(path);
    lemma_tokens_bound(
        outside::lowercase(markdown::page_title(content, name) + " "@ + name),
        tokens_of(plan),
    );
    lemma_tokens_bound(outside::lowercase(content), tokens_of(plan));
    assert(tokens_of(plan).len() == plan.tokens.len());
}

proof fn lemma_tokens_bound(s: Seq<char>, tokens: Seq<Seq<char>>)
    ensures
        search::tokens_in(s, tokens) <= tokens.len(),
    decreases tokens.len(),
{
    if tokens.len() > 0 {
        lemma_tokens_bound(s, tokens.drop_last());
    }
}

/// A page is missed exactly where it has no points. A page that is found carries its path, its
/// points, its title and its images, its text exactly where the plan asks for it, and whether the
/// title or the file name holds a token or the phrase.
pub proof fn lemma_found_pages(plan: SearchPlan, path: Seq<char>, content: Seq<char>)
    ensures
        search::page_score(plan, path, content) is Miss <==> match_of(plan, path, content).points()
            == 0,
        search::page_score(plan, path, content) matches Score::Hit(page) ==> {
            let m = match_of(plan, path, content);
            &&& page.path == path
            &&& page.score == SearchScore::Keyword(m.points() as u128)
            &&& page.title == markdown::page_title(content, search::name_at(path))
            &&& page.images == markdown::page_images(content)
            &&& page.content is Some <==> plan.include_content
            &&& page.content matches Some(c) ==> c == content
            &&& page.title_match <==> m.title_phrase || m.title_tokens > 0
            &&& page.vector is None
        },
{
    lemma_points_bound(plan, path, content);
    let name = search::name_at(path);
    lemma_points(
        outside::lowercase(markdown::page_title(content, name) + " "@ + name),
        outside::lowercase(content),
        outside::lowercase(text::without_suffixes(name, ".md"@)),
        tokens_of(plan),
        plan.phrase@,
    );
}

/// The name of a file is what stands behind the last slash of its path.
pub proof fn lemma_name_at(directory: Seq<char>, name: Seq<char>)
    requires
        !name.contains('/'),
        name.len() > 0,
        name != "."@,
        name != ".."@,
    ensures
        search::name_at(directory + seq!['/'] + name) == name,
        search::name_at(name) == name,
{
    let set = CharSet::Only('/');
    let keep = |p: Seq<char>| paths::counts(p);
    assert(text_laws::none_in(name, set)) by {
        assert forall|k: int| 0 <= k < name.len() implies !set.holds(#[trigger] name[k]) by {
            assert(name.contains(name[k]));
        }
    }
    text_laws::lemma_one_piece(name, set);
    text_laws::lemma_pieces_around(directory, '/', name, set);
    let all = text::pieces(directory, set) + seq![name];
    reveal(Seq::filter);
    assert(all.drop_last() =~= text::pieces(directory, set));
    assert(all.filter(keep).last() == name);
    assert(seq![name].drop_last() =~= Seq::<Seq<char>>::empty());
    assert(seq![name].last() == name);
    assert(seq![name].filter(keep).last() == name);
}

// ---------------------------------------------------------------------------------------
// Snippets
// ---------------------------------------------------------------------------------------

/// A snippet is built around the phrase of the query where it stands in the page, and else around
/// the first of the tokens that does. Where none does it is built around the query.
pub proof fn lemma_snippet_anchor(
    content: Seq<char>,
    tokens: Seq<Seq<char>>,
    phrase: Seq<char>,
    query: Seq<char>,
    i: int,
)
    ensures
        ({
            let anchor = search::snippet_anchor(content, tokens, phrase, query);
            let has_phrase = phrase.len() > 0 && text::contains_text(content, phrase);
            &&& has_phrase ==> anchor == phrase
            &&& !has_phrase && 0 <= i < tokens.len() && text::contains_text(content, tokens[i])
                && (forall|k: int|
                0 <= k < i ==> !text::contains_text(content, #[trigger] tokens[k])) ==> anchor
                == tokens[i]
            &&& !has_phrase && (forall|k: int|
                0 <= k < tokens.len() ==> !text::contains_text(content, #[trigger] tokens[k]))
                ==> anchor == query
        }),
{
    text_laws::lemma_occurrences(content, phrase, 0);
    if 0 <= i < tokens.len() && text::contains_text(content, tokens[i]) && (forall|k: int|
        0 <= k < i ==> !text::contains_text(content, #[trigger] tokens[k])) {
        lemma_first_token(content, tokens, 0, i);
    }
    if forall|k: int| 0 <= k < tokens.len() ==> !text::contains_text(content, #[trigger] tokens[k]) {
        lemma_no_token(content, tokens, 0);
    }
}

proof fn lemma_first_token(content: Seq<char>, tokens: Seq<Seq<char>>, from: int, i: int)
    requires
        0 <= from <= i < tokens.len(),
        text::contains_text(content, tokens[i]),
        forall|k: int| 0 <= k < i ==> !text::contains_text(content, #[trigger] tokens[k]),
    ensures
        search::first_token_in(content, tokens, from) == Some(tokens[i]),
    decreases i - from,
{
    if from < i {
        lemma_first_token(content, tokens, from + 1, i);
    }
}

proof fn lemma_no_token(content: Seq<char>, tokens: Seq<Seq<char>>, from: int)
    requires
        0 <= from <= tokens.len(),
        forall|k: int| 0 <= k < tokens.len() ==> !text::contains_text(content, #[trigger] tokens[k]),
    ensures
        search::first_token_in(content, tokens, from) is None,
    decreases tokens.len() - from,
{
    if from < tokens.len() {
        lemma_no_token(content, tokens, from + 1);
    }
}

/// A text with spaces for its line feeds.
pub open spec fn on_one_line(s: Seq<char>) -> Seq<char> {
    Seq::new(
        s.len(),
        |i: int|
            if s[i] == '\n' {
                ' '
            } else {
                s[i]
            },
    )
}

/// The last `n` characters of a text, or all of it.
pub open spec fn last_chars(s: Seq<char>, n: nat) -> Seq<char> {
    if s.len() <= n {
        s
    } else {
        s.subrange(s.len() - n, s.len() as int)
    }
}

/// The first `n` characters of a text, or all of it.
pub open spec fn first_chars(s: Seq<char>, n: nat) -> Seq<char> {
    if s.len() <= n {
        s
    } else {
        s.subrange(0, n as int)
    }
}

/// Three dots where a text is longer than `n`, and nothing else.
pub open spec fn dots_beyond(s: Seq<char>, n: nat) -> Seq<char> {
    if s.len() > n {
        "..."@
    } else {
        Seq::empty()
    }
}

/// The part of a page around an anchor is up to eighty characters before it, the anchor, and up to
/// eighty characters behind it, on one line. Three dots stand for what is left out on either side.
pub proof fn lemma_excerpt(before: Seq<char>, anchor: Seq<char>, behind: Seq<char>)
    ensures
        search::excerpt(before + anchor + behind, before.len() as int, anchor.len()) == dots_beyond(
            before,
            80,
        ) + on_one_line(last_chars(before, 80)) + on_one_line(anchor) + on_one_line(
            first_chars(behind, 80),
        ) + dots_beyond(behind, 80),
{
    let all = before + anchor + behind;
    let at = before.len() as int;
    let start = if at <= 80 {
        0
    } else {
        at - 80
    };
    let reach = at + anchor.len() + 80;
    let end = if reach <= all.len() {
        reach
    } else {
        all.len() as int
    };
    assert(text::with_char(all.subrange(start, end), '\n', ' ') =~= on_one_line(
        last_chars(before, 80),
    ) + on_one_line(anchor) + on_one_line(first_chars(behind, 80)));
    assert(search::excerpt(all, at, anchor.len()) =~= dots_beyond(before, 80) + on_one_line(
        last_chars(before, 80),
    ) + on_one_line(anchor) + on_one_line(first_chars(behind, 80)) + dots_beyond(behind, 80));
}

/// The bytes of two texts are those of the first and those of the second, and every character takes
/// as many as UTF-8 gives it.
pub proof fn lemma_bytes(a: Seq<char>, b: Seq<char>, c: char)
    ensures
        search::byte_len(a + b) == search::byte_len(a) + search::byte_len(b),
        search::byte_len(seq![c]) == if (c as int) < 0x80 {
            1nat
        } else if (c as int) < 0x800 {
            2
        } else if (c as int) < 0x10000 {
            3
        } else {
            4
        },
    decreases b.len(),
{
    assert(seq![c].drop_last() =~= Seq::<char>::empty());
    assert(search::byte_len(Seq::<char>::empty()) == 0);
    if b.len() == 0 {
        assert(a + b =~= a);
    } else {
        assert((a + b).drop_last() =~= a + b.drop_last());
        lemma_bytes(a, b.drop_last(), c);
    }
}

/// A snippet starts where as many bytes of the page are over as stand before the anchor in the page
/// in lower case, and there is one exactly where a character of the page starts or the page ends
/// there.
pub proof fn lemma_snippet_place(
    content: Seq<char>,
    lower: Seq<char>,
    anchor: Seq<char>,
    anchor_lower: Seq<char>,
    before: Seq<char>,
    behind: Seq<char>,
    at: int,
)
    requires
        lower == before + anchor_lower + behind,
        forall|k: int|
            0 <= k < before.len() ==> !#[trigger] text::occurs_at(lower, anchor_lower, k),
        0 <= at <= content.len(),
    ensures
        search::byte_len(content.take(at)) == search::byte_len(before) ==> search::snippet(
            content,
            lower,
            anchor,
            anchor_lower,
        ) == Some(search::excerpt(content, at, anchor.len())),
        (forall|k: int|
            0 <= k <= content.len() ==> search::byte_len(#[trigger] content.take(k))
                != search::byte_len(before)) ==> search::snippet(
            content,
            lower,
            anchor,
            anchor_lower,
        ) is None,
{
    text_laws::lemma_position(before, anchor_lower, behind);
    assert(lower.take(before.len() as int) =~= before);
    let bytes = search::byte_len(before) as int;
    lemma_chars_in_back(content, bytes, 0);
    assert(content.take(0) =~= Seq::<char>::empty());
    if search::byte_len(content.take(at)) == search::byte_len(before) {
        lemma_chars_in_of(content, 0, at);
    }
    match search::chars_in(content, bytes, 0) {
        Some(k) => {
            assert(search::byte_len(content.take(k)) == search::byte_len(before));
        },
        None => {},
    }
}

proof fn lemma_chars_in_of(s: Seq<char>, from: int, to: int)
    requires
        0 <= from <= to <= s.len(),
    ensures
        search::chars_in(
            s,
            search::byte_len(s.take(to)) - search::byte_len(s.take(from)),
            from,
        ) == Some(to - from),
        search::byte_len(s.take(from)) <= search::byte_len(s.take(to)),
    decreases to - from,
{
    if from < to {
        lemma_chars_in_of(s, from + 1, to);
        assert(s.take(from + 1).drop_last() =~= s.take(from));
    }
}

proof fn lemma_chars_in_back(s: Seq<char>, bytes: int, from: int)
    requires
        0 <= from <= s.len(),
        bytes >= 0,
    ensures
        search::chars_in(s, bytes, from) matches Some(k) ==> 0 <= k <= s.len() - from
            && search::byte_len(s.take(from + k)) == search::byte_len(s.take(from)) + bytes,
    decreases s.len() - from,
{
    if bytes > 0 && from < s.len() && bytes >= search::byte_width(s[from]) {
        lemma_chars_in_back(s, bytes - search::byte_width(s[from]), from + 1);
        assert(s.take(from + 1).drop_last() =~= s.take(from));
    }
}

/// Where a page and what its snippet is built around are in lower case already, the snippet holds
/// the first place of it in the page, with its context.
pub proof fn lemma_snippet_holds_the_anchor(
    before: Seq<char>,
    anchor: Seq<char>,
    behind: Seq<char>,
)
    requires
        forall|k: int|
            0 <= k < before.len() ==> !#[trigger] text::occurs_at(
                before + anchor + behind,
                anchor,
                k,
            ),
    ensures
        ({
            let content = before + anchor + behind;
            search::snippet(content, content, anchor, anchor) == Some(
                dots_beyond(before, 80) + on_one_line(last_chars(before, 80)) + on_one_line(anchor)
                    + on_one_line(first_chars(behind, 80)) + dots_beyond(behind, 80),
            )
        }),
{
    let content = before + anchor + behind;
    assert(content.take(before.len() as int) =~= before);
    lemma_snippet_place(
        content,
        content,
        anchor,
        anchor,
        before,
        behind,
        before.len() as int,
    );
    lemma_excerpt(before, anchor, behind);
}

/// A short text is shown as it is, and of a long one the first hundred and sixty characters with
/// three dots behind them.
pub proof fn lemma_cut(s: Seq<char>, rest: Seq<char>)
    ensures
        s.len() <= 160 ==> search::cut(s) == s,
        s.len() == 160 && rest.len() > 0 ==> search::cut(s + rest) == s + "..."@,
{
    if s.len() == 160 {
        assert((s + rest).take(160) =~= s);
    }
}

/// Blank lines and lines of three hyphens do not show in the opening of a page, and a page of one
/// other line opens with it.
pub proof fn lemma_opening(line: Seq<char>, rest: Seq<char>)
    requires
        !line.contains('\n'),
        !line.contains('\r'),
    ensures
        text::trimmed(line).len() == 0 || text::trimmed(line) == "---"@ ==> search::opening(
            line + seq!['\n'] + rest,
        ) == search::opening(rest),
        text::trimmed(line).len() > 0 && text::trimmed(line) != "---"@ ==> search::opening(line)
            == search::cut(line),
{
    let keep = |l: Seq<char>| search::is_text_line(l);
    text_laws::lemma_lines(line, rest);
    let rests = text::line_list(rest);
    reveal(Seq::filter);
    if line.len() > 0 {
        assert(line.contains(line.last()));
    }
    lemma_filter_first(line, rests, keep);
    if text::trimmed(line).len() > 0 && text::trimmed(line) != "---"@ {
        assert(line.len() > 0) by {
            if line.len() == 0 {
                assert(text::trimmed(line).len() == 0);
            }
        }
        lemma_filter_first(line, Seq::empty(), keep);
        assert(seq![line] + Seq::<Seq<char>>::empty() =~= seq![line]);
        assert(search::text_lines(line) =~= seq![line]);
        assert(text::joined(seq![line], " "@) == line);
    }
}

proof fn lemma_filter_first(x: Seq<char>, rest: Seq<Seq<char>>, keep: spec_fn(Seq<char>) -> bool)
    ensures
        (seq![x] + rest).filter(keep) == (if keep(x) {
            seq![x]
        } else {
            Seq::empty()
        }) + rest.filter(keep),
    decreases rest.len(),
{
    reveal(Seq::filter);
    let all = seq![x] + rest;
    let head = if keep(x) {
        seq![x]
    } else {
        Seq::empty()
    };
    if rest.len() == 0 {
        assert(all =~= seq![x]);
        assert(seq![x].drop_last() =~= Seq::<Seq<char>>::empty());
        assert(seq![x].last() == x);
        assert(Seq::<Seq<char>>::empty().filter(keep) =~= Seq::empty());
        assert(all.filter(keep) =~= head + rest.filter(keep));
    } else {
        assert(all.drop_last() =~= seq![x] + rest.drop_last());
        assert(all.last() == rest.last());
        lemma_filter_first(x, rest.drop_last(), keep);
        assert(all.filter(keep) =~= head + rest.filter(keep));
    }
}

/// The opening of a page holds the lines that show, six at most, in their order and with spaces
/// between them: a further line shows behind fewer than six, and not behind six.
pub proof fn lemma_opening_lines(lines: Seq<Seq<char>>, line: Seq<char>)
    requires
        lines.len() > 0,
    ensures
        lines.len() < 6 ==> text::joined(search::first_texts(lines.push(line), 6), " "@)
            == text::joined(search::first_texts(lines, 6), " "@) + " "@ + line,
        lines.len() >= 6 ==> search::first_texts(lines.push(line), 6) == search::first_texts(
            lines,
            6,
        ),
{
    text_laws::lemma_joined(lines, line, " "@);
    if lines.len() >= 6 {
        assert(search::first_texts(lines.push(line), 6) =~= search::first_texts(lines, 6));
    }
}

/// The snippet of a page that the vector index found is the text of the part on one line, cut off
/// where it is long, with the heading of the part before it where there is one.
pub proof fn lemma_part_snippet(chunk: Seq<char>, heading: Seq<char>)
    requires
        chunk.len() > 0,
        !text::white_space(chunk[0]),
        !text::white_space(chunk.last()),
        heading.len() > 0,
        !text::white_space(heading[0]),
        !text::white_space(heading.last()),
    ensures
        search::part_snippet(chunk, Seq::empty()) == search::cut(on_one_line(chunk)),
        search::part_snippet(chunk, heading) == heading + ": "@ + search::cut(on_one_line(chunk)),
        search::part_snippet(Seq::empty(), heading) == Seq::<char>::empty(),
{
    text::lemma_trimmed_same(chunk);
    text::lemma_trimmed_same(heading);
    assert(text::with_char(chunk, '\n', ' ') =~= on_one_line(chunk));
    let none = Seq::<char>::empty();
    assert(text::trimmed(none) == none);
    assert(text::with_char(none, '\n', ' ') =~= none);
}

// ---------------------------------------------------------------------------------------
// Results
// ---------------------------------------------------------------------------------------

/// A request is given as many results as it asks for, at least one and fifty at most, and twenty
/// where it does not say.
pub proof fn lemma_result_limit(k: usize)
    ensures
        search::result_limit(None) == 20,
        1 <= search::result_limit(Some(k)) <= 50,
        1 <= k <= 50 ==> search::result_limit(Some(k)) == k,
        k > 50 ==> search::result_limit(Some(k)) == 50,
{
}

/// A page that is linked to those found counts fifteen hundredths of the best of them: less than
/// any page with as many points, and more than a page with less than that share.
pub proof fn lemma_linked_pages_count_less(best: u128, points: u128)
    ensures
        100 * search::weight(SearchScore::Graph(best)) == 15 * search::weight(
            SearchScore::Keyword(best),
        ),
        search::weight(SearchScore::Keyword(points)) < search::weight(SearchScore::Keyword(best))
            <==> points < best,
        best > 0 && points >= best ==> search::weight(SearchScore::Keyword(points))
            > search::weight(SearchScore::Graph(best)),
        search::weight(SearchScore::Graph(best)) > search::weight(SearchScore::Keyword(points))
            <==> 15 * best > 100 * points,
{
}

/// The best points of the pages found are those of one of them, and no page has more. Where no
/// page has points there are none.
pub proof fn lemma_best_points(pages: Seq<FoundPage>)
    ensures
        forall|i: int|
            #![trigger pages[i]]
            0 <= i < pages.len() ==> (pages[i].score matches SearchScore::Keyword(points) ==> points
                <= search::best_points(pages)),
        search::best_points(pages) > 0 ==> exists|i: int|
            0 <= i < pages.len() && (#[trigger] pages[i]).score == SearchScore::Keyword(
                search::best_points(pages) as u128,
            ),
        search::best_points(pages) <= u128::MAX,
    decreases pages.len(),
{
    if pages.len() > 0 {
        let rest = pages.drop_last();
        lemma_best_points(rest);
        let best = search::best_points(pages);
        assert forall|i: int|
            #![trigger pages[i]]
            0 <= i < pages.len() implies (pages[i].score matches SearchScore::Keyword(points)
            ==> points <= best) by {
            if i < rest.len() {
                assert(rest[i] == pages[i]);
            }
        }
        if best > 0 {
            if best == search::best_points(rest) {
                let i = choose|i: int|
                    0 <= i < rest.len() && (#[trigger] rest[i]).score == SearchScore::Keyword(
                        best as u128,
                    );
                assert(pages[i].score == SearchScore::Keyword(best as u128));
            } else {
                assert(pages[pages.len() - 1].score == SearchScore::Keyword(best as u128));
            }
        }
    }
}

/// The results are the pages found with the most points, and pages with as many points come in the
/// order of their paths: a page that is left out is behind every page that is not.
pub proof fn lemma_best_results_first(pages: Seq<FoundPage>, limit: nat)
    ensures
        ({
            let all = search::placed_pages(order::sorted_list(search::by_score(pages)));
            &&& search::picked(pages, all, limit).len() == if pages.len() <= limit {
                pages.len()
            } else {
                limit
            }
            &&& forall|i: int, j: int|
                0 <= i < j < all.len() ==> {
                    let (a, b) = (pages[#[trigger] all[i]], pages[#[trigger] all[j]]);
                    search::weight(a.score) > search::weight(b.score) || (search::weight(a.score)
                        == search::weight(b.score) && text::text_le(a.path, b.path))
                }
            &&& forall|i: int| 0 <= i < all.len() ==> 0 <= #[trigger] all[i] < pages.len()
            &&& all.no_duplicates()
            &&& all.len() == pages.len()
            &&& forall|i: int|
                0 <= i < search::picked(pages, all, limit).len() ==> #[trigger] search::picked(
                    pages,
                    all,
                    limit,
                )[i] == pages[all[i]]
        }),
{
    lemma_placed(search::by_score(pages));
}

/// Pages with keys are ordered by key, the largest first, and by their path.
pub proof fn lemma_best_keys_first(pages: Seq<FoundPage>, keys: Seq<u64>)
    requires
        keys.len() == pages.len(),
    ensures
        ({
            let all = search::placed_pages(order::sorted_list(search::by_key(pages, keys)));
            &&& forall|i: int, j: int|
                0 <= i < j < all.len() ==> {
                    let (a, b) = (#[trigger] all[i], #[trigger] all[j]);
                    keys[a] > keys[b] || (keys[a] == keys[b] && text::text_le(
                        pages[a].path,
                        pages[b].path,
                    ))
                }
            &&& forall|i: int| 0 <= i < all.len() ==> 0 <= #[trigger] all[i] < pages.len()
            &&& all.no_duplicates()
            &&& all.len() == pages.len()
        }),
{
    lemma_placed(search::by_key(pages, keys));
}

/// Pages of the vector index are ordered by key, the largest first, and by their id.
pub proof fn lemma_best_ids_first(ids: Seq<Seq<char>>, keys: Seq<u64>)
    requires
        keys.len() == ids.len(),
    ensures
        ({
            let all = search::placed_pages(order::sorted_list(search::texts_by_key(ids, keys)));
            &&& forall|i: int, j: int|
                0 <= i < j < all.len() ==> {
                    let (a, b) = (#[trigger] all[i], #[trigger] all[j]);
                    keys[a] > keys[b] || (keys[a] == keys[b] && text::text_le(ids[a], ids[b]))
                }
            &&& forall|i: int| 0 <= i < all.len() ==> 0 <= #[trigger] all[i] < ids.len()
            &&& all.no_duplicates()
            &&& all.len() == ids.len()
        }),
{
    lemma_placed(search::texts_by_key(ids, keys));
}

proof fn lemma_placed(placed: Seq<search::Placed>)
    requires
        forall|i: int| 0 <= i < placed.len() ==> (#[trigger] placed[i]).page == i,
    ensures
        ({
            let list = order::sorted_list(placed);
            let all = search::placed_pages(list);
            &&& all.len() == placed.len()
            &&& all.no_duplicates()
            &&& forall|i: int|
                0 <= i < all.len() ==> 0 <= #[trigger] all[i] < placed.len() && list[i]
                    == placed[all[i]]
            &&& forall|i: int, j: int|
                0 <= i < j < all.len() ==> (placed[#[trigger] all[i]].weight
                    > placed[#[trigger] all[j]].weight || (placed[all[i]].weight
                    == placed[all[j]].weight && text::text_le(
                    placed[all[i]].text,
                    placed[all[j]].text,
                )))
        }),
{
    let list = order::sorted_list(placed);
    let all = search::placed_pages(list);
    order::lemma_sorted_list(placed);
    order::lemma_sorted_list_contains(placed);
    assert forall|i: int| 0 <= i < all.len() implies 0 <= #[trigger] all[i] < placed.len()
        && list[i] == placed[all[i]] by {
        assert(list.contains(list[i]));
        assert(placed.contains(list[i]));
        let k = choose|k: int| 0 <= k < placed.len() && placed[k] == list[i];
        assert(placed[k].page == k);
    }
    assert(placed.no_duplicates()) by {
        assert forall|i: int, j: int| 0 <= i < placed.len() && 0 <= j < placed.len() && i != j
            implies placed[i] != placed[j] by {
            assert(placed[i].page != placed[j].page);
        }
    }
    placed.lemma_multiset_has_no_duplicates();
    assert(list.no_duplicates()) by {
        list.lemma_multiset_has_no_duplicates_conv();
    }
    assert forall|i: int, j: int| 0 <= i < all.len() && 0 <= j < all.len() && i != j implies all[i]
        != all[j] by {
        assert(list[i] != list[j]);
        assert(list[i] == placed[all[i]] && list[j] == placed[all[j]]);
    }
    assert forall|i: int, j: int| 0 <= i < j < all.len() implies (placed[#[trigger] all[i]].weight
        > placed[#[trigger] all[j]].weight || (placed[all[i]].weight == placed[all[j]].weight
        && text::text_le(placed[all[i]].text, placed[all[j]].text))) by {
        assert(order::Ranked::le(list[i], list[j]));
    }
}

/// A page counts with its place in the ranking by points and its place in the ranking by the vector
/// index, both counted from one, and it has no place in a ranking that does not name it. A page
/// without a place keeps the score that it has.
pub proof fn lemma_fused(page: FoundPage, token: usize, vector: usize)
    requires
        token < usize::MAX,
        vector < usize::MAX,
    ensures
        ({
            let both = search::fused(page, Some(token as int), Some(vector as int));
            &&& both.score == SearchScore::Fused(
                Some((token + 1) as usize),
                Some((vector + 1) as usize),
            )
            &&& both.vector == Some(vector)
            &&& search::fused(page, Some(token as int), None).score == SearchScore::Fused(
                Some((token + 1) as usize),
                None,
            )
            &&& search::fused(page, Some(token as int), None).vector is None
            &&& search::fused(page, None, Some(vector as int)).score == SearchScore::Fused(
                None,
                Some((vector + 1) as usize),
            )
            &&& search::fused(page, None, Some(vector as int)).vector == Some(vector)
            &&& search::fused(page, None, None) == page
            &&& both.path == page.path && both.title == page.title && both.snippet == page.snippet
                && both.images == page.images && both.content == page.content && both.title_match
                == page.title_match
        }),
{
}

/// The place of a text in a list is the last one where it stands, and it has a place exactly where
/// it stands in the list.
pub proof fn lemma_last_place(list: Seq<Seq<char>>, x: Seq<char>)
    ensures
        match search::last_place(list, x, list.len() as int) {
            Some(i) => 0 <= i < list.len() && list[i] == x && forall|k: int|
                i < k < list.len() ==> #[trigger] list[k] != x,
            None => !list.contains(x),
        },
{
    lemma_last_place_of(list, x, list.len() as int);
}

proof fn lemma_last_place_of(list: Seq<Seq<char>>, x: Seq<char>, k: int)
    requires
        0 <= k <= list.len(),
    ensures
        match search::last_place(list, x, k) {
            Some(i) => 0 <= i < k && list[i] == x && forall|j: int|
                i < j < k ==> #[trigger] list[j] != x,
            None => forall|j: int| 0 <= j < k ==> #[trigger] list[j] != x,
        },
    decreases k,
{
    if k > 0 {
        lemma_last_place_of(list, x, k - 1);
    }
}

/// A page that the vector index ranks is added exactly where no page found has its id and a page of
/// the wiki does. Of several pages of the wiki with the id it is the last one, and it is added once,
/// at the first place that it is ranked at.
pub proof fn lemma_vector_only(
    pages: Seq<FoundPage>,
    ids: Seq<Seq<char>>,
    list: Seq<Seq<char>>,
    place: int,
    path: int,
)
    ensures
        search::vector_only(pages, ids, list, ids.len() as int).contains((place, path)) <==> {
            &&& 0 <= place < ids.len()
            &&& 0 <= path < list.len()
            &&& paths::path_stem(list[path]) == ids[place]
            &&& forall|k: int|
                path < k < list.len() ==> paths::path_stem(#[trigger] list[k]) != ids[place]
            &&& forall|i: int|
                0 <= i < pages.len() ==> paths::path_stem((#[trigger] pages[i]).path) != ids[place]
            &&& forall|k: int| 0 <= k < place ==> #[trigger] ids[k] != ids[place]
        },
{
    lemma_vector_only_of(pages, ids, list, ids.len() as int, place, path);
}

proof fn lemma_vector_only_of(
    pages: Seq<FoundPage>,
    ids: Seq<Seq<char>>,
    list: Seq<Seq<char>>,
    k: int,
    place: int,
    path: int,
)
    requires
        0 <= k <= ids.len(),
    ensures
        search::vector_only(pages, ids, list, k).contains((place, path)) <==> {
            &&& 0 <= place < k
            &&& 0 <= path < list.len()
            &&& paths::path_stem(list[path]) == ids[place]
            &&& forall|x: int|
                path < x < list.len() ==> paths::path_stem(#[trigger] list[x]) != ids[place]
            &&& forall|i: int|
                0 <= i < pages.len() ==> paths::path_stem((#[trigger] pages[i]).path) != ids[place]
            &&& forall|x: int| 0 <= x < place ==> #[trigger] ids[x] != ids[place]
        },
    decreases k,
{
    if k > 0 {
        lemma_vector_only_of(pages, ids, list, k - 1, place, path);
        let id = ids[k - 1];
        let before = search::vector_only(pages, ids, list, k - 1);
        let all = search::vector_only(pages, ids, list, k);
        lemma_last_stem(list, list.len() as int, id);
        let earlier = ids.take(k - 1);
        assert(earlier.contains(id) <==> exists|x: int| 0 <= x < k - 1 && #[trigger] ids[x] == id)
            by {
            if earlier.contains(id) {
                let x = choose|x: int| 0 <= x < earlier.len() && earlier[x] == id;
                assert(ids[x] == id);
            }
            if exists|x: int| 0 <= x < k - 1 && #[trigger] ids[x] == id {
                let x = choose|x: int| 0 <= x < k - 1 && #[trigger] ids[x] == id;
                assert(earlier[x] == id);
            }
        }
        match search::last_with_stem(list, list.len() as int, id) {
            Some(at) => {
                let added = (k - 1, at);
                if all != before {
                    assert(all[before.len() as int] == added);
                    if before.contains((place, path)) {
                        let x = choose|x: int| 0 <= x < before.len() && before[x] == (place, path);
                        assert(all[x] == (place, path));
                    }
                    if all.contains((place, path)) && !before.contains((place, path)) {
                        let x = choose|x: int| 0 <= x < all.len() && all[x] == (place, path);
                        if x < before.len() {
                            assert(before[x] == (place, path));
                        }
                    }
                }
            },
            None => {},
        }
    }
}

proof fn lemma_last_stem(list: Seq<Seq<char>>, k: int, id: Seq<char>)
    requires
        0 <= k <= list.len(),
    ensures
        match search::last_with_stem(list, k, id) {
            Some(i) => 0 <= i < k && paths::path_stem(list[i]) == id && forall|j: int|
                i < j < k ==> paths::path_stem(#[trigger] list[j]) != id,
            None => forall|j: int| 0 <= j < k ==> paths::path_stem(#[trigger] list[j]) != id,
        },
    decreases k,
{
    if k > 0 {
        lemma_last_stem(list, k - 1, id);
    }
}

/// How a search was made shows what was found: `keyword` by words alone, `graph` where linked pages
/// were added, and with pages of the vector index `hybrid`, or `vector` where no word was found.
pub proof fn lemma_search_mode(token_hits: nat, graph_hits: nat, vector_hits: nat)
    ensures
        ({
            let mode = search::search_mode(token_hits, graph_hits, vector_hits);
            &&& vector_hits > 0 && token_hits > 0 ==> mode == "hybrid"@
            &&& vector_hits > 0 && token_hits == 0 ==> mode == "vector"@
            &&& vector_hits == 0 && graph_hits > 0 ==> mode == "graph"@
            &&& vector_hits == 0 && graph_hits == 0 ==> mode == "keyword"@
        }),
{
}

/// An embedding is taken where it has between one and 65536 numbers, all of them finite.
pub proof fn lemma_embeddings(dimensions: nat, finite: bool)
    ensures
        search::embedding_error(dimensions, finite) is None <==> 1 <= dimensions <= 65536 && finite,
{
}

/// A page of a wiki is a file whose name ends in `.md`, with something before it.
pub proof fn lemma_pages(kind: crate::files::EntryKind, stem: Seq<char>)
    requires
        stem.len() > 0,
        !stem.contains('/'),
    ensures
        search::is_page(kind, stem + ".md"@) <==> kind == crate::files::EntryKind::File,
{
    reveal_strlit(".md");
    reveal_strlit("md");
    reveal_strlit("..");
    let name = stem + ".md"@;
    assert(name.len() == stem.len() + 3);
    assert(name[stem.len() as int] == '.');
    assert(name.last() == 'd');
    lemma_extension(name, stem.len() as int);
    assert(name.subrange(stem.len() as int + 1, name.len() as int) =~= "md"@);
}

proof fn lemma_extension(name: Seq<char>, dot: int)
    requires
        0 < dot < name.len(),
        name[dot] == '.',
        forall|k: int| dot < k < name.len() ==> #[trigger] name[k] != '.',
        dot + 1 < name.len(),
    ensures
        paths::extension(name) == Some(name.subrange(dot + 1, name.len() as int)),
{
    reveal_strlit("..");
    lemma_last_dot(name, dot, name.len() as int);
    assert(name != ".."@) by {
        assert(name.last() != '.');
    }
}

proof fn lemma_last_dot(name: Seq<char>, dot: int, end: int)
    requires
        0 <= dot < end <= name.len(),
        name[dot] == '.',
        forall|k: int| dot < k < name.len() ==> #[trigger] name[k] != '.',
    ensures
        paths::last_dot(name, end) == Some(dot),
    decreases end,
{
    if end - 1 > dot {
        lemma_last_dot(name, dot, end - 1);
    }
}

/// The words that are too common to be looked for.
pub open spec fn stop_words() -> Seq<Seq<char>> {
    seq![
        "的"@,
        "是"@,
        "了"@,
        "什么"@,
        "在"@,
        "有"@,
        "和"@,
        "与"@,
        "对"@,
        "从"@,
        "the"@,
        "is"@,
        "a"@,
        "an"@,
        "what"@,
        "how"@,
        "are"@,
        "was"@,
        "were"@,
        "do"@,
        "does"@,
        "did"@,
        "be"@,
        "been"@,
        "being"@,
        "have"@,
        "has"@,
        "had"@,
        "it"@,
        "its"@,
        "in"@,
        "on"@,
        "at"@,
        "to"@,
        "for"@,
        "of"@,
        "with"@,
        "by"@,
        "this"@,
        "that"@,
        "these"@,
        "those"@,
    ]
}

/// A word is passed over in a query exactly where it is one of the common ones.
pub proof fn lemma_stop_words(word: Seq<char>)
    ensures
        search::is_stop(word) <==> stop_words().contains(word),
{
    assert(stop_words()[0] == "的"@);
    assert(stop_words()[1] == "是"@);
    assert(stop_words()[2] == "了"@);
    assert(stop_words()[3] == "什么"@);
    assert(stop_words()[4] == "在"@);
    assert(stop_words()[5] == "有"@);
    assert(stop_words()[6] == "和"@);
    assert(stop_words()[7] == "与"@);
    assert(stop_words()[8] == "对"@);
    assert(stop_words()[9] == "从"@);
    assert(stop_words()[10] == "the"@);
    assert(stop_words()[11] == "is"@);
    assert(stop_words()[12] == "a"@);
    assert(stop_words()[13] == "an"@);
    assert(stop_words()[14] == "what"@);
    assert(stop_words()[15] == "how"@);
    assert(stop_words()[16] == "are"@);
    assert(stop_words()[17] == "was"@);
    assert(stop_words()[18] == "were"@);
    assert(stop_words()[19] == "do"@);
    assert(stop_words()[20] == "does"@);
    assert(stop_words()[21] == "did"@);
    assert(stop_words()[22] == "be"@);
    assert(stop_words()[23] == "been"@);
    assert(stop_words()[24] == "being"@);
    assert(stop_words()[25] == "have"@);
    assert(stop_words()[26] == "has"@);
    assert(stop_words()[27] == "had"@);
    assert(stop_words()[28] == "it"@);
    assert(stop_words()[29] == "its"@);
    assert(stop_words()[30] == "in"@);
    assert(stop_words()[31] == "on"@);
    assert(stop_words()[32] == "at"@);
    assert(stop_words()[33] == "to"@);
    assert(stop_words()[34] == "for"@);
    assert(stop_words()[35] == "of"@);
    assert(stop_words()[36] == "with"@);
    assert(stop_words()[37] == "by"@);
    assert(stop_words()[38] == "this"@);
    assert(stop_words()[39] == "that"@);
    assert(stop_words()[40] == "these"@);
    assert(stop_words()[41] == "those"@);
    if stop_words().contains(word) {
        let i = choose|i: int| 0 <= i < stop_words().len() && stop_words()[i] == word;
        assert(0 <= i < 42);
    }
}

/// The opening of a page is made of its first six lines with text, or of all of them where there are
/// no more.
pub proof fn lemma_opening_of_six(content: Seq<char>)
    ensures
        ({
            let lines = search::text_lines(content);
            &&& lines.len() <= 6 ==> search::opening(content) == search::cut(
                text::joined(lines, " "@),
            )
            &&& lines.len() > 6 ==> search::opening(content) == search::cut(
                text::joined(lines.take(6), " "@),
            )
        }),
{
}

/// A file is a page of the wiki only where its name ends with `.md`.
pub proof fn lemma_no_page(kind: EntryKind, stem: Seq<char>, extension: Seq<char>)
    requires
        !extension.contains('.'),
        extension != "md"@,
    ensures
        stem.len() > 0 ==> !search::is_page(kind, stem + seq!['.'] + extension),
        !search::is_page(kind, extension),
        !search::is_page(kind, seq!['.'] + extension),
{
    path_laws::lemma_stem(stem, extension);
}

/// Whether an entry stops the walk through the wiki: it is a symlink, or walking on failed.
pub open spec fn stops_walk(e: WalkedEntry) -> bool {
    match e {
        WalkedEntry::Failed(_) => true,
        WalkedEntry::Found { kind, .. } => kind == EntryKind::Symlink,
    }
}

/// Whether an entry is a page of the wiki.
pub open spec fn is_page_entry(e: WalkedEntry) -> bool {
    match e {
        WalkedEntry::Failed(_) => false,
        WalkedEntry::Found { path, kind } => path@.len() > 0 && search::is_page(
            kind,
            path@.last(),
        ),
    }
}

/// How many pages stand among some entries.
pub open spec fn page_count(entries: Seq<WalkedEntry>) -> nat
    decreases entries.len(),
{
    if entries.len() == 0 {
        0
    } else {
        page_count(entries.drop_last()) + if is_page_entry(entries.last()) {
            1nat
        } else {
            0
        }
    }
}

/// The pages of a wiki are found, each of them, where there is no symlink, walking does not fail and
/// there are no more than ten thousand. Otherwise the wiki is refused.
pub proof fn lemma_wiki_walk(entries: Seq<WalkedEntry>, k: int)
    requires
        0 <= k <= entries.len(),
    ensures
        search::walked(entries, k) is Ok <==> page_count(entries.take(k)) <= 10_000 && forall|i: int|
            0 <= i < k ==> !stops_walk(#[trigger] entries[i]),
        search::walked(entries, k) matches Ok(pages) ==> pages.len() == page_count(entries.take(k)),
    decreases k,
{
    if k > 0 {
        lemma_wiki_walk(entries, k - 1);
        assert(entries.take(k).drop_last() =~= entries.take(k - 1));
        assert(entries.take(k).last() == entries[k - 1]);
        let e = entries[k - 1];
        lemma_no_name_is_no_page(EntryKind::File);
        if let WalkedEntry::Found { path, kind } = e {
            lemma_no_name_is_no_page(kind);
            assert(search::is_page(kind, search::last_name(path@)) <==> is_page_entry(e));
        }
        if stops_walk(e) {
            assert(search::walked(entries, k) is Err);
        } else if (forall|i: int| 0 <= i < k - 1 ==> !stops_walk(#[trigger] entries[i])) {
            assert forall|i: int| 0 <= i < k implies !stops_walk(#[trigger] entries[i]) by {
                if i == k - 1 {
                    assert(entries[i] == e);
                }
            }
        }
    }
}

/// What has no name is no page.
proof fn lemma_no_name_is_no_page(kind: EntryKind)
    ensures
        !search::is_page(kind, Seq::empty()),
{
    reveal_strlit("md");
    path_laws::lemma_stem(Seq::empty(), Seq::empty());
    assert("md"@.len() == 2);
}

/// The pages of a wiki come in the order of their paths, and a wiki that is not there has none.
pub proof fn lemma_wiki_files_in_order(entries: Seq<WalkedEntry>, i: int, j: int)
    ensures
        search::wiki_files(None, entries) == Ok::<Seq<paths::PathOrder>, search::ContentError>(
            Seq::empty(),
        ),
        search::wiki_files(Some(EntryKind::Symlink), entries) is Err,
        search::wiki_files(Some(EntryKind::File), entries) is Err,
        search::wiki_files(Some(EntryKind::Directory), entries) matches Ok(pages) ==> (0 <= i < j
            < pages.len() ==> paths::parts_le(pages[i].parts, pages[j].parts)),
{
    if let Ok(pages) = search::walked(entries, entries.len() as int) {
        let list = order::sorted_list(pages);
        order::lemma_sorted_list(pages);
        if 0 <= i < j < list.len() {
            assert(list[i].le(list[j]));
        }
    }
}

/// What a query is searched for: without the separators around it as a phrase, and for its tokens.
/// Where it has none, the whole of it is the only one.
pub proof fn lemma_plan(
    plan: SearchPlan,
    query: Seq<char>,
    a: Seq<char>,
    phrase: Seq<char>,
    b: Seq<char>,
    token: Seq<char>,
)
    requires
        plan.is_of(query, a + phrase + b),
        text_laws::all_in(a, CharSet::QuerySeparator),
        text_laws::all_in(b, CharSet::QuerySeparator),
        phrase.len() > 0 ==> !text::query_separator(phrase[0]) && !text::query_separator(
            phrase.last(),
        ),
    ensures
        plan.query@ == query,
        plan.phrase@ == phrase,
        search::is_query_token(a + phrase + b, token) ==> tokens_of(plan).contains(token),
        tokens_of(plan).contains(token) ==> search::is_query_token(a + phrase + b, token) || (token
            == a + phrase + b && tokens_of(plan).len() == 1),
        (forall|t: Seq<char>| !#[trigger] search::is_query_token(a + phrase + b, t))
            ==> tokens_of(plan) == seq![a + phrase + b],
{
    text_laws::lemma_trimmed_around(a, phrase, b, CharSet::QuerySeparator);
}

/// A vector index is asked for three parts for each result, and for thirty at least. As many of its
/// pages are considered as results are given, and ten at least.
pub proof fn lemma_wanted(limit: nat)
    ensures
        search::wanted_chunks(limit) >= 30 && search::wanted_chunks(limit) >= 3 * limit,
        search::wanted_chunks(limit) == 30 || search::wanted_chunks(limit) == 3 * limit,
        search::wanted_pages(limit) >= 10 && search::wanted_pages(limit) >= limit,
        search::wanted_pages(limit) == 10 || search::wanted_pages(limit) == limit,
{
}

} // verus!
