//! Searching the pages of a wiki.
//!
//! A query is taken apart into tokens. Every page is scored by the tokens and the phrase of the
//! query, pages linked to those found and pages near in a vector index may join them, and the
//! results are put in order.

use crate::files;
use crate::files::{EntryKind, FileServiceError};
use crate::markdown;
use crate::order;
use crate::order::{Ordered, Ranked, TextSet};
use crate::outside;
use crate::paths;
use crate::paths::RelativePath;
use crate::text;
use crate::text::CharSet;
use vstd::prelude::*;
use vstd::slice::slice_subrange;

pub use crate::markdown::{extract_image_refs, extract_title, SearchImageRef};

verus! {

// ---------------------------------------------------------------------------------------
// Limits
// ---------------------------------------------------------------------------------------

/// How many results are given where the request does not say.
pub const DEFAULT_RESULTS: usize = 20;

/// How many results are given at most.
pub const MAX_RESULTS: usize = 50;

/// How many pages a wiki may have to be searched.
pub const MAX_SEARCH_FILES: usize = 10_000;

/// How many dimensions an embedding may have.
pub const MAX_EMBEDDING_DIMENSIONS: usize = 65_536;

/// How many characters of context a snippet has on each side.
pub const SNIPPET_CONTEXT: usize = 80;

// ---------------------------------------------------------------------------------------
// Errors
// ---------------------------------------------------------------------------------------

/// Why a request for the content of a project is refused.
#[derive(Debug)]
pub enum ContentServiceError {
    /// The project cannot be used.
    Project(FileServiceError),
    /// The request is not acceptable.
    InvalidInput(String),
    /// The content of the project is not acceptable.
    InvalidProject(String),
    /// Something failed that the request does not answer for.
    Internal(String),
}

/// What an error stands for.
pub enum ContentError {
    Project(files::FileError),
    InvalidInput(Seq<char>),
    InvalidProject(Seq<char>),
    Internal(Seq<char>),
}

impl View for ContentServiceError {
    type V = ContentError;

    open spec fn view(&self) -> ContentError {
        match self {
            ContentServiceError::Project(e) => ContentError::Project(e@),
            ContentServiceError::InvalidInput(m) => ContentError::InvalidInput(m@),
            ContentServiceError::InvalidProject(m) => ContentError::InvalidProject(m@),
            ContentServiceError::Internal(m) => ContentError::Internal(m@),
        }
    }
}

impl ContentServiceError {
    /// The error of a request that is not acceptable.
    pub fn invalid_input(message: &str) -> (r: ContentServiceError)
        ensures
            r@ == ContentError::InvalidInput(message@),
    {
        ContentServiceError::InvalidInput(message.to_string())
    }

    /// The error of a project whose content is not acceptable.
    pub fn invalid_project(message: &str) -> (r: ContentServiceError)
        ensures
            r@ == ContentError::InvalidProject(message@),
    {
        ContentServiceError::InvalidProject(message.to_string())
    }
}

impl From<FileServiceError> for ContentServiceError {
    fn from(error: FileServiceError) -> (r: Self) {
        ContentServiceError::Project(error)
    }
}

impl vstd::std_specs::convert::FromSpecImpl<FileServiceError> for ContentServiceError {
    open spec fn obeys_from_spec() -> bool {
        true
    }

    open spec fn from_spec(error: FileServiceError) -> Self {
        ContentServiceError::Project(error)
    }
}

/// Why an embedding of the given number of dimensions is refused, where it is. `finite` says
/// whether all its numbers are finite.
pub open spec fn embedding_error(dimensions: nat, finite: bool) -> Option<ContentError> {
    if dimensions == 0 {
        Some(ContentError::InvalidInput("queryEmbedding must not be empty"@))
    } else if dimensions > MAX_EMBEDDING_DIMENSIONS {
        Some(ContentError::InvalidInput("queryEmbedding has too many dimensions"@))
    } else if !finite {
        Some(ContentError::InvalidInput("queryEmbedding must contain only finite numbers"@))
    } else {
        None
    }
}

/// Refuses an embedding that is empty, too long, or not made of finite numbers alone.
pub fn validate_embedding(dimensions: usize, finite: bool) -> (r: Result<(), ContentServiceError>)
    ensures
        match r {
            Ok(_) => embedding_error(dimensions as nat, finite) is None,
            Err(e) => embedding_error(dimensions as nat, finite) == Some(e@),
        },
{
    if dimensions == 0 {
        return Err(ContentServiceError::invalid_input("queryEmbedding must not be empty"));
    }
    if dimensions > MAX_EMBEDDING_DIMENSIONS {
        return Err(ContentServiceError::invalid_input("queryEmbedding has too many dimensions"));
    }
    if !finite {
        return Err(
            ContentServiceError::invalid_input("queryEmbedding must contain only finite numbers"),
        );
    }
    Ok(())
}

// ---------------------------------------------------------------------------------------
// Tokens
// ---------------------------------------------------------------------------------------

/// The words that are no tokens.
pub open spec fn is_stop(token: Seq<char>) -> bool {
    ||| token == "的"@
    ||| token == "是"@
    ||| token == "了"@
    ||| token == "什么"@
    ||| token == "在"@
    ||| token == "有"@
    ||| token == "和"@
    ||| token == "与"@
    ||| token == "对"@
    ||| token == "从"@
    ||| token == "the"@
    ||| token == "is"@
    ||| token == "a"@
    ||| token == "an"@
    ||| token == "what"@
    ||| token == "how"@
    ||| token == "are"@
    ||| token == "was"@
    ||| token == "were"@
    ||| token == "do"@
    ||| token == "does"@
    ||| token == "did"@
    ||| token == "be"@
    ||| token == "been"@
    ||| token == "being"@
    ||| token == "have"@
    ||| token == "has"@
    ||| token == "had"@
    ||| token == "it"@
    ||| token == "its"@
    ||| token == "in"@
    ||| token == "on"@
    ||| token == "at"@
    ||| token == "to"@
    ||| token == "for"@
    ||| token == "of"@
    ||| token == "with"@
    ||| token == "by"@
    ||| token == "this"@
    ||| token == "that"@
    ||| token == "these"@
    ||| token == "those"@
}

/// Whether a token is one of the words that are no tokens.
pub fn is_stop_word(t: &[char]) -> (r: bool)
    ensures
        r == is_stop(t@),
{
    text::is_text(t, "的") || text::is_text(t, "是") || text::is_text(t, "了") || text::is_text(
        t,
        "什么",
    ) || text::is_text(t, "在") || text::is_text(t, "有") || text::is_text(t, "和")
        || text::is_text(t, "与") || text::is_text(t, "对") || text::is_text(t, "从")
        || text::is_text(t, "the") || text::is_text(t, "is") || text::is_text(t, "a")
        || text::is_text(t, "an") || text::is_text(t, "what") || text::is_text(t, "how")
        || text::is_text(t, "are") || text::is_text(t, "was") || text::is_text(t, "were")
        || text::is_text(t, "do") || text::is_text(t, "does") || text::is_text(t, "did")
        || text::is_text(t, "be") || text::is_text(t, "been") || text::is_text(t, "being")
        || text::is_text(t, "have") || text::is_text(t, "has") || text::is_text(t, "had")
        || text::is_text(t, "it") || text::is_text(t, "its") || text::is_text(t, "in")
        || text::is_text(t, "on") || text::is_text(t, "at") || text::is_text(t, "to")
        || text::is_text(t, "for") || text::is_text(t, "of") || text::is_text(t, "with")
        || text::is_text(t, "by") || text::is_text(t, "this") || text::is_text(t, "that")
        || text::is_text(t, "these") || text::is_text(t, "those")
}

/// The characters of Chinese, Japanese and Korean writing.
pub open spec fn is_cjk(c: char) -> bool {
    0x3400 <= c as int <= 0x9fff
}

/// Whether a word holds a character of Chinese, Japanese or Korean writing.
pub open spec fn holds_cjk(word: Seq<char>) -> bool {
    exists|i: int| 0 <= i < word.len() && is_cjk(#[trigger] word[i])
}

/// Whether a piece of a query is a word: it has two characters or more and is no stop word.
pub open spec fn is_query_word(piece: Seq<char>) -> bool {
    piece.len() > 1 && !is_stop(piece)
}

/// Whether `token` is a token of the word `word`. A word is a token of itself. A word of three
/// characters or more in Chinese, Japanese or Korean writing has also its pairs of neighbouring
/// characters as tokens, and its single characters that are no stop words.
pub open spec fn is_token_of(word: Seq<char>, token: Seq<char>) -> bool {
    ||| token == word
    ||| holds_cjk(word) && word.len() > 2 && ({
        ||| exists|i: int| 0 <= i < word.len() - 1 && token == #[trigger] word.subrange(i, i + 2)
        ||| exists|i: int|
            0 <= i < word.len() && token == seq![#[trigger] word[i]] && !is_stop(token)
    })
}

/// Whether `token` is a token of the first `k` pieces of a query.
pub open spec fn is_token_of_first(pieces: Seq<Seq<char>>, k: int, token: Seq<char>) -> bool {
    exists|i: int|
        0 <= i < k && is_query_word(#[trigger] pieces[i]) && is_token_of(pieces[i], token)
}

/// Whether `token` is a token of a query in lower case.
pub open spec fn is_query_token(query: Seq<char>, token: Seq<char>) -> bool {
    let pieces = text::pieces(query, CharSet::QuerySeparator);
    is_token_of_first(pieces, pieces.len() as int, token)
}

/// Whether `c` is a character of Chinese, Japanese or Korean writing.
fn cjk(c: char) -> (r: bool)
    ensures
        r == is_cjk(c),
{
    let u: u32 = c as u32;
    0x3400 <= u && u <= 0x9fff
}

/// Whether a word holds a character of Chinese, Japanese or Korean writing.
fn has_cjk(word: &[char]) -> (r: bool)
    ensures
        r == holds_cjk(word@),
{
    let mut i: usize = 0;
    while i < word.len()
        invariant
            i <= word@.len(),
            forall|k: int| 0 <= k < i ==> !is_cjk(#[trigger] word@[k]),
        decreases word@.len() - i,
    {
        if cjk(word[i]) {
            return true;
        }
        i += 1;
    }
    false
}

/// Puts the tokens of the word `word` into a set.
fn add_tokens(word: &Vec<char>, tokens: &mut TextSet)
    requires
        old(tokens).wf(),
    ensures
        final(tokens).wf(),
        forall|t: Seq<char>|
            #[trigger] final(tokens).set().contains(t) <==> old(tokens).set().contains(t)
                || is_token_of(word@, t),
{
    let ghost start = tokens.set();
    let n: usize = word.len();
    if has_cjk(word.as_slice()) && n > 2 {
        let mut i: usize = 0;
        while i < n - 1
            invariant
                i <= n - 1,
                n == word@.len(),
                n > 2,
                tokens.wf(),
                forall|t: Seq<char>|
                    #[trigger] tokens.set().contains(t) <==> start.contains(t) || exists|k: int|
                        0 <= k < i && t == #[trigger] word@.subrange(k, k + 2),
            decreases n - i,
        {
            let ghost before = tokens.set();
            tokens.insert(text::copy(slice_subrange(word.as_slice(), i, i + 2)));
            assert forall|t: Seq<char>|
                #[trigger] tokens.set().contains(t) <==> start.contains(t) || exists|k: int|
                    0 <= k < i + 1 && t == #[trigger] word@.subrange(k, k + 2) by {
                if before.contains(t) && !start.contains(t) {
                    let k = choose|k: int| 0 <= k < i && t == #[trigger] word@.subrange(k, k + 2);
                    assert(t == word@.subrange(k, k + 2));
                }
                if t == word@.subrange(i as int, i + 2) {
                    assert(t == word@.subrange(i as int, i + 2));
                }
            }
            i += 1;
        }
        let ghost pairs = tokens.set();
        i = 0;
        while i < n
            invariant
                i <= n,
                n == word@.len(),
                tokens.wf(),
                forall|t: Seq<char>|
                    #[trigger] tokens.set().contains(t) <==> pairs.contains(t) || exists|k: int|
                        0 <= k < i && t == seq![#[trigger] word@[k]] && !is_stop(t),
            decreases n - i,
        {
            let ghost before = tokens.set();
            let mut single: Vec<char> = Vec::new();
            single.push(word[i]);
            assert(single@ =~= seq![word@[i as int]]);
            if !is_stop_word(single.as_slice()) {
                tokens.insert(single);
            }
            assert forall|t: Seq<char>|
                #[trigger] tokens.set().contains(t) <==> pairs.contains(t) || exists|k: int|
                    0 <= k < i + 1 && t == seq![#[trigger] word@[k]] && !is_stop(t) by {
                if before.contains(t) && !pairs.contains(t) {
                    let k = choose|k: int|
                        0 <= k < i && t == seq![#[trigger] word@[k]] && !is_stop(t);
                    assert(t == seq![word@[k]]);
                }
                if t == seq![word@[i as int]] && !is_stop(t) {
                    assert(t == seq![word@[i as int]]);
                }
            }
            i += 1;
        }
        let ghost singles = tokens.set();
        tokens.insert(text::copy(word.as_slice()));
        assert forall|t: Seq<char>|
            #[trigger] tokens.set().contains(t) <==> start.contains(t) || is_token_of(word@, t) by {
            assert(singles.contains(t) <==> pairs.contains(t) || exists|k: int|
                0 <= k < n && t == seq![#[trigger] word@[k]] && !is_stop(t));
            assert(pairs.contains(t) <==> start.contains(t) || exists|k: int|
                0 <= k < n - 1 && t == #[trigger] word@.subrange(k, k + 2));
        }
    } else {
        tokens.insert(text::copy(word.as_slice()));
    }
}

/// The tokens of a query in lower case.
pub fn tokenize_lowered(query: &[char]) -> (r: TextSet)
    ensures
        r.wf(),
        forall|t: Seq<char>| #[trigger] r.set().contains(t) <==> is_query_token(query@, t),
{
    let parts = text::split(query, CharSet::QuerySeparator);
    let ghost pieces = text::texts(parts@);
    let mut tokens = TextSet::new();
    let mut i: usize = 0;
    while i < parts.len()
        invariant
            i <= parts@.len(),
            pieces == text::texts(parts@),
            tokens.wf(),
            forall|t: Seq<char>|
                #[trigger] tokens.set().contains(t) <==> is_token_of_first(pieces, i as int, t),
        decreases parts@.len() - i,
    {
        let ghost before = tokens.set();
        assert(pieces[i as int] == parts@[i as int]@);
        if parts[i].len() > 1 && !is_stop_word(parts[i].as_slice()) {
            add_tokens(&parts[i], &mut tokens);
        }
        assert forall|t: Seq<char>|
            #[trigger] tokens.set().contains(t) <==> is_token_of_first(pieces, i + 1, t) by {
            if before.contains(t) {
                let k = choose|k: int|
                    0 <= k < i && is_query_word(#[trigger] pieces[k]) && is_token_of(pieces[k], t);
                assert(is_query_word(pieces[k]));
            }
            if is_query_word(pieces[i as int]) && is_token_of(pieces[i as int], t) {
                assert(is_token_of_first(pieces, i + 1, t));
            }
        }
        i += 1;
    }
    tokens
}

/// The tokens of a query, in ascending order.
pub fn tokenize_query(query: &str) -> (r: Vec<String>)
    ensures
        order::ascending(text::strings(r@)),
        forall|t: Seq<char>|
            #[trigger] text::strings(r@).contains(t) <==> is_query_token(
                outside::lowercase(query@),
                t,
            ),
{
    let lower = query.to_lowercase();
    let tokens = tokenize_lowered(text::to_chars(lower.as_str()).as_slice());
    let r = tokens.to_strings();
    assert forall|t: Seq<char>|
        #[trigger] text::strings(r@).contains(t) <==> is_query_token(
            outside::lowercase(query@),
            t,
        ) by {
        assert(tokens.set().contains(t) <==> tokens.list().contains(t));
    }
    r
}

/// A text without the characters at its ends that separate the words of a query.
pub fn trim_query_punctuation(value: &str) -> (r: String)
    ensures
        r@ == text::trimmed_of(value@, CharSet::QuerySeparator),
{
    text::to_text(text::trim_of(text::to_chars(value).as_slice(), CharSet::QuerySeparator))
}

/// A token of a query is not empty and holds no character that separates words.
pub proof fn lemma_tokens_hold_no_separator(query: Seq<char>, token: Seq<char>)
    requires
        is_query_token(query, token),
    ensures
        token.len() > 0,
        forall|k: int| 0 <= k < token.len() ==> !text::query_separator(#[trigger] token[k]),
{
    let set = CharSet::QuerySeparator;
    let pieces = text::pieces(query, set);
    text::lemma_pieces_hold_no_separator(query, set);
    let i = choose|i: int|
        0 <= i < pieces.len() && is_query_word(#[trigger] pieces[i]) && is_token_of(
            pieces[i],
            token,
        );
    let word = pieces[i];
    assert forall|k: int| 0 <= k < token.len() implies !text::query_separator(
        #[trigger] token[k],
    ) by {
        if token == word {
            assert(!set.holds(pieces[i][k]));
        } else if exists|j: int|
            0 <= j < word.len() - 1 && token == #[trigger] word.subrange(j, j + 2) {
            let j = choose|j: int|
                0 <= j < word.len() - 1 && token == #[trigger] word.subrange(j, j + 2);
            assert(token[k] == pieces[i][j + k]);
            assert(!set.holds(pieces[i][j + k]));
        } else {
            let j = choose|j: int|
                0 <= j < word.len() && token == seq![#[trigger] word[j]] && !is_stop(token);
            assert(token[k] == pieces[i][j]);
            assert(!set.holds(pieces[i][j]));
        }
    }
}

// ---------------------------------------------------------------------------------------
// Snippets
// ---------------------------------------------------------------------------------------

/// How many bytes a character takes in UTF-8.
pub open spec fn byte_width(c: char) -> nat {
    let u = c as int;
    if u < 0x80 {
        1
    } else if u < 0x800 {
        2
    } else if u < 0x10000 {
        3
    } else {
        4
    }
}

/// How many bytes a text takes in UTF-8.
pub open spec fn byte_len(s: Seq<char>) -> nat
    decreases s.len(),
{
    if s.len() == 0 {
        0
    } else {
        byte_len(s.drop_last()) + byte_width(s.last())
    }
}

/// How many characters the first `bytes` bytes of a text are, counted from character `from` on.
/// `None` where these bytes end within a character or behind the text.
pub open spec fn chars_in(s: Seq<char>, bytes: int, from: int) -> Option<int>
    decreases s.len() - from,
{
    if bytes == 0 {
        Some(0)
    } else if from < 0 || from >= s.len() || bytes < byte_width(s[from]) {
        None
    } else {
        match chars_in(s, bytes - byte_width(s[from]), from + 1) {
            Some(k) => Some(k + 1),
            None => None,
        }
    }
}

/// The part of a text around position `at`: from `SNIPPET_CONTEXT` characters before it to as
/// many behind the `length` characters there. Line feeds are replaced by spaces, and three dots
/// stand for what was left out on either side.
pub open spec fn excerpt(content: Seq<char>, at: int, length: nat) -> Seq<char> {
    let start = if at <= SNIPPET_CONTEXT {
        0
    } else {
        at - SNIPPET_CONTEXT
    };
    let reach = at + length + SNIPPET_CONTEXT;
    let end = if reach <= content.len() {
        reach
    } else {
        content.len() as int
    };
    let middle = text::with_char(content.subrange(start, end), '\n', ' ');
    (if start > 0 {
        "..."@
    } else {
        Seq::empty()
    }) + middle + if end < content.len() {
        "..."@
    } else {
        Seq::empty()
    }
}

/// The snippet of a page around `anchor`. The anchor is looked for in the page in lower case,
/// and the bytes before it there are counted off in the page itself. `None` where these bytes
/// end within a character of the page or behind it.
pub open spec fn snippet(
    content: Seq<char>,
    lower: Seq<char>,
    anchor: Seq<char>,
    anchor_lower: Seq<char>,
) -> Option<Seq<char>> {
    let found = match text::position(lower, anchor_lower) {
        Some(i) => i,
        None => 0,
    };
    match chars_in(content, byte_len(lower.take(found)) as int, 0) {
        Some(at) => Some(excerpt(content, at, anchor.len())),
        None => None,
    }
}

/// How many bytes a character takes in UTF-8.
fn width(c: char) -> (r: u128)
    ensures
        r == byte_width(c),
        1 <= r <= 4,
{
    let u: u32 = c as u32;
    if u < 0x80 {
        1
    } else if u < 0x800 {
        2
    } else if u < 0x10000 {
        3
    } else {
        4
    }
}

/// How many bytes the first `end` characters of a text take in UTF-8.
fn count_bytes(s: &[char], end: usize) -> (r: u128)
    requires
        end <= s@.len(),
    ensures
        r == byte_len(s@.take(end as int)),
{
    let mut total: u128 = 0;
    let mut i: usize = 0;
    while i < end
        invariant
            i <= end <= s@.len(),
            total == byte_len(s@.take(i as int)),
            total <= 4 * i,
        decreases end - i,
    {
        assert(s@.take(i + 1).drop_last() =~= s@.take(i as int));
        total = total + width(s[i]);
        i += 1;
    }
    total
}

/// How many characters the first `bytes` bytes of a text are.
fn count_chars(s: &[char], bytes: u128) -> (r: Option<usize>)
    ensures
        match r {
            Some(k) => chars_in(s@, bytes as int, 0) == Some(k as int) && k <= s@.len(),
            None => chars_in(s@, bytes as int, 0) is None,
        },
{
    let mut left: u128 = bytes;
    let mut i: usize = 0;
    while left > 0
        invariant
            i <= s@.len(),
            chars_in(s@, bytes as int, 0) == (match chars_in(s@, left as int, i as int) {
                Some(k) => Some(k + i),
                None => None,
            }),
        decreases left,
    {
        if i >= s.len() {
            return None;
        }
        let w = width(s[i]);
        if left < w {
            return None;
        }
        left = left - w;
        i += 1;
    }
    Some(i)
}

/// The part of a text around position `at`.
fn cut_excerpt(content: &[char], at: usize, length: usize) -> (r: Vec<char>)
    requires
        at <= content@.len(),
    ensures
        r@ == excerpt(content@, at as int, length as nat),
{
    let n: usize = content.len();
    let start: usize = if at <= SNIPPET_CONTEXT {
        0
    } else {
        at - SNIPPET_CONTEXT
    };
    let reach: u128 = at as u128 + length as u128 + SNIPPET_CONTEXT as u128;
    let end: usize = if reach <= n as u128 {
        reach as usize
    } else {
        n
    };
    let dots = text::to_chars("...");
    let mut out: Vec<char> = Vec::new();
    if start > 0 {
        text::append(&mut out, dots.as_slice());
    }
    text::append(
        &mut out,
        text::replace_char(slice_subrange(content, start, end), '\n', ' ').as_slice(),
    );
    if end < n {
        text::append(&mut out, dots.as_slice());
    }
    assert(out@ =~= excerpt(content@, at as int, length as nat));
    out
}

/// The snippet of a page around `anchor`, given both in lower case too.
pub fn build_snippet_lowered(
    content: &[char],
    lower: &[char],
    anchor: &[char],
    anchor_lower: &[char],
) -> (r: Option<Vec<char>>)
    ensures
        match r {
            Some(s) => snippet(content@, lower@, anchor@, anchor_lower@) == Some(s@),
            None => snippet(content@, lower@, anchor@, anchor_lower@) is None,
        },
{
    let found: usize = match text::find(lower, anchor_lower) {
        Some(i) => i,
        None => 0,
    };
    match count_chars(content, count_bytes(lower, found)) {
        Some(at) => Some(cut_excerpt(content, at, anchor.len())),
        None => None,
    }
}

/// The snippet of a page around `anchor`.
pub fn build_snippet(content: &str, anchor: &str) -> (r: Option<String>)
    ensures
        text::optional(r) == snippet(
            content@,
            outside::lowercase(content@),
            anchor@,
            outside::lowercase(anchor@),
        ),
{
    let (lower, anchor_lower) = (content.to_lowercase(), anchor.to_lowercase());
    match build_snippet_lowered(
        text::to_chars(content).as_slice(),
        text::to_chars(lower.as_str()).as_slice(),
        text::to_chars(anchor).as_slice(),
        text::to_chars(anchor_lower.as_str()).as_slice(),
    ) {
        Some(s) => Some(text::to_text(s.as_slice())),
        None => None,
    }
}

/// A count of bytes that is the length of some first characters of a text is taken apart into
/// these characters.
proof fn lemma_chars_in(s: Seq<char>, from: int, to: int)
    requires
        0 <= from <= to <= s.len(),
    ensures
        chars_in(s, byte_len(s.take(to)) - byte_len(s.take(from)), from) == Some(to - from),
    decreases to - from,
{
    if from < to {
        lemma_chars_in(s, from + 1, to);
        lemma_bytes_grow(s, from + 1, to);
        assert(s.take(from + 1).drop_last() =~= s.take(from));
    }
}

/// More characters take more bytes.
proof fn lemma_bytes_grow(s: Seq<char>, from: int, to: int)
    requires
        0 <= from <= to <= s.len(),
    ensures
        byte_len(s.take(from)) <= byte_len(s.take(to)),
    decreases to - from,
{
    if from < to {
        assert(s.take(to).drop_last() =~= s.take(to - 1));
        lemma_bytes_grow(s, from, to - 1);
    }
}

/// Where the page is in lower case already there is a snippet, and it is the part of the page
/// around the anchor.
pub proof fn lemma_snippet_of_lower_case(
    content: Seq<char>,
    anchor: Seq<char>,
    anchor_lower: Seq<char>,
)
    ensures
        snippet(content, content, anchor, anchor_lower) == Some(
            excerpt(
                content,
                match text::position(content, anchor_lower) {
                    Some(i) => i,
                    None => 0,
                },
                anchor.len(),
            ),
        ),
{
    let at = match text::position(content, anchor_lower) {
        Some(i) => i,
        None => 0,
    };
    text::lemma_position_from(content, anchor_lower, 0);
    lemma_chars_in(content, 0, at);
    assert(byte_len(content.take(0)) == 0);
}

/// Whether a line stands for something in the snippet of a page without an anchor.
pub open spec fn is_text_line(line: Seq<char>) -> bool {
    text::trimmed(line).len() > 0 && text::trimmed(line) != "---"@
}

/// The lines of a page that stand for something.
pub open spec fn text_lines(content: Seq<char>) -> Seq<Seq<char>> {
    text::line_list(content).filter(|line: Seq<char>| is_text_line(line))
}

/// The first `limit` texts of a list, or all where it has fewer.
pub open spec fn first_texts(s: Seq<Seq<char>>, limit: nat) -> Seq<Seq<char>> {
    if s.len() <= limit {
        s
    } else {
        s.take(limit as int)
    }
}

/// A text, cut off behind twice the context of a snippet. Three dots stand for what was cut off.
pub open spec fn cut(s: Seq<char>) -> Seq<char> {
    if s.len() > 2 * SNIPPET_CONTEXT {
        s.take(2 * SNIPPET_CONTEXT as int) + "..."@
    } else {
        s
    }
}

/// The snippet of a page without an anchor: its first six lines that stand for something.
pub open spec fn opening(content: Seq<char>) -> Seq<char> {
    cut(text::joined(first_texts(text_lines(content), 6), " "@))
}

/// A text, cut off behind twice the context of a snippet.
fn cut_text(s: &[char]) -> (r: Vec<char>)
    ensures
        r@ == cut(s@),
{
    if s.len() > 160 {
        let mut out = text::copy(slice_subrange(s, 0, 160));
        text::append(&mut out, text::to_chars("...").as_slice());
        assert(s@.take(160) =~= s@.subrange(0, 160));
        out
    } else {
        text::copy(s)
    }
}

/// The snippet of a page without an anchor.
pub fn first_text_snippet(content: &str) -> (r: String)
    ensures
        r@ == opening(content@),
{
    let lines = text::lines(text::to_chars(content).as_slice());
    let ghost all = text::line_list(content@);
    let ghost keep = |line: Seq<char>| is_text_line(line);
    let mut kept: Vec<Vec<char>> = Vec::new();
    let mut i: usize = 0;
    proof {
        reveal(Seq::filter);
        assert(text::texts(kept@) =~= first_texts(all.take(0).filter(keep), 6));
    }
    while i < lines.len()
        invariant
            i <= lines@.len(),
            all == text::texts(lines@),
            keep == |line: Seq<char>| is_text_line(line),
            text::texts(kept@) == first_texts(all.take(i as int).filter(keep), 6),
        decreases lines@.len() - i,
    {
        let ghost before = text::texts(kept@);
        proof {
            reveal(Seq::filter);
            assert(all.take(i + 1).drop_last() =~= all.take(i as int));
            assert(all[i as int] == lines@[i as int]@);
        }
        let line: &[char] = text::trim(lines[i].as_slice());
        if line.len() > 0 && !text::is_text(line, "---") {
            assert(text::texts(kept@).len() == kept@.len());
            if kept.len() < 6 {
                kept.push(text::copy(lines[i].as_slice()));
                assert(text::texts(kept@) =~= before.push(all[i as int]));
            } else {
                let ghost f = all.take(i as int).filter(keep);
                assert(first_texts(f.push(all[i as int]), 6) =~= first_texts(f, 6));
            }
        }
        i += 1;
    }
    assert(all.take(all.len() as int) =~= all);
    let joined = text::join(&kept, text::to_chars(" ").as_slice());
    text::to_text(cut_text(joined.as_slice()).as_slice())
}

/// The snippet of a page found in the vector index: the text of its best part, with the heading
/// that it stands under before it.
pub open spec fn part_snippet(chunk_text: Seq<char>, heading_path: Seq<char>) -> Seq<char> {
    let words = cut(text::with_char(text::trimmed(chunk_text), '\n', ' '));
    let heading = text::trimmed(heading_path);
    if heading.len() == 0 || words.len() == 0 {
        words
    } else {
        heading + ": "@ + words
    }
}

/// The snippet of a page found in the vector index.
pub fn vector_snippet(chunk_text: &str, heading_path: &str) -> (r: String)
    ensures
        r@ == part_snippet(chunk_text@, heading_path@),
{
    let chunk = text::to_chars(chunk_text);
    let words = cut_text(text::replace_char(text::trim(chunk.as_slice()), '\n', ' ').as_slice());
    let heading_chars = text::to_chars(heading_path);
    let heading: &[char] = text::trim(heading_chars.as_slice());
    if heading.len() == 0 || words.len() == 0 {
        text::to_text(words.as_slice())
    } else {
        let mut out = text::to_text(heading);
        out.append(": ");
        out.append(text::to_text(words.as_slice()).as_str());
        out
    }
}

// ---------------------------------------------------------------------------------------
// Scores
// ---------------------------------------------------------------------------------------

/// How many of the tokens stand in a text.
pub open spec fn tokens_in(lower: Seq<char>, tokens: Seq<Seq<char>>) -> nat
    decreases tokens.len(),
{
    if tokens.len() == 0 {
        0
    } else {
        tokens_in(lower, tokens.drop_last()) + if text::contains_text(lower, tokens.last()) {
            1nat
        } else {
            0
        }
    }
}

/// How well a page goes with a query.
pub struct Match {
    /// Whether the name of the file is the phrase of the query.
    pub file_name: bool,
    /// Whether the phrase stands in the title or the file name.
    pub title_phrase: bool,
    /// How often the phrase stands in the page, ten times at most.
    pub phrases: nat,
    /// How many tokens stand in the title or the file name.
    pub title_tokens: nat,
    /// How many tokens stand in the page.
    pub content_tokens: nat,
}

impl Match {
    /// Whether the page goes with the query at all.
    pub open spec fn is_match(self) -> bool {
        self.file_name || self.title_phrase || self.phrases > 0 || self.title_tokens > 0
            || self.content_tokens > 0
    }

    /// The points of the page.
    pub open spec fn points(self) -> nat {
        (if self.file_name {
            200nat
        } else {
            0
        }) + (if self.title_phrase {
            50nat
        } else {
            0
        }) + 20 * self.phrases + 5 * self.title_tokens + self.content_tokens
    }
}

/// How well a page goes with a query, everything in lower case: `title` is the title with the
/// file name, `stem` the file name without `.md`.
pub open spec fn page_match(
    title: Seq<char>,
    content: Seq<char>,
    stem: Seq<char>,
    tokens: Seq<Seq<char>>,
    phrase: Seq<char>,
) -> Match {
    let found = text::occurrences(content, phrase);
    Match {
        file_name: phrase.len() > 0 && stem == phrase,
        title_phrase: phrase.len() > 0 && text::contains_text(title, phrase),
        phrases: if found > 10 {
            10
        } else {
            found
        },
        title_tokens: tokens_in(title, tokens),
        content_tokens: tokens_in(content, tokens),
    }
}

/// The first of the tokens from `from` on that stands in a page in lower case.
pub open spec fn first_token_in(
    content: Seq<char>,
    tokens: Seq<Seq<char>>,
    from: int,
) -> Option<Seq<char>>
    decreases tokens.len() - from,
{
    if from < 0 || from >= tokens.len() {
        None
    } else if text::contains_text(content, tokens[from]) {
        Some(tokens[from])
    } else {
        first_token_in(content, tokens, from + 1)
    }
}

/// What the snippet of a page is built around: the phrase where it stands in the page, or the
/// first token that does, or the query.
pub open spec fn snippet_anchor(
    content_lower: Seq<char>,
    tokens: Seq<Seq<char>>,
    phrase: Seq<char>,
    query: Seq<char>,
) -> Seq<char> {
    if text::occurrences(content_lower, phrase) > 0 {
        phrase
    } else {
        match first_token_in(content_lower, tokens, 0) {
            Some(token) => token,
            None => query,
        }
    }
}

/// How many of the tokens stand in a text in lower case. They are no more than the tokens.
fn count_tokens(lower: &[char], tokens: &Vec<String>) -> (r: usize)
    ensures
        r == tokens_in(lower@, text::strings(tokens@)),
        r <= tokens@.len(),
{
    let ghost all = text::strings(tokens@);
    let mut count: usize = 0;
    let mut i: usize = 0;
    while i < tokens.len()
        invariant
            i <= tokens@.len(),
            all == text::strings(tokens@),
            count == tokens_in(lower@, all.take(i as int)),
            count <= i,
        decreases tokens@.len() - i,
    {
        assert(all.take(i + 1).drop_last() =~= all.take(i as int));
        assert(all[i as int] == tokens@[i as int]@);
        if text::has_text(lower, text::to_chars(tokens[i].as_str()).as_slice()) {
            count += 1;
        }
        i += 1;
    }
    assert(all.take(all.len() as int) =~= all);
    count
}

/// How many of the tokens stand in a text.
pub fn token_match_score(value: &str, tokens: &Vec<String>) -> (r: usize)
    ensures
        r == tokens_in(outside::lowercase(value@), text::strings(tokens@)),
        r <= tokens@.len(),
{
    let lower = value.to_lowercase();
    count_tokens(text::to_chars(lower.as_str()).as_slice(), tokens)
}

/// How well a page goes with a query.
pub struct KeywordMatch {
    /// The points of the page.
    pub points: u128,
    /// Whether a token or the phrase stands in the title or the file name.
    pub title_match: bool,
    /// What the snippet of the page is built around.
    pub anchor: String,
}

/// How well a page goes with a query, where it does. The title with the file name, the page and
/// the file name without `.md` are in lower case.
pub fn match_lowered(
    title: &[char],
    content: &[char],
    stem: &[char],
    tokens: &Vec<String>,
    phrase: &str,
    query: &str,
) -> (r: Option<KeywordMatch>)
    ensures
        ({
            let m = page_match(title@, content@, stem@, text::strings(tokens@), phrase@);
            match r {
                Some(found) => {
                    &&& m.is_match()
                    &&& found.points == m.points()
                    &&& found.title_match == (m.title_tokens > 0 || m.title_phrase)
                    &&& found.anchor@ == snippet_anchor(
                        content@,
                        text::strings(tokens@),
                        phrase@,
                        query@,
                    )
                },
                None => !m.is_match(),
            }
        }),
{
    let ghost all = text::strings(tokens@);
    let words = text::to_chars(phrase);
    let file_name = words.len() > 0 && text::same(stem, words.as_slice());
    let title_phrase = words.len() > 0 && text::has_text(title, words.as_slice());
    let found = text::count_occurrences(content, words.as_slice());
    let phrases: usize = if found > 10 {
        10
    } else {
        found
    };
    let title_tokens = count_tokens(title, tokens);
    let content_tokens = count_tokens(content, tokens);
    let n: usize = tokens.len();
    if !file_name && !title_phrase && phrases == 0 && title_tokens == 0 && content_tokens == 0 {
        return None;
    }
    let points: u128 = (if file_name {
        200u128
    } else {
        0u128
    }) + (if title_phrase {
        50u128
    } else {
        0u128
    }) + 20 * (phrases as u128) + 5 * (title_tokens as u128) + content_tokens as u128;
    let anchor = if phrases > 0 {
        phrase.to_string()
    } else {
        let mut i: usize = 0;
        let mut chosen: Option<String> = None;
        while i < tokens.len() && chosen.is_none()
            invariant
                i <= tokens@.len(),
                all == text::strings(tokens@),
                chosen is None ==> first_token_in(content@, all, i as int) == first_token_in(
                    content@,
                    all,
                    0,
                ),
                chosen matches Some(token) ==> first_token_in(content@, all, 0) == Some(token@),
            decreases tokens@.len() - i,
        {
            assert(all[i as int] == tokens@[i as int]@);
            if text::has_text(content, text::to_chars(tokens[i].as_str()).as_slice()) {
                chosen = Some(tokens[i].as_str().to_string());
            }
            i += 1;
        }
        match chosen {
            Some(token) => token,
            None => query.to_string(),
        }
    };
    Some(KeywordMatch { points, title_match: title_tokens > 0 || title_phrase, anchor })
}

// ---------------------------------------------------------------------------------------
// Results
// ---------------------------------------------------------------------------------------

/// The score of a result.
#[derive(Debug, Clone, Copy, PartialEq, Eq, Structural)]
pub enum SearchScore {
    /// The points of a page that goes with the query.
    Keyword(u128),
    /// Fifteen hundredths of the points of the best page, for a page that is linked to one found.
    Graph(u128),
    /// The sum of the inverses of sixty and each rank, for a page that is ranked by its points,
    /// by the vector index or by both. Ranks start at one.
    Fused(Option<usize>, Option<usize>),
}

/// A request to search a project, apart from the embedding of the query.
#[derive(Debug)]
pub struct ProjectSearchRequest {
    pub query: String,
    pub top_k: Option<usize>,
    pub include_content: Option<bool>,
    pub expand_graph: Option<bool>,
}

/// A page found.
#[derive(Debug, Clone)]
pub struct ProjectSearchResult {
    pub path: String,
    pub title: String,
    pub snippet: String,
    pub title_match: bool,
    pub score: SearchScore,
    /// The place of the page in the ranking by the vector index, counted from zero.
    pub vector: Option<usize>,
    pub images: Vec<SearchImageRef>,
    pub content: Option<String>,
}

/// What a page found stands for.
pub struct FoundPage {
    pub path: Seq<char>,
    pub title: Seq<char>,
    pub snippet: Seq<char>,
    pub title_match: bool,
    pub score: SearchScore,
    pub vector: Option<usize>,
    pub images: Seq<markdown::ImageRef>,
    pub content: Option<Seq<char>>,
}

impl View for ProjectSearchResult {
    type V = FoundPage;

    open spec fn view(&self) -> FoundPage {
        FoundPage {
            path: self.path@,
            title: self.title@,
            snippet: self.snippet@,
            title_match: self.title_match,
            score: self.score,
            vector: self.vector,
            images: markdown::images(self.images@),
            content: text::optional(self.content),
        }
    }
}

/// What the pages found stand for.
pub open spec fn found_pages(v: Seq<ProjectSearchResult>) -> Seq<FoundPage> {
    v.map_values(|x: ProjectSearchResult| x@)
}

/// The text of a page, where it is asked for.
pub open spec fn asked_content(content: Seq<char>, include_content: bool) -> Option<Seq<char>> {
    if include_content {
        Some(content)
    } else {
        None
    }
}

/// The name of the file at a path, empty where it has none.
pub open spec fn name_at(path: Seq<char>) -> Seq<char> {
    match paths::file_name(path) {
        Some(name) => name,
        None => Seq::empty(),
    }
}

/// The title and the file name of a page, as they are searched together.
pub open spec fn title_text(content: Seq<char>, name: Seq<char>) -> Seq<char> {
    markdown::page_title(content, name) + " "@ + name
}

/// How a search is to be made.
#[derive(Debug)]
pub struct SearchPlan {
    /// The query without white space around it.
    pub query: String,
    /// The tokens that pages are scored by.
    pub tokens: Vec<String>,
    /// The phrase that pages are scored by.
    pub phrase: String,
    /// How many results are given at most.
    pub limit: usize,
    /// Whether the results carry the text of their pages.
    pub include_content: bool,
    /// Whether pages linked to those found are added.
    pub expand_graph: bool,
}

/// How many parts a vector index is asked for where `limit` results are given: three for each of
/// them, and thirty at least.
pub open spec fn wanted_chunks(limit: nat) -> nat {
    if 3 * limit < 30 {
        30
    } else {
        3 * limit
    }
}

/// How many pages of a vector index are considered where `limit` results are given: as many, and ten
/// at least.
pub open spec fn wanted_pages(limit: nat) -> nat {
    if limit < 10 {
        10
    } else {
        limit
    }
}

/// How many results a request is given at most.
pub open spec fn result_limit(top_k: Option<usize>) -> nat {
    match top_k {
        None => DEFAULT_RESULTS as nat,
        Some(k) => if k < 1 {
            1
        } else if k > MAX_RESULTS {
            MAX_RESULTS as nat
        } else {
            k as nat
        },
    }
}

impl SearchPlan {
    /// Whether the plan is that of the request for the query `query`, which is `lower` in lower
    /// case: the tokens are those of the query, or the query itself where it has none.
    pub open spec fn is_of(&self, query: Seq<char>, lower: Seq<char>) -> bool {
        let tokens = text::strings(self.tokens@);
        &&& self.query@ == query
        &&& self.phrase@ == text::trimmed_of(lower, CharSet::QuerySeparator)
        &&& if exists|t: Seq<char>| is_query_token(lower, t) {
            &&& order::ascending(tokens)
            &&& forall|t: Seq<char>| #[trigger] tokens.contains(t) <==> is_query_token(lower, t)
        } else {
            tokens == seq![lower]
        }
    }

    /// How many parts the vector index is asked for.
    pub fn vector_chunks(&self) -> (r: usize)
        requires
            self.limit <= MAX_RESULTS,
        ensures
            r == wanted_chunks(self.limit as nat),
    {
        if self.limit * 3 < 30 {
            30
        } else {
            self.limit * 3
        }
    }

    /// How many pages of the vector index are considered.
    pub fn vector_pages(&self) -> (r: usize)
        ensures
            r == wanted_pages(self.limit as nat),
    {
        if self.limit < 10 {
            10
        } else {
            self.limit
        }
    }
}

/// The plan of a search, given the query without white space around it and in lower case.
pub fn plan_lowered(
    query: &str,
    lower: &str,
    top_k: Option<usize>,
    include_content: Option<bool>,
    expand_graph: Option<bool>,
) -> (r: SearchPlan)
    ensures
        r.is_of(query@, lower@),
        r.limit == result_limit(top_k),
        r.include_content == (include_content == Some(true)),
        r.expand_graph == (expand_graph == Some(true)),
{
    let limit: usize = match top_k {
        None => DEFAULT_RESULTS,
        Some(k) => if k < 1 {
            1
        } else if k > MAX_RESULTS {
            MAX_RESULTS
        } else {
            k
        },
    };
    let found = tokenize_lowered(text::to_chars(lower).as_slice());
    let mut tokens = found.to_strings();
    proof {
        assert forall|t: Seq<char>|
            #[trigger] text::strings(tokens@).contains(t) <==> is_query_token(lower@, t) by {
            assert(found.set().contains(t) <==> found.list().contains(t));
        }
        if tokens@.len() > 0 {
            assert(text::strings(tokens@).contains(text::strings(tokens@)[0]));
            assert(is_query_token(lower@, text::strings(tokens@)[0]));
        }
    }
    if tokens.len() == 0 {
        assert forall|t: Seq<char>| !is_query_token(lower@, t) by {
            assert(!text::strings(tokens@).contains(t));
        }
        tokens.push(lower.to_string());
        assert(text::strings(tokens@) =~= seq![lower@]);
    }
    SearchPlan {
        query: query.to_string(),
        tokens,
        phrase: trim_query_punctuation(lower),
        limit,
        include_content: match include_content {
            Some(b) => b,
            None => false,
        },
        expand_graph: match expand_graph {
            Some(b) => b,
            None => false,
        },
    }
}

/// The plan of a search. A blank query is refused.
pub fn plan_search(request: &ProjectSearchRequest) -> (r: Result<SearchPlan, ContentServiceError>)
    ensures
        ({
            let query = text::trimmed(request.query@);
            match r {
                Ok(plan) => {
                    &&& query.len() > 0
                    &&& plan.is_of(query, outside::lowercase(query))
                    &&& plan.limit == result_limit(request.top_k)
                    &&& plan.include_content == (request.include_content == Some(true))
                    &&& plan.expand_graph == (request.expand_graph == Some(true))
                },
                Err(e) => query.len() == 0 && e@ == ContentError::InvalidInput(
                    "query is required"@,
                ),
            }
        }),
{
    let query = text::to_text(text::trim(text::to_chars(request.query.as_str()).as_slice()));
    if query.as_str().is_empty() {
        return Err(ContentServiceError::invalid_input("query is required"));
    }
    let lower = query.as_str().to_lowercase();
    Ok(
        plan_lowered(
            query.as_str(),
            lower.as_str(),
            request.top_k,
            request.include_content,
            request.expand_graph,
        ),
    )
}

/// What scoring a page comes to.
pub enum Scored {
    /// The page goes with the query.
    Hit(ProjectSearchResult),
    /// The page does not go with the query.
    Miss,
    /// The page goes with the query, and no snippet can be built of it.
    NoSnippet,
}

/// What scoring a page stands for.
pub enum Score {
    Hit(FoundPage),
    Miss,
    NoSnippet,
}

impl View for Scored {
    type V = Score;

    open spec fn view(&self) -> Score {
        match self {
            Scored::Hit(page) => Score::Hit(page@),
            Scored::Miss => Score::Miss,
            Scored::NoSnippet => Score::NoSnippet,
        }
    }
}

/// What scoring a page comes to, given its title with the file name, its text and its file name
/// without `.md` in lower case, and the lower case of what its snippet is built around.
pub open spec fn scored(
    plan: SearchPlan,
    path: Seq<char>,
    content: Seq<char>,
    title_lower: Seq<char>,
    content_lower: Seq<char>,
    stem_lower: Seq<char>,
    anchor_lower: Seq<char>,
) -> Score {
    let tokens = text::strings(plan.tokens@);
    let m = page_match(title_lower, content_lower, stem_lower, tokens, plan.phrase@);
    let anchor = snippet_anchor(content_lower, tokens, plan.phrase@, plan.query@);
    if !m.is_match() {
        Score::Miss
    } else {
        match snippet(content, content_lower, anchor, anchor_lower) {
            None => Score::NoSnippet,
            Some(snippet) => Score::Hit(
                FoundPage {
                    path,
                    title: markdown::page_title(content, name_at(path)),
                    snippet,
                    title_match: m.title_tokens > 0 || m.title_phrase,
                    score: SearchScore::Keyword(m.points() as u128),
                    vector: None,
                    images: markdown::page_images(content),
                    content: asked_content(content, plan.include_content),
                },
            ),
        }
    }
}

/// What scoring a page comes to.
pub open spec fn page_score(plan: SearchPlan, path: Seq<char>, content: Seq<char>) -> Score {
    let content_lower = outside::lowercase(content);
    let anchor = snippet_anchor(
        content_lower,
        text::strings(plan.tokens@),
        plan.phrase@,
        plan.query@,
    );
    scored(
        plan,
        path,
        content,
        outside::lowercase(title_text(content, name_at(path))),
        content_lower,
        outside::lowercase(text::without_suffixes(name_at(path), ".md"@)),
        outside::lowercase(anchor),
    )
}

/// A copy of the text of a page, where it is asked for.
fn copy_content(content: &str, include_content: bool) -> (r: Option<String>)
    ensures
        text::optional(r) == asked_content(content@, include_content),
{
    if include_content {
        Some(content.to_string())
    } else {
        None
    }
}

/// The name of the file at a path, empty where it has none.
fn name_of(path: &str) -> (r: String)
    ensures
        r@ == name_at(path@),
{
    match paths::file_name_of(path) {
        Some(name) => name,
        None => String::new(),
    }
}

/// Scores the page with the text `content` at `path`.
pub fn score_file(plan: &SearchPlan, path: &str, content: &str) -> (r: Scored)
    ensures
        r@ == page_score(*plan, path@, content@),
{
    let name = name_of(path);
    let title = extract_title(content, name.as_str());
    let mut both = title.as_str().to_string();
    both.append(" ");
    both.append(name.as_str());
    let title_lower = both.as_str().to_lowercase();
    let content_lower = content.to_lowercase();
    let name_chars = text::to_chars(name.as_str());
    let suffix = text::to_chars(".md");
    let stem = text::to_text(text::trim_suffixes(name_chars.as_slice(), suffix.as_slice()));
    let stem_lower = stem.as_str().to_lowercase();
    let lower_chars = text::to_chars(content_lower.as_str());
    match match_lowered(
        text::to_chars(title_lower.as_str()).as_slice(),
        lower_chars.as_slice(),
        text::to_chars(stem_lower.as_str()).as_slice(),
        &plan.tokens,
        plan.phrase.as_str(),
        plan.query.as_str(),
    ) {
        None => Scored::Miss,
        Some(found) => match build_snippet(content, found.anchor.as_str()) {
            None => Scored::NoSnippet,
            Some(snippet) => Scored::Hit(
                ProjectSearchResult {
                    path: path.to_string(),
                    title,
                    snippet,
                    title_match: found.title_match,
                    score: SearchScore::Keyword(found.points),
                    vector: None,
                    images: extract_image_refs(content),
                    content: copy_content(content, plan.include_content),
                },
            ),
        },
    }
}

/// The result for a page that is linked to a page found, where the best page has `best` points.
pub fn graph_result(path: &str, content: &str, best: u128, include_content: bool) -> (r:
    ProjectSearchResult)
    ensures
        r@ == (FoundPage {
            path: path@,
            title: markdown::page_title(content@, name_at(path@)),
            snippet: opening(content@),
            title_match: false,
            score: SearchScore::Graph(best),
            vector: None,
            images: markdown::page_images(content@),
            content: asked_content(content@, include_content),
        }),
{
    let name = name_of(path);
    ProjectSearchResult {
        path: path.to_string(),
        title: extract_title(content, name.as_str()),
        snippet: first_text_snippet(content),
        title_match: false,
        score: SearchScore::Graph(best),
        vector: None,
        images: extract_image_refs(content),
        content: copy_content(content, include_content),
    }
}

/// The result for a page that the vector index alone has found, at place `place` of its ranking,
/// with the text and the heading of its best part.
pub fn vector_result(
    path: &str,
    content: &str,
    place: usize,
    chunk_text: &str,
    heading_path: &str,
    include_content: bool,
) -> (r: ProjectSearchResult)
    ensures
        r@ == (FoundPage {
            path: path@,
            title: markdown::page_title(content@, name_at(path@)),
            snippet: part_snippet(chunk_text@, heading_path@),
            title_match: false,
            score: SearchScore::Fused(None, None),
            vector: Some(place),
            images: markdown::page_images(content@),
            content: asked_content(content@, include_content),
        }),
{
    let name = name_of(path);
    ProjectSearchResult {
        path: path.to_string(),
        title: extract_title(content, name.as_str()),
        snippet: vector_snippet(chunk_text, heading_path),
        title_match: false,
        score: SearchScore::Fused(None, None),
        vector: Some(place),
        images: extract_image_refs(content),
        content: copy_content(content, include_content),
    }
}

// ---------------------------------------------------------------------------------------
// Order
// ---------------------------------------------------------------------------------------

/// Twenty times the score of a page that goes with the query or is linked to one that does. A
/// score made of ranks counts nothing here.
pub open spec fn weight(score: SearchScore) -> nat {
    match score {
        SearchScore::Keyword(points) => 20 * points as nat,
        SearchScore::Graph(best) => 3 * best as nat,
        SearchScore::Fused(_, _) => 0,
    }
}

/// A page with what it is ordered by: its weight, the largest first, and a text.
pub struct Placed {
    pub page: int,
    pub weight: nat,
    pub text: Seq<char>,
}

impl Ranked for Placed {
    open spec fn le(self, other: Self) -> bool {
        self.weight > other.weight || (self.weight == other.weight && text::text_le(
            self.text,
            other.text,
        ))
    }

    proof fn le_total(self, other: Self) {
        text::lemma_text_total(self.text, other.text);
    }

    proof fn le_transitive(self, middle: Self, other: Self) {
        if self.weight == middle.weight && middle.weight == other.weight {
            text::lemma_text_transitive(self.text, middle.text, other.text);
        }
    }
}

/// The pages of a list of placed pages.
pub open spec fn placed_pages(s: Seq<Placed>) -> Seq<int> {
    s.map_values(|p: Placed| p.page)
}

/// The pages found, placed by score and path.
pub open spec fn by_score(pages: Seq<FoundPage>) -> Seq<Placed> {
    Seq::new(
        pages.len(),
        |i: int| Placed { page: i, weight: weight(pages[i].score), text: pages[i].path },
    )
}

/// The pages found, placed by key and path.
pub open spec fn by_key(pages: Seq<FoundPage>, keys: Seq<u64>) -> Seq<Placed> {
    Seq::new(
        pages.len(),
        |i: int| Placed { page: i, weight: keys[i] as nat, text: pages[i].path },
    )
}

/// Texts, placed by key and text.
pub open spec fn texts_by_key(texts: Seq<Seq<char>>, keys: Seq<u64>) -> Seq<Placed> {
    Seq::new(
        texts.len(),
        |i: int| Placed { page: i, weight: keys[i] as nat, text: texts[i] },
    )
}

/// A page with its score and its path.
struct ScoredPage {
    page: usize,
    score: SearchScore,
    path: String,
}

/// Whether the weight of a score is at least that of another.
fn weighs_at_least(a: SearchScore, b: SearchScore) -> (r: bool)
    ensures
        r == (weight(a) >= weight(b)),
{
    match a {
        SearchScore::Keyword(n) => match b {
            SearchScore::Keyword(m) => n >= m,
            SearchScore::Graph(m) => {
                let (q, rest): (u128, u128) = (m / 20, m % 20);
                assert(20 * q + rest == m);
                n >= 3 * q + (3 * rest + 19) / 20
            },
            SearchScore::Fused(_, _) => true,
        },
        SearchScore::Graph(n) => match b {
            SearchScore::Keyword(m) => {
                let (q, rest): (u128, u128) = (n / 20, n % 20);
                assert(20 * q + rest == n);
                3 * q + 3 * rest / 20 >= m
            },
            SearchScore::Graph(m) => n >= m,
            SearchScore::Fused(_, _) => true,
        },
        SearchScore::Fused(_, _) => match b {
            SearchScore::Keyword(m) => m == 0,
            SearchScore::Graph(m) => m == 0,
            SearchScore::Fused(_, _) => true,
        },
    }
}

impl Ordered for ScoredPage {
    type Model = Placed;

    closed spec fn model(&self) -> Placed {
        Placed { page: self.page as int, weight: weight(self.score), text: self.path@ }
    }

    fn is_le(&self, other: &Self) -> (r: bool) {
        weighs_at_least(self.score, other.score) && (!weighs_at_least(other.score, self.score)
            || text::string_at_most(self.path.as_str(), other.path.as_str()))
    }
}

/// A page with a key and a text.
struct KeyedPage {
    page: usize,
    key: u64,
    text: String,
}

impl Ordered for KeyedPage {
    type Model = Placed;

    closed spec fn model(&self) -> Placed {
        Placed { page: self.page as int, weight: self.key as nat, text: self.text@ }
    }

    fn is_le(&self, other: &Self) -> (r: bool) {
        self.key > other.key || (self.key == other.key && text::string_at_most(
            self.text.as_str(),
            other.text.as_str(),
        ))
    }
}

/// Whether an order names each of `n` pages once at most, and no others.
pub open spec fn orders(order: Seq<usize>, n: nat) -> bool {
    &&& order.no_duplicates()
    &&& forall|k: int| 0 <= k < order.len() ==> #[trigger] order[k] < n
}

/// Sorting placed pages that differ keeps each once.
proof fn lemma_sorted_pages(placed: Seq<Placed>)
    requires
        forall|i: int| 0 <= i < placed.len() ==> (#[trigger] placed[i]).page == i,
    ensures
        placed_pages(order::sorted_list(placed)).no_duplicates(),
        placed_pages(order::sorted_list(placed)).len() == placed.len(),
        forall|k: int|
            0 <= k < placed.len() ==> 0 <= #[trigger] placed_pages(order::sorted_list(placed))[k]
                < placed.len() && order::sorted_list(placed)[k] == placed[placed_pages(
                order::sorted_list(placed),
            )[k]],
{
    let sorted = order::sorted_list(placed);
    order::lemma_sorted_list(placed);
    order::lemma_sorted_list_contains(placed);
    assert(placed.no_duplicates()) by {
        assert forall|i: int, j: int|
            0 <= i < placed.len() && 0 <= j < placed.len() && i != j implies placed[i]
            != placed[j] by {
            assert(placed[i].page == i && placed[j].page == j);
        }
    }
    placed.lemma_multiset_has_no_duplicates();
    assert forall|x: Placed| #[trigger] sorted.to_multiset().contains(x) implies sorted.to_multiset().count(x)
        == 1 by {
        assert(placed.to_multiset().contains(x));
    }
    sorted.lemma_multiset_has_no_duplicates_conv();
    assert forall|k: int| 0 <= k < sorted.len() implies 0 <= (#[trigger] sorted[k]).page
        < placed.len() && sorted[k] == placed[sorted[k].page] by {
        assert(sorted.contains(sorted[k]));
        assert(placed.contains(sorted[k]));
        let i = choose|i: int| 0 <= i < placed.len() && placed[i] == sorted[k];
        assert(placed[i].page == i);
    }
    assert forall|a: int, b: int|
        0 <= a < sorted.len() && 0 <= b < sorted.len() && a != b implies placed_pages(sorted)[a]
        != placed_pages(sorted)[b] by {
        assert(sorted[a] != sorted[b]);
    }
}

/// The pages found by score and path: the highest score first, and pages of the same score by
/// their paths.
pub fn score_order(results: &Vec<ProjectSearchResult>) -> (r: Vec<usize>)
    ensures
        order::ints(r@) == placed_pages(order::sorted_list(by_score(found_pages(results@)))),
        orders(r@, results@.len()),
        r@.len() == results@.len(),
{
    let ghost placed = by_score(found_pages(results@));
    let mut list: Vec<ScoredPage> = Vec::new();
    let mut i: usize = 0;
    while i < results.len()
        invariant
            i <= results@.len(),
            placed == by_score(found_pages(results@)),
            order::models(list@) =~= placed.take(i as int),
        decreases results@.len() - i,
    {
        let ghost before = order::models(list@);
        assert(found_pages(results@)[i as int] == results@[i as int]@);
        list.push(
            ScoredPage {
                page: i,
                score: results[i].score,
                path: results[i].path.as_str().to_string(),
            },
        );
        assert(order::models(list@) =~= before.push(placed[i as int]));
        i += 1;
    }
    assert(order::models(list@) =~= placed);
    let sorted = order::sort(list);
    let mut out: Vec<usize> = Vec::new();
    let mut k: usize = 0;
    let ghost wanted = placed_pages(order::sorted_list(placed));
    proof {
        lemma_sorted_pages(placed);
        assert(order::models(sorted@).len() == sorted@.len());
    }
    while k < sorted.len()
        invariant
            k <= sorted@.len(),
            order::models(sorted@) == order::sorted_list(placed),
            wanted == placed_pages(order::sorted_list(placed)),
            order::ints(out@) =~= wanted.take(k as int),
        decreases sorted@.len() - k,
    {
        let ghost before = order::ints(out@);
        assert(order::models(sorted@)[k as int] == sorted@[k as int].model());
        out.push(sorted[k].page);
        assert(order::ints(out@) =~= before.push(wanted[k as int]));
        k += 1;
    }
    proof {
        assert(order::ints(out@) =~= wanted);
        lemma_orders(out@, wanted, results@.len());
    }
    out
}

/// A list of positions names each page once at most where its numbers do.
proof fn lemma_orders(v: Seq<usize>, numbers: Seq<int>, n: nat)
    requires
        order::ints(v) == numbers,
        numbers.no_duplicates(),
        forall|k: int| 0 <= k < numbers.len() ==> 0 <= #[trigger] numbers[k] < n,
    ensures
        orders(v, n),
        v.len() == numbers.len(),
{
    assert forall|a: int, b: int| 0 <= a < v.len() && 0 <= b < v.len() && a != b implies v[a]
        != v[b] by {
        assert(numbers[a] != numbers[b]);
    }
    assert forall|k: int| 0 <= k < v.len() implies #[trigger] v[k] < n by {
        assert(numbers[k] == v[k]);
    }
}

/// Texts by key and text: the largest key first, and texts of the same key in ascending order.
fn order_texts(texts: &Vec<String>, keys: &Vec<u64>) -> (r: Vec<usize>)
    requires
        keys@.len() == texts@.len(),
    ensures
        order::ints(r@) == placed_pages(
            order::sorted_list(texts_by_key(text::strings(texts@), keys@)),
        ),
        orders(r@, texts@.len()),
        r@.len() == texts@.len(),
{
    let ghost placed = texts_by_key(text::strings(texts@), keys@);
    let mut list: Vec<KeyedPage> = Vec::new();
    let mut i: usize = 0;
    while i < texts.len()
        invariant
            i <= texts@.len(),
            keys@.len() == texts@.len(),
            placed == texts_by_key(text::strings(texts@), keys@),
            order::models(list@) =~= placed.take(i as int),
        decreases texts@.len() - i,
    {
        let ghost before = order::models(list@);
        assert(text::strings(texts@)[i as int] == texts@[i as int]@);
        list.push(KeyedPage { page: i, key: keys[i], text: texts[i].as_str().to_string() });
        assert(order::models(list@) =~= before.push(placed[i as int]));
        i += 1;
    }
    assert(order::models(list@) =~= placed);
    let sorted = order::sort(list);
    let mut out: Vec<usize> = Vec::new();
    let mut k: usize = 0;
    let ghost wanted = placed_pages(order::sorted_list(placed));
    proof {
        lemma_sorted_pages(placed);
        assert(order::models(sorted@).len() == sorted@.len());
    }
    while k < sorted.len()
        invariant
            k <= sorted@.len(),
            order::models(sorted@) == order::sorted_list(placed),
            wanted == placed_pages(order::sorted_list(placed)),
            order::ints(out@) =~= wanted.take(k as int),
        decreases sorted@.len() - k,
    {
        let ghost before = order::ints(out@);
        assert(order::models(sorted@)[k as int] == sorted@[k as int].model());
        out.push(sorted[k].page);
        assert(order::ints(out@) =~= before.push(wanted[k as int]));
        k += 1;
    }
    proof {
        assert(order::ints(out@) =~= wanted);
        lemma_orders(out@, wanted, texts@.len());
    }
    out
}

/// The paths of the pages found, in their order.
fn copy_paths(results: &Vec<ProjectSearchResult>) -> (r: Vec<String>)
    ensures
        r@.len() == results@.len(),
        forall|i: int| 0 <= i < r@.len() ==> (#[trigger] r@[i])@ == results@[i].path@,
{
    let mut out: Vec<String> = Vec::new();
    let mut i: usize = 0;
    while i < results.len()
        invariant
            i <= results@.len(),
            out@.len() == i,
            forall|k: int| 0 <= k < i ==> (#[trigger] out@[k])@ == results@[k].path@,
        decreases results@.len() - i,
    {
        out.push(results[i].path.as_str().to_string());
        i += 1;
    }
    out
}

/// The pages found by key and path. The keys compare as the scores do.
pub fn key_order(results: &Vec<ProjectSearchResult>, keys: &Vec<u64>) -> (r: Vec<usize>)
    requires
        keys@.len() == results@.len(),
    ensures
        order::ints(r@) == placed_pages(
            order::sorted_list(by_key(found_pages(results@), keys@)),
        ),
        orders(r@, results@.len()),
        r@.len() == results@.len(),
{
    let texts = copy_paths(results);
    assert(texts_by_key(text::strings(texts@), keys@) =~= by_key(found_pages(results@), keys@));
    order_texts(&texts, keys)
}

impl ProjectSearchResult {
    /// A copy of the result.
    pub fn copy(&self) -> (r: ProjectSearchResult)
        ensures
            r@ == self@,
    {
        let mut images: Vec<SearchImageRef> = Vec::new();
        let mut i: usize = 0;
        while i < self.images.len()
            invariant
                i <= self.images@.len(),
                markdown::images(images@) =~= markdown::images(self.images@).take(i as int),
            decreases self.images@.len() - i,
        {
            let ghost before = markdown::images(images@);
            let image: &SearchImageRef = &self.images[i];
            images.push(
                SearchImageRef {
                    url: image.url.as_str().to_string(),
                    alt: image.alt.as_str().to_string(),
                },
            );
            assert(markdown::images(images@) =~= before.push(image@));
            i += 1;
        }
        assert(markdown::images(images@) =~= markdown::images(self.images@));
        ProjectSearchResult {
            path: self.path.as_str().to_string(),
            title: self.title.as_str().to_string(),
            snippet: self.snippet.as_str().to_string(),
            title_match: self.title_match,
            score: self.score,
            vector: self.vector,
            images,
            content: match &self.content {
                Some(content) => Some(content.as_str().to_string()),
                None => None,
            },
        }
    }
}

/// The pages that an order names first, `limit` at most.
pub open spec fn picked(pages: Seq<FoundPage>, order: Seq<int>, limit: nat) -> Seq<FoundPage> {
    (if order.len() <= limit {
        order
    } else {
        order.take(limit as int)
    }).map_values(|i: int| pages[i])
}

/// The pages that an order names first, `limit` at most.
pub fn pick(results: &Vec<ProjectSearchResult>, order: &Vec<usize>, limit: usize) -> (r: Vec<
    ProjectSearchResult,
>)
    requires
        orders(order@, results@.len()),
    ensures
        found_pages(r@) == picked(found_pages(results@), order::ints(order@), limit as nat),
{
    let ghost wanted = picked(found_pages(results@), order::ints(order@), limit as nat);
    let mut out: Vec<ProjectSearchResult> = Vec::new();
    let mut k: usize = 0;
    while k < order.len() && k < limit
        invariant
            k <= order@.len(),
            k <= limit,
            orders(order@, results@.len()),
            wanted == picked(found_pages(results@), order::ints(order@), limit as nat),
            found_pages(out@) =~= wanted.take(k as int),
        decreases order@.len() - k,
    {
        let ghost before = found_pages(out@);
        let i: usize = order[k];
        assert(order::ints(order@)[k as int] == i);
        assert(wanted[k as int] == results@[i as int]@);
        out.push(results[i].copy());
        assert(found_pages(out@) =~= before.push(wanted[k as int]));
        k += 1;
    }
    assert(found_pages(out@) =~= wanted);
    out
}

/// Of the pages that an order by score gives, none has a lower score than one behind it, and each
/// is one of the pages found.
pub proof fn lemma_results_by_score(pages: Seq<FoundPage>, limit: nat)
    ensures
        ({
            let r = picked(pages, placed_pages(order::sorted_list(by_score(pages))), limit);
            &&& r.len() <= limit
            &&& r.len() <= pages.len()
            &&& forall|i: int, j: int|
                0 <= i < j < r.len() ==> weight((#[trigger] r[i]).score) >= weight(
                    (#[trigger] r[j]).score,
                )
            &&& forall|i: int| 0 <= i < r.len() ==> pages.contains(#[trigger] r[i])
        }),
{
    let placed = by_score(pages);
    let sorted = order::sorted_list(placed);
    let r = picked(pages, placed_pages(sorted), limit);
    order::lemma_sorted_list(placed);
    lemma_sorted_pages(placed);
    assert forall|i: int| 0 <= i < r.len() implies pages.contains(#[trigger] r[i]) && sorted[i].weight
        == weight(r[i].score) by {
        let page = placed_pages(sorted)[i];
        assert(r[i] == pages[page]);
        assert(sorted[i] == placed[page]);
    }
    assert forall|i: int, j: int| 0 <= i < j < r.len() implies weight((#[trigger] r[i]).score)
        >= weight((#[trigger] r[j]).score) by {
        assert(sorted[i].le(sorted[j]));
        assert(pages.contains(r[i]) && pages.contains(r[j]));
    }
}

// ---------------------------------------------------------------------------------------
// Linked pages
// ---------------------------------------------------------------------------------------

/// Whether one of the pages found is at `path`.
pub open spec fn is_found_at(pages: Seq<FoundPage>, path: Seq<char>) -> bool {
    exists|i: int| 0 <= i < pages.len() && (#[trigger] pages[i]).path == path
}

/// The paths of the pages found.
pub fn result_paths(results: &Vec<ProjectSearchResult>) -> (r: TextSet)
    ensures
        r.wf(),
        forall|path: Seq<char>|
            #[trigger] r.set().contains(path) <==> is_found_at(found_pages(results@), path),
{
    let ghost pages = found_pages(results@);
    let mut set = TextSet::new();
    let mut i: usize = 0;
    while i < results.len()
        invariant
            i <= results@.len(),
            pages == found_pages(results@),
            set.wf(),
            forall|path: Seq<char>|
                #[trigger] set.set().contains(path) <==> is_found_at(pages.take(i as int), path),
        decreases results@.len() - i,
    {
        let ghost before = set.set();
        set.insert(text::to_chars(results[i].path.as_str()));
        assert forall|path: Seq<char>|
            #[trigger] set.set().contains(path) <==> is_found_at(pages.take(i + 1), path) by {
            let (a, b) = (pages.take(i as int), pages.take(i + 1));
            assert(b[i as int].path == results@[i as int].path@);
            if before.contains(path) {
                let k = choose|k: int| 0 <= k < a.len() && (#[trigger] a[k]).path == path;
                assert(b[k].path == path);
            }
            if is_found_at(b, path) {
                let k = choose|k: int| 0 <= k < b.len() && (#[trigger] b[k]).path == path;
                if k < i {
                    assert(a[k].path == path);
                }
            }
        }
        i += 1;
    }
    assert(pages.take(pages.len() as int) =~= pages);
    set
}

/// The points of the best page that goes with the query, none where there is no such page.
pub open spec fn best_points(pages: Seq<FoundPage>) -> nat
    decreases pages.len(),
{
    if pages.len() == 0 {
        0
    } else {
        let before = best_points(pages.drop_last());
        match pages.last().score {
            SearchScore::Keyword(points) => if points > before {
                points as nat
            } else {
                before
            },
            _ => before,
        }
    }
}

/// The points of the best page that goes with the query.
pub fn find_best_points(results: &Vec<ProjectSearchResult>) -> (r: u128)
    ensures
        r == best_points(found_pages(results@)),
{
    let ghost pages = found_pages(results@);
    let mut best: u128 = 0;
    let mut i: usize = 0;
    while i < results.len()
        invariant
            i <= results@.len(),
            pages == found_pages(results@),
            best == best_points(pages.take(i as int)),
        decreases results@.len() - i,
    {
        assert(pages.take(i + 1).drop_last() =~= pages.take(i as int));
        assert(pages[i as int] == results@[i as int]@);
        match results[i].score {
            SearchScore::Keyword(points) => {
                if points > best {
                    best = points;
                }
            },
            _ => {},
        }
        i += 1;
    }
    assert(pages.take(pages.len() as int) =~= pages);
    best
}

/// The linked pages that are not found yet, in ascending order of their paths.
pub fn graph_candidates(results: &Vec<ProjectSearchResult>, linked: &TextSet) -> (r: Vec<String>)
    requires
        linked.wf(),
    ensures
        order::ascending(text::strings(r@)),
        forall|path: Seq<char>|
            #[trigger] text::strings(r@).contains(path) <==> linked.set().contains(path)
                && !is_found_at(found_pages(results@), path),
{
    let known = result_paths(results);
    let ghost all = linked.list();
    let ghost old = known.set();
    let mut kept = TextSet::new();
    let mut i: usize = 0;
    while i < linked.len()
        invariant
            i <= all.len(),
            all == linked.list(),
            known.wf(),
            old == known.set(),
            kept.wf(),
            forall|path: Seq<char>|
                #[trigger] kept.set().contains(path) <==> all.take(i as int).contains(path)
                    && !old.contains(path),
        decreases all.len() - i,
    {
        let ghost before = kept.set();
        let path: &[char] = linked.get(i);
        if !known.contains(path) {
            kept.insert(text::copy(path));
        }
        proof {
            order::lemma_insert_set(all.take(i as int), i as int, all[i as int]);
            assert(all.take(i as int).insert(i as int, all[i as int]) =~= all.take(i + 1));
            assert forall|p: Seq<char>|
                #[trigger] kept.set().contains(p) <==> all.take(i + 1).contains(p)
                    && !old.contains(p) by {
                assert(all.take(i + 1).to_set().contains(p) <==> all.take(i + 1).contains(p));
                assert(all.take(i as int).to_set().contains(p) <==> all.take(i as int).contains(p));
                assert(before.contains(p) <==> all.take(i as int).contains(p) && !old.contains(p));
            }
        }
        i += 1;
    }
    assert(all.take(all.len() as int) =~= all);
    let r = kept.to_strings();
    assert forall|path: Seq<char>|
        #[trigger] text::strings(r@).contains(path) <==> linked.set().contains(path)
            && !is_found_at(found_pages(results@), path) by {
        assert(kept.set().contains(path) <==> kept.list().contains(path));
        assert(linked.set().contains(path) <==> all.contains(path));
    }
    r
}

// ---------------------------------------------------------------------------------------
// The vector index
// ---------------------------------------------------------------------------------------

/// A part of a page as the vector index found it. The keys compare as the scores do.
pub struct ChunkKey {
    pub page_id: String,
    pub chunk_index: u32,
    pub key: u64,
}

/// A part of a page, ordered by key, the largest first, and by its place in the page.
pub struct RankedChunk {
    pub chunk: int,
    pub key: nat,
    pub place: nat,
}

impl Ranked for RankedChunk {
    open spec fn le(self, other: Self) -> bool {
        self.key > other.key || (self.key == other.key && self.place <= other.place)
    }

    proof fn le_total(self, other: Self) {
    }

    proof fn le_transitive(self, middle: Self, other: Self) {
    }
}

/// A part of a page by its number.
struct ChunkRef {
    chunk: usize,
    key: u64,
    place: u32,
}

impl Ordered for ChunkRef {
    type Model = RankedChunk;

    closed spec fn model(&self) -> RankedChunk {
        RankedChunk { chunk: self.chunk as int, key: self.key as nat, place: self.place as nat }
    }

    fn is_le(&self, other: &Self) -> (r: bool) {
        self.key > other.key || (self.key == other.key && self.place <= other.place)
    }
}

/// Whether a part of the page `id` was found.
pub open spec fn has_page(chunks: Seq<ChunkKey>, id: Seq<char>) -> bool {
    exists|i: int| 0 <= i < chunks.len() && (#[trigger] chunks[i]).page_id@ == id
}

/// The parts of the page `id`, the best first.
pub open spec fn page_chunks(chunks: Seq<ChunkKey>, id: Seq<char>) -> Seq<RankedChunk> {
    order::sorted_list(
        order::select(chunks.len(), |i: int| chunks[i].page_id@ == id).map_values(
            |i: int|
                RankedChunk {
                    chunk: i,
                    key: chunks[i].key as nat,
                    place: chunks[i].chunk_index as nat,
                },
        ),
    )
}

/// The numbers of ranked parts.
pub open spec fn chunk_numbers(s: Seq<RankedChunk>) -> Seq<int> {
    s.map_values(|c: RankedChunk| c.chunk)
}

/// The parts of a page that were found.
pub struct PageChunks {
    /// The id of the page.
    pub id: String,
    /// The numbers of the parts, the best first.
    pub chunks: Vec<usize>,
}

/// The ids of a list of pages.
pub open spec fn chunk_ids(v: Seq<PageChunks>) -> Seq<Seq<char>> {
    v.map_values(|p: PageChunks| p.id@)
}

/// The parts of the page `id`, the best first.
fn rank_chunks(chunks: &Vec<ChunkKey>, id: &[char]) -> (r: Vec<usize>)
    ensures
        order::ints(r@) == chunk_numbers(page_chunks(chunks@, id@)),
        forall|k: int| 0 <= k < r@.len() ==> #[trigger] r@[k] < chunks@.len(),
        has_page(chunks@, id@) ==> r@.len() > 0,
{
    let ghost p = |i: int| chunks@[i].page_id@ == id@;
    let ghost f = |i: int|
        RankedChunk {
            chunk: i,
            key: chunks@[i].key as nat,
            place: chunks@[i].chunk_index as nat,
        };
    let mut list: Vec<ChunkRef> = Vec::new();
    let mut i: usize = 0;
    assert(order::models(list@) =~= order::select(0, p).map_values(f));
    while i < chunks.len()
        invariant
            i <= chunks@.len(),
            p == |i: int| chunks@[i].page_id@ == id@,
            f == (|i: int|
                RankedChunk {
                    chunk: i,
                    key: chunks@[i].key as nat,
                    place: chunks@[i].chunk_index as nat,
                }),
            order::models(list@) == order::select(i as nat, p).map_values(f),
            forall|k: int| 0 <= k < list@.len() ==> (#[trigger] list@[k]).chunk < chunks@.len(),
        decreases chunks@.len() - i,
    {
        let ghost before = order::models(list@);
        if text::same(text::to_chars(chunks[i].page_id.as_str()).as_slice(), id) {
            list.push(ChunkRef { chunk: i, key: chunks[i].key, place: chunks[i].chunk_index });
            assert(order::models(list@) =~= before.push(f(i as int)));
            assert(order::select(i as nat, p).push(i as int).map_values(f) =~= order::select(
                i as nat,
                p,
            ).map_values(f).push(f(i as int)));
        }
        i += 1;
    }
    let ghost unsorted = list@;
    let sorted = order::sort(list);
    proof {
        let n = chunks@.len();
        order::lemma_select(n, p);
        assert(order::models(unsorted).len() == unsorted.len());
        if has_page(chunks@, id@) {
            let k = choose|k: int| 0 <= k < n && (#[trigger] chunks@[k]).page_id@ == id@;
            assert(p(k));
            assert(order::select(n, p).contains(k));
        }
        assert forall|x: int| 0 <= x < sorted@.len() implies (#[trigger] sorted@[x]).chunk < n by {
            broadcast use vstd::seq_lib::group_to_multiset_ensures;

            assert(sorted@.contains(sorted@[x]));
            assert(sorted@.to_multiset().count(sorted@[x]) > 0);
            assert(unsorted.contains(sorted@[x]));
        }
    }
    let ghost wanted = chunk_numbers(page_chunks(chunks@, id@));
    let mut out: Vec<usize> = Vec::new();
    let mut k: usize = 0;
    assert(order::models(sorted@) == page_chunks(chunks@, id@));
    while k < sorted.len()
        invariant
            k <= sorted@.len(),
            order::models(sorted@) == page_chunks(chunks@, id@),
            wanted == chunk_numbers(page_chunks(chunks@, id@)),
            forall|x: int| 0 <= x < sorted@.len() ==> (#[trigger] sorted@[x]).chunk < chunks@.len(),
            out@.len() == k,
            order::ints(out@) =~= wanted.take(k as int),
            forall|x: int| 0 <= x < k ==> #[trigger] out@[x] < chunks@.len(),
        decreases sorted@.len() - k,
    {
        let ghost before = order::ints(out@);
        assert(order::models(sorted@)[k as int] == sorted@[k as int].model());
        out.push(sorted[k].chunk);
        assert(order::ints(out@) =~= before.push(wanted[k as int]));
        k += 1;
    }
    assert(order::models(sorted@).len() == sorted@.len());
    assert(order::ints(out@) =~= wanted);
    out
}

/// The pages that parts were found of, in ascending order of their ids, each with its parts.
pub fn group_chunks(chunks: &Vec<ChunkKey>) -> (r: Vec<PageChunks>)
    ensures
        order::ascending(chunk_ids(r@)),
        forall|id: Seq<char>|
            #[trigger] chunk_ids(r@).contains(id) <==> has_page(chunks@, id),
        forall|k: int|
            0 <= k < r@.len() ==> {
                &&& order::ints((#[trigger] r@[k]).chunks@) == chunk_numbers(
                    page_chunks(chunks@, r@[k].id@),
                )
                &&& r@[k].chunks@.len() > 0
                &&& forall|x: int|
                    0 <= x < r@[k].chunks@.len() ==> #[trigger] r@[k].chunks@[x] < chunks@.len()
            },
{
    let mut ids = TextSet::new();
    let mut i: usize = 0;
    while i < chunks.len()
        invariant
            i <= chunks@.len(),
            ids.wf(),
            forall|id: Seq<char>|
                #[trigger] ids.set().contains(id) <==> has_page(chunks@.take(i as int), id),
        decreases chunks@.len() - i,
    {
        let ghost before = ids.set();
        ids.insert(text::to_chars(chunks[i].page_id.as_str()));
        assert forall|id: Seq<char>|
            #[trigger] ids.set().contains(id) <==> has_page(chunks@.take(i + 1), id) by {
            let (a, b) = (chunks@.take(i as int), chunks@.take(i + 1));
            assert(b[i as int] == chunks@[i as int]);
            if before.contains(id) {
                let k = choose|k: int| 0 <= k < a.len() && (#[trigger] a[k]).page_id@ == id;
                assert(b[k].page_id@ == id);
            }
            if has_page(b, id) {
                let k = choose|k: int| 0 <= k < b.len() && (#[trigger] b[k]).page_id@ == id;
                if k < i {
                    assert(a[k].page_id@ == id);
                }
            }
        }
        i += 1;
    }
    assert(chunks@.take(chunks@.len() as int) =~= chunks@);
    let mut out: Vec<PageChunks> = Vec::new();
    let mut k: usize = 0;
    while k < ids.len()
        invariant
            k <= ids.list().len(),
            ids.wf(),
            forall|id: Seq<char>| #[trigger] ids.set().contains(id) <==> has_page(chunks@, id),
            out@.len() == k,
            forall|x: int|
                0 <= x < k ==> {
                    &&& (#[trigger] out@[x]).id@ == ids.list()[x]
                    &&& order::ints(out@[x].chunks@) == chunk_numbers(
                        page_chunks(chunks@, out@[x].id@),
                    )
                    &&& out@[x].chunks@.len() > 0
                    &&& forall|y: int|
                        0 <= y < out@[x].chunks@.len() ==> #[trigger] out@[x].chunks@[y]
                            < chunks@.len()
                },
        decreases ids.list().len() - k,
    {
        let id: &[char] = ids.get(k);
        proof {
            assert(ids.list().contains(id@));
            assert(ids.set().contains(id@));
        }
        out.push(PageChunks { id: text::to_text(id), chunks: rank_chunks(chunks, id) });
        k += 1;
    }
    assert(chunk_ids(out@) =~= ids.list());
    assert forall|id: Seq<char>|
        #[trigger] chunk_ids(out@).contains(id) <==> has_page(chunks@, id) by {
        assert(ids.set().contains(id) <==> ids.list().contains(id));
    }
    out
}

/// The parts of the page `id` among the first `n`, in the order in which they were found.
spec fn parts_among(chunks: Seq<ChunkKey>, id: Seq<char>, n: nat) -> Seq<int> {
    order::select(n, |i: int| chunks[i].page_id@ == id)
}

/// The parts of the page `id`, in the order in which they were found.
spec fn found_parts(chunks: Seq<ChunkKey>, id: Seq<char>) -> Seq<RankedChunk> {
    order::select(chunks.len(), |i: int| chunks[i].page_id@ == id).map_values(
        |i: int|
            RankedChunk {
                chunk: i,
                key: chunks[i].key as nat,
                place: chunks[i].chunk_index as nat,
            },
    )
}

/// The parts among the first are those of the page.
proof fn lemma_parts_among(chunks: Seq<ChunkKey>, id: Seq<char>, n: nat)
    ensures
        forall|k: int|
            #[trigger] parts_among(chunks, id, n).contains(k) <==> 0 <= k < n && chunks[k].page_id@
                == id,
    decreases n,
{
    if n > 0 {
        let m = (n - 1) as nat;
        lemma_parts_among(chunks, id, m);
        let (before, all) = (parts_among(chunks, id, m), parts_among(chunks, id, n));
        assert forall|k: int|
            #[trigger] all.contains(k) <==> 0 <= k < n && chunks[k].page_id@ == id by {
            assert(before.contains(k) <==> 0 <= k < m && chunks[k].page_id@ == id);
            if before.contains(k) {
                let x = choose|x: int| 0 <= x < before.len() && before[x] == k;
                assert(all[x] == k);
            }
            if all.contains(k) && !before.contains(k) {
                let x = choose|x: int| 0 <= x < all.len() && all[x] == k;
                if x < before.len() {
                    assert(before[x] == k);
                }
            }
            if k == m && chunks[k].page_id@ == id {
                assert(all[before.len() as int] == k);
            }
        }
    }
}

/// The parts of a page that the vector index found are all listed, the best first, and parts that
/// are as good in the order in which they stand in the page.
pub proof fn lemma_page_chunks(chunks: Seq<ChunkKey>, id: Seq<char>)
    ensures
        ({
            let all = chunk_numbers(page_chunks(chunks, id));
            &&& forall|k: int|
                #[trigger] all.contains(k) <==> 0 <= k < chunks.len() && chunks[k].page_id@ == id
            &&& forall|i: int, j: int|
                0 <= i < j < all.len() ==> {
                    let (a, b) = (chunks[#[trigger] all[i]], chunks[#[trigger] all[j]]);
                    a.key > b.key || (a.key == b.key && a.chunk_index <= b.chunk_index)
                }
        }),
{
    let list = found_parts(chunks, id);
    let picked = parts_among(chunks, id, chunks.len());
    let sorted = page_chunks(chunks, id);
    let all = chunk_numbers(sorted);
    assert(sorted == order::sorted_list(list));
    assert(list.len() == picked.len());
    lemma_parts_among(chunks, id, chunks.len());
    order::lemma_sorted_list(list);
    order::lemma_sorted_list_contains(list);
    assert forall|x: int| 0 <= x < list.len() implies (#[trigger] list[x]).chunk == picked[x]
        && list[x].key == chunks[picked[x]].key && list[x].place == chunks[picked[x]].chunk_index
        && 0 <= picked[x] < chunks.len() && chunks[picked[x]].page_id@ == id by {
        assert(picked.contains(picked[x]));
    }
    assert forall|i: int| 0 <= i < sorted.len() implies 0 <= #[trigger] all[i] < chunks.len()
        && chunks[all[i]].page_id@ == id && sorted[i].key == chunks[all[i]].key
        && sorted[i].place == chunks[all[i]].chunk_index by {
        assert(sorted.contains(sorted[i]));
        assert(list.contains(sorted[i]));
        let x = choose|x: int| 0 <= x < list.len() && list[x] == sorted[i];
        assert(list[x].chunk == picked[x]);
    }
    assert forall|k: int|
        #[trigger] all.contains(k) <==> 0 <= k < chunks.len() && chunks[k].page_id@ == id by {
        if all.contains(k) {
            let i = choose|i: int| 0 <= i < all.len() && all[i] == k;
            assert(all[i] == k);
        }
        if 0 <= k < chunks.len() && chunks[k].page_id@ == id {
            assert(picked.contains(k));
            let x = choose|x: int| 0 <= x < picked.len() && picked[x] == k;
            assert(list.contains(list[x]));
            assert(sorted.contains(list[x]));
            let i = choose|i: int| 0 <= i < sorted.len() && sorted[i] == list[x];
            assert(all[i] == k);
        }
    }
    assert forall|i: int, j: int| 0 <= i < j < all.len() implies ({
        let (a, b) = (chunks[#[trigger] all[i]], chunks[#[trigger] all[j]]);
        a.key > b.key || (a.key == b.key && a.chunk_index <= b.chunk_index)
    }) by {
        assert(sorted[i].le(sorted[j]));
    }
}

/// The first `limit` of the pages by key and id. The keys compare as the scores of the pages do.
pub fn rank_pages(ids: &Vec<String>, keys: &Vec<u64>, limit: usize) -> (r: Vec<usize>)
    requires
        keys@.len() == ids@.len(),
    ensures
        ({
            let all = placed_pages(
                order::sorted_list(texts_by_key(text::strings(ids@), keys@)),
            );
            order::ints(r@) == if all.len() <= limit {
                all
            } else {
                all.take(limit as int)
            }
        }),
        orders(r@, ids@.len()),
{
    let mut out = order_texts(ids, keys);
    let ghost all = order::ints(out@);
    if out.len() > limit {
        let ghost whole = out@;
        out.truncate(limit);
        assert(order::ints(out@) =~= all.take(limit as int));
        assert(orders(out@, ids@.len())) by {
            assert forall|a: int, b: int|
                0 <= a < out@.len() && 0 <= b < out@.len() && a != b implies out@[a]
                != out@[b] by {
                assert(whole[a] != whole[b]);
            }
        }
    } else {
        assert(all.len() == out@.len());
    }
    out
}

/// Whether one of the pages found has the stem `id`.
pub open spec fn has_stem(pages: Seq<FoundPage>, id: Seq<char>) -> bool {
    exists|i: int| 0 <= i < pages.len() && paths::path_stem((#[trigger] pages[i]).path) == id
}

/// The last of the first `k` paths with the stem `id`.
pub open spec fn last_with_stem(list: Seq<Seq<char>>, k: int, id: Seq<char>) -> Option<int>
    decreases k,
{
    if k <= 0 {
        None
    } else if paths::path_stem(list[k - 1]) == id {
        Some(k - 1)
    } else {
        last_with_stem(list, k - 1, id)
    }
}

/// The last of the paths with the stem `id`.
pub fn find_path(list: &Vec<String>, id: &str) -> (r: Option<usize>)
    ensures
        match r {
            Some(i) => i < list@.len() && last_with_stem(
                text::strings(list@),
                list@.len() as int,
                id@,
            ) == Some(i as int),
            None => last_with_stem(text::strings(list@), list@.len() as int, id@) is None,
        },
{
    let ghost all = text::strings(list@);
    let mut k: usize = list.len();
    while k > 0
        invariant
            k <= list@.len(),
            all == text::strings(list@),
            last_with_stem(all, k as int, id@) == last_with_stem(all, list@.len() as int, id@),
        decreases k,
    {
        assert(all[k - 1] == list@[k - 1]@);
        let stem = paths::file_stem(list[k - 1].as_str());
        if text::same_text(stem.as_str(), id) {
            return Some(k - 1);
        }
        k -= 1;
    }
    None
}

/// Of the first `k` pages that the vector index ranks, the places of those that are not found yet
/// and have a path, each with the number of its path. A page that is ranked more than once has its
/// first place.
pub open spec fn vector_only(
    pages: Seq<FoundPage>,
    ids: Seq<Seq<char>>,
    list: Seq<Seq<char>>,
    k: int,
) -> Seq<(int, int)>
    decreases k,
{
    if k <= 0 {
        Seq::empty()
    } else {
        let before = vector_only(pages, ids, list, k - 1);
        let id = ids[k - 1];
        match last_with_stem(list, list.len() as int, id) {
            Some(path) => if has_stem(pages, id) || ids.take(k - 1).contains(id) {
                before
            } else {
                before.push((k - 1, path))
            },
            None => before,
        }
    }
}

/// The places of the pages that the vector index alone has found, each with the number of its
/// path. `ids` holds the ids of the pages that the index ranks, and `list` the paths of all
/// pages.
pub fn vector_candidates(
    results: &Vec<ProjectSearchResult>,
    ids: &Vec<String>,
    list: &Vec<String>,
) -> (r: Vec<(usize, usize)>)
    ensures
        crate::links::pairs(r@) == vector_only(
            found_pages(results@),
            text::strings(ids@),
            text::strings(list@),
            ids@.len() as int,
        ),
        forall|k: int| 0 <= k < r@.len() ==> (#[trigger] r@[k]).0 < ids@.len() && r@[k].1 < list@.len(),
{
    let ghost pages = found_pages(results@);
    let ghost all = text::strings(ids@);
    let mut stems = TextSet::new();
    let mut i: usize = 0;
    while i < results.len()
        invariant
            i <= results@.len(),
            pages == found_pages(results@),
            stems.wf(),
            forall|id: Seq<char>|
                #[trigger] stems.set().contains(id) <==> has_stem(pages.take(i as int), id),
        decreases results@.len() - i,
    {
        let ghost before = stems.set();
        let stem = paths::file_stem(results[i].path.as_str());
        stems.insert(text::to_chars(stem.as_str()));
        assert forall|id: Seq<char>|
            #[trigger] stems.set().contains(id) <==> has_stem(pages.take(i + 1), id) by {
            let (a, b) = (pages.take(i as int), pages.take(i + 1));
            assert(b[i as int].path == results@[i as int].path@);
            if before.contains(id) {
                let k = choose|k: int|
                    0 <= k < a.len() && paths::path_stem((#[trigger] a[k]).path) == id;
                assert(paths::path_stem(b[k].path) == id);
            }
            if has_stem(b, id) {
                let k = choose|k: int|
                    0 <= k < b.len() && paths::path_stem((#[trigger] b[k]).path) == id;
                if k < i {
                    assert(paths::path_stem(a[k].path) == id);
                }
            }
        }
        i += 1;
    }
    assert(pages.take(pages.len() as int) =~= pages);
    let mut out: Vec<(usize, usize)> = Vec::new();
    let mut k: usize = 0;
    assert(crate::links::pairs(out@) =~= vector_only(pages, all, text::strings(list@), 0));
    while k < ids.len()
        invariant
            k <= ids@.len(),
            all == text::strings(ids@),
            stems.wf(),
            forall|id: Seq<char>|
                #[trigger] stems.set().contains(id) <==> has_stem(pages, id) || all.take(
                    k as int,
                ).contains(id),
            crate::links::pairs(out@) == vector_only(pages, all, text::strings(list@), k as int),
            forall|x: int|
                0 <= x < out@.len() ==> (#[trigger] out@[x]).0 < ids@.len() && out@[x].1
                    < list@.len(),
        decreases ids@.len() - k,
    {
        let ghost before = crate::links::pairs(out@);
        assert(all[k as int] == ids@[k as int]@);
        let ghost seen = stems.set();
        if stems.insert(text::to_chars(ids[k].as_str())) {
            match find_path(list, ids[k].as_str()) {
                Some(path) => {
                    out.push((k, path));
                    assert(crate::links::pairs(out@) =~= before.push((k as int, path as int)));
                },
                None => {},
            }
        }
        proof {
            assert(all.take(k + 1) =~= all.take(k as int).push(all[k as int]));
            assert forall|id: Seq<char>|
                #[trigger] stems.set().contains(id) <==> has_stem(pages, id) || all.take(
                    k + 1,
                ).contains(id) by {
                let (a, b) = (all.take(k as int), all.take(k + 1));
                assert(seen.contains(id) <==> has_stem(pages, id) || a.contains(id));
                if a.contains(id) {
                    assert(b[a.index_of(id)] == id);
                }
                if b.contains(id) && id != all[k as int] {
                    assert(a[b.index_of(id)] == id);
                }
                assert(b[k as int] == all[k as int]);
            }
        }
        k += 1;
    }
    out
}

// ---------------------------------------------------------------------------------------
// Fusing
// ---------------------------------------------------------------------------------------

/// The last place of a text among the first `k` of a list.
pub open spec fn last_place(list: Seq<Seq<char>>, x: Seq<char>, k: int) -> Option<int>
    decreases k,
{
    if k <= 0 {
        None
    } else if list[k - 1] == x {
        Some(k - 1)
    } else {
        last_place(list, x, k - 1)
    }
}

/// The place of page `i` in an order of pages: the last one of a page at its path.
pub open spec fn place_of(pages: Seq<FoundPage>, order: Seq<int>, i: int) -> Option<int> {
    last_place(order.map_values(|p: int| pages[p].path), pages[i].path, order.len() as int)
}

/// A place as it counts in a ranking: from one on.
pub open spec fn rank(place: Option<int>) -> Option<usize> {
    match place {
        Some(i) => Some((i + 1) as usize),
        None => None,
    }
}

/// The page found with the score that its places in the two rankings give. A page without a place
/// keeps its score.
pub open spec fn fused(page: FoundPage, token: Option<int>, vector: Option<int>) -> FoundPage {
    if token is None && vector is None {
        page
    } else {
        FoundPage {
            score: SearchScore::Fused(rank(token), rank(vector)),
            vector: match vector {
                Some(i) => Some(i as usize),
                None => None,
            },
            ..page
        }
    }
}

/// The last place of a text in a list.
fn find_place(list: &Vec<String>, x: &str) -> (r: Option<usize>)
    ensures
        match r {
            Some(i) => i < list@.len() && last_place(text::strings(list@), x@, list@.len() as int)
                == Some(i as int),
            None => last_place(text::strings(list@), x@, list@.len() as int) is None,
        },
{
    let ghost all = text::strings(list@);
    let mut k: usize = list.len();
    while k > 0
        invariant
            k <= list@.len(),
            all == text::strings(list@),
            last_place(all, x@, k as int) == last_place(all, x@, list@.len() as int),
        decreases k,
    {
        assert(all[k - 1] == list@[k - 1]@);
        if text::same_text(list[k - 1].as_str(), x) {
            return Some(k - 1);
        }
        k -= 1;
    }
    None
}

/// The places of the pages found in an order of them.
fn find_places(results: &Vec<ProjectSearchResult>, order: &Vec<usize>) -> (r: Vec<Option<usize>>)
    requires
        forall|k: int| 0 <= k < order@.len() ==> #[trigger] order@[k] < results@.len(),
    ensures
        r@.len() == results@.len(),
        forall|x: int|
            0 <= x < r@.len() ==> match #[trigger] r@[x] {
                Some(p) => p < order@.len() && place_of(
                    found_pages(results@),
                    order::ints(order@),
                    x,
                ) == Some(p as int),
                None => place_of(found_pages(results@), order::ints(order@), x) is None,
            },
{
    let ghost pages = found_pages(results@);
    let ghost ordered = order::ints(order@).map_values(|p: int| pages[p].path);
    let set = result_paths(results);
    let m: usize = set.len();
    let mut lasts: Vec<Option<usize>> = Vec::new();
    let mut i: usize = 0;
    while i < m
        invariant
            i <= m,
            lasts@.len() == i,
            forall|q: int| 0 <= q < i ==> #[trigger] lasts@[q] is None,
        decreases m - i,
    {
        lasts.push(None);
        i += 1;
    }
    let total: usize = order.len();
    let mut k: usize = 0;
    while k < total
        invariant
            k <= total,
            total == order@.len(),
            pages == found_pages(results@),
            ordered == order::ints(order@).map_values(|p: int| pages[p].path),
            forall|x: int| 0 <= x < order@.len() ==> #[trigger] order@[x] < results@.len(),
            set.wf(),
            forall|path: Seq<char>|
                #[trigger] set.set().contains(path) <==> is_found_at(pages, path),
            lasts@.len() == set.list().len(),
            forall|q: int|
                0 <= q < lasts@.len() ==> match #[trigger] lasts@[q] {
                    Some(p) => p < k && last_place(ordered, set.list()[q], k as int) == Some(
                        p as int,
                    ),
                    None => last_place(ordered, set.list()[q], k as int) is None,
                },
        decreases total - k,
    {
        let page: usize = order[k];
        let ghost path = results@[page as int].path@;
        assert(pages[page as int].path == path);
        assert(order::ints(order@)[k as int] == page);
        assert(ordered[k as int] == path);
        assert(is_found_at(pages, path));
        match set.position(text::to_chars(results[page].path.as_str()).as_slice()) {
            Some(at) => {
                let ghost before = lasts@;
                lasts[at] = Some(k);
                assert forall|q: int| 0 <= q < lasts@.len() implies (match #[trigger] lasts@[q] {
                    Some(p) => p < k + 1 && last_place(ordered, set.list()[q], k + 1) == Some(
                        p as int,
                    ),
                    None => last_place(ordered, set.list()[q], k + 1) is None,
                }) by {
                    set.lemma_index_of(q);
                    set.lemma_index_of(at as int);
                    if q != at {
                        assert(lasts@[q] == before[q]);
                        assert(set.list()[q] != path);
                    }
                }
            },
            None => {
                assert(set.set().contains(path));
            },
        }
        k += 1;
    }
    let n: usize = results.len();
    let mut out: Vec<Option<usize>> = Vec::new();
    i = 0;
    while i < n
        invariant
            i <= n,
            n == results@.len(),
            total == order@.len(),
            pages == found_pages(results@),
            ordered == order::ints(order@).map_values(|p: int| pages[p].path),
            set.wf(),
            forall|path: Seq<char>|
                #[trigger] set.set().contains(path) <==> is_found_at(pages, path),
            lasts@.len() == set.list().len(),
            forall|q: int|
                0 <= q < lasts@.len() ==> match #[trigger] lasts@[q] {
                    Some(p) => p < total && last_place(ordered, set.list()[q], total as int)
                        == Some(p as int),
                    None => last_place(ordered, set.list()[q], total as int) is None,
                },
            out@.len() == i,
            forall|x: int|
                0 <= x < i ==> match #[trigger] out@[x] {
                    Some(p) => p < total && place_of(pages, order::ints(order@), x) == Some(
                        p as int,
                    ),
                    None => place_of(pages, order::ints(order@), x) is None,
                },
        decreases n - i,
    {
        let ghost path = results@[i as int].path@;
        assert(pages[i as int].path == path);
        assert(is_found_at(pages, path));
        assert(order::ints(order@).len() == total);
        match set.position(text::to_chars(results[i].path.as_str()).as_slice()) {
            Some(at) => {
                assert(set.list()[at as int] == path);
                out.push(lasts[at]);
            },
            None => {
                assert(set.set().contains(path));
                out.push(None);
            },
        }
        i += 1;
    }
    out
}

/// Gives the pages found the scores that their places give: in `order`, which ranks them by
/// points, and in `ids`, the ids of the pages as the vector index ranks them. Of two places of a
/// path or of an id the last one counts.
pub fn fuse(results: &mut Vec<ProjectSearchResult>, order: &Vec<usize>, ids: &Vec<String>)
    requires
        forall|k: int| 0 <= k < order@.len() ==> #[trigger] order@[k] < old(results)@.len(),
    ensures
        found_pages(final(results)@) == Seq::new(
            old(results)@.len(),
            |i: int|
                fused(
                    found_pages(old(results)@)[i],
                    place_of(found_pages(old(results)@), order::ints(order@), i),
                    last_place(
                        text::strings(ids@),
                        paths::path_stem(found_pages(old(results)@)[i].path),
                        ids@.len() as int,
                    ),
                ),
        ),
{
    let ghost pages = found_pages(results@);
    let ghost numbers = order::ints(order@);
    let n: usize = results.len();
    let total: usize = order.len();
    let places = find_places(results, order);
    let mut i: usize = 0;
    while i < n
        invariant
            i <= n,
            n == results@.len(),
            pages.len() == n,
            total == order@.len(),
            places@.len() == n,
            forall|x: int|
                0 <= x < n ==> match #[trigger] places@[x] {
                    Some(p) => place_of(pages, numbers, x) == Some(p as int) && p < total,
                    None => place_of(pages, numbers, x) is None,
                },
            forall|x: int| i <= x < n ==> (#[trigger] results@[x])@ == pages[x],
            forall|x: int|
                0 <= x < i ==> (#[trigger] results@[x])@ == fused(
                    pages[x],
                    place_of(pages, numbers, x),
                    last_place(
                        text::strings(ids@),
                        paths::path_stem(pages[x].path),
                        ids@.len() as int,
                    ),
                ),
        decreases n - i,
    {
        let stem = paths::file_stem(results[i].path.as_str());
        assert(results@[i as int]@ == pages[i as int]);
        let vector = find_place(ids, stem.as_str());
        let token: Option<usize> = places[i];
        let m: usize = ids.len();
        if token.is_some() || vector.is_some() {
            let token_rank: Option<usize> = match token {
                Some(p) => Some(p + 1),
                None => None,
            };
            let vector_rank: Option<usize> = match vector {
                Some(p) => Some(p + 1),
                None => None,
            };
            results[i].score = SearchScore::Fused(token_rank, vector_rank);
            results[i].vector = vector;
        }
        i += 1;
    }
    assert(found_pages(results@) =~= Seq::new(
        n as nat,
        |i: int|
            fused(
                pages[i],
                place_of(pages, numbers, i),
                last_place(
                    text::strings(ids@),
                    paths::path_stem(pages[i].path),
                    ids@.len() as int,
                ),
            ),
    ));
}

// ---------------------------------------------------------------------------------------
// Answers
// ---------------------------------------------------------------------------------------

/// The answer to a request to search a project.
#[derive(Debug, Clone)]
pub struct ProjectSearchResponse {
    pub ok: bool,
    pub mode: String,
    pub results: Vec<ProjectSearchResult>,
    pub token_hits: usize,
    pub graph_hits: usize,
    pub vector_hits: usize,
}

/// How a search was made, given how many pages go with the query, how many linked pages were
/// added and how many pages the vector index ranks.
pub open spec fn search_mode(token_hits: nat, graph_hits: nat, vector_hits: nat) -> Seq<char> {
    if vector_hits == 0 {
        if graph_hits > 0 {
            "graph"@
        } else {
            "keyword"@
        }
    } else if token_hits == 0 {
        "vector"@
    } else {
        "hybrid"@
    }
}

/// The answer to a request to search a project: the pages that an order names first.
pub fn respond(
    results: &Vec<ProjectSearchResult>,
    order: &Vec<usize>,
    limit: usize,
    token_hits: usize,
    graph_hits: usize,
    vector_hits: usize,
) -> (r: ProjectSearchResponse)
    requires
        orders(order@, results@.len()),
    ensures
        r.ok,
        r.mode@ == search_mode(token_hits as nat, graph_hits as nat, vector_hits as nat),
        found_pages(r.results@) == picked(
            found_pages(results@),
            order::ints(order@),
            limit as nat,
        ),
        r.token_hits == token_hits,
        r.graph_hits == graph_hits,
        r.vector_hits == vector_hits,
{
    let mode = if vector_hits == 0 {
        if graph_hits > 0 {
            "graph"
        } else {
            "keyword"
        }
    } else if token_hits == 0 {
        "vector"
    } else {
        "hybrid"
    };
    ProjectSearchResponse {
        ok: true,
        mode: mode.to_string(),
        results: pick(results, order, limit),
        token_hits,
        graph_hits,
        vector_hits,
    }
}

// ---------------------------------------------------------------------------------------
// Pages
// ---------------------------------------------------------------------------------------

/// What is done about the directory of the wiki.
#[derive(Debug)]
pub enum WikiDirectory {
    /// There is none, and the wiki has no pages.
    Missing,
    /// It is to be scanned.
    Scan,
}

/// Refuses a wiki directory that is a symlink or no directory. `None` stands for a directory that
/// is not there.
pub fn check_wiki_directory(kind: Option<EntryKind>) -> (r: Result<
    WikiDirectory,
    ContentServiceError,
>)
    ensures
        match kind {
            None => r matches Ok(WikiDirectory::Missing),
            Some(EntryKind::Directory) => r matches Ok(WikiDirectory::Scan),
            Some(EntryKind::Symlink) => r matches Err(e) && e@ == ContentError::InvalidProject(
                "Project content symlinks are not allowed"@,
            ),
            Some(_) => r matches Err(e) && e@ == ContentError::InvalidProject(
                "Project wiki path must be a directory"@,
            ),
        },
{
    match kind {
        None => Ok(WikiDirectory::Missing),
        Some(EntryKind::Directory) => Ok(WikiDirectory::Scan),
        Some(EntryKind::Symlink) => Err(
            ContentServiceError::invalid_project("Project content symlinks are not allowed"),
        ),
        Some(_) => Err(
            ContentServiceError::invalid_project("Project wiki path must be a directory"),
        ),
    }
}

/// Whether an entry found in a wiki directory is a page: a file with the extension `md`.
pub open spec fn is_page(kind: EntryKind, name: Seq<char>) -> bool {
    kind == EntryKind::File && paths::extension(name) == Some("md"@)
}

/// Takes an entry found in a wiki directory, where `count` pages were found before. A symlink is
/// refused, and so is a page beyond the limit. Whether the entry is a page.
pub fn take_wiki_entry(kind: EntryKind, name: &str, count: usize) -> (r: Result<
    bool,
    ContentServiceError,
>)
    ensures
        match r {
            Ok(page) => kind != EntryKind::Symlink && page == is_page(kind, name@) && (page
                ==> count < MAX_SEARCH_FILES),
            Err(e) => if kind == EntryKind::Symlink {
                e@ == ContentError::InvalidProject("Project content symlinks are not allowed"@)
            } else {
                is_page(kind, name@) && count >= MAX_SEARCH_FILES && e@
                    == ContentError::InvalidProject(
                    "Project wiki exceeds the 10000 file search limit"@,
                )
            },
        },
{
    match kind {
        EntryKind::Symlink => {
            return Err(
                ContentServiceError::invalid_project("Project content symlinks are not allowed"),
            );
        },
        EntryKind::File => {},
        _ => {
            return Ok(false);
        },
    }
    let chars = text::to_chars(name);
    match paths::extension_of(chars.as_slice()) {
        Some(extension) => {
            if !text::is_text(extension, "md") {
                return Ok(false);
            }
        },
        None => {
            return Ok(false);
        },
    }
    if count >= MAX_SEARCH_FILES {
        return Err(
            ContentServiceError::invalid_project(
                "Project wiki exceeds the 10000 file search limit",
            ),
        );
    }
    Ok(true)
}

/// An entry as walking through a wiki directory yields it.
pub enum WalkedEntry {
    /// An entry of the given kind, with its path in the project.
    Found { path: RelativePath, kind: EntryKind },
    /// Walking on failed for the given reason.
    Failed(String),
}

/// The last name of a path, empty where it has none.
pub open spec fn last_name(path: Seq<Seq<char>>) -> Seq<char> {
    if path.len() > 0 {
        path.last()
    } else {
        Seq::empty()
    }
}

/// The pages among the first `k` entries of a walk, in their order, or why the wiki is refused: it
/// holds a symlink or too many pages, or the walk failed.
pub open spec fn walked(entries: Seq<WalkedEntry>, k: int) -> Result<
    Seq<paths::PathOrder>,
    ContentError,
>
    decreases k,
{
    if k <= 0 {
        Ok(Seq::empty())
    } else {
        match walked(entries, k - 1) {
            Err(e) => Err(e),
            Ok(before) => match entries[k - 1] {
                WalkedEntry::Failed(reason) => Err(ContentError::Internal(reason@)),
                WalkedEntry::Found { path, kind } => if kind == EntryKind::Symlink {
                    Err(ContentError::InvalidProject("Project content symlinks are not allowed"@))
                } else if !is_page(kind, last_name(path@)) {
                    Ok(before)
                } else if before.len() >= MAX_SEARCH_FILES {
                    Err(
                        ContentError::InvalidProject(
                            "Project wiki exceeds the 10000 file search limit"@,
                        ),
                    )
                } else {
                    Ok(before.push(paths::PathOrder { parts: path@ }))
                },
            },
        }
    }
}

/// The pages of a wiki in the order of their paths, or why it is refused, given what stands where
/// its directory should be and the entries that walking through it yields.
pub open spec fn wiki_files(directory: Option<EntryKind>, entries: Seq<WalkedEntry>) -> Result<
    Seq<paths::PathOrder>,
    ContentError,
> {
    match directory {
        None => Ok(Seq::empty()),
        Some(EntryKind::Directory) => match walked(entries, entries.len() as int) {
            Err(e) => Err(e),
            Ok(pages) => Ok(order::sorted_list(pages)),
        },
        Some(EntryKind::Symlink) => Err(
            ContentError::InvalidProject("Project content symlinks are not allowed"@),
        ),
        Some(_) => Err(ContentError::InvalidProject("Project wiki path must be a directory"@)),
    }
}

/// What a result of listing the pages of a wiki stands for.
pub open spec fn wiki_files_result(r: Result<Vec<RelativePath>, ContentServiceError>) -> Result<
    Seq<paths::PathOrder>,
    ContentError,
> {
    match r {
        Ok(list) => Ok(order::models(list@)),
        Err(e) => Err(e@),
    }
}

/// A walk that is refused stays refused however many entries follow.
proof fn lemma_walk_refused(entries: Seq<WalkedEntry>, k: int, n: int)
    requires
        0 <= k <= n,
        walked(entries, k) is Err,
    ensures
        walked(entries, n) == walked(entries, k),
    decreases n - k,
{
    if k < n {
        lemma_walk_refused(entries, k + 1, n);
    }
}

/// The pages of a wiki in the order of their paths.
pub fn wiki_markdown_files(directory: Option<EntryKind>, entries: &Vec<WalkedEntry>) -> (r: Result<
    Vec<RelativePath>,
    ContentServiceError,
>)
    ensures
        wiki_files_result(r) == wiki_files(directory, entries@),
{
    let mut pages: Vec<RelativePath> = Vec::new();
    match check_wiki_directory(directory) {
        Err(e) => {
            return Err(e);
        },
        Ok(WikiDirectory::Missing) => {
            assert(order::models(pages@) =~= Seq::<paths::PathOrder>::empty());
            return Ok(pages);
        },
        Ok(WikiDirectory::Scan) => {},
    }
    let mut i: usize = 0;
    assert(order::models(pages@) =~= Seq::<paths::PathOrder>::empty());
    while i < entries.len()
        invariant
            i <= entries@.len(),
            directory == Some(EntryKind::Directory),
            walked(entries@, i as int) == Ok::<Seq<paths::PathOrder>, ContentError>(
                order::models(pages@),
            ),
        decreases entries@.len() - i,
    {
        let ghost before = order::models(pages@);
        proof {
            if walked(entries@, i + 1) is Err {
                lemma_walk_refused(entries@, i + 1, entries@.len() as int);
            }
        }
        match &entries[i] {
            WalkedEntry::Failed(reason) => {
                return Err(ContentServiceError::Internal(reason.as_str().to_string()));
            },
            WalkedEntry::Found { path, kind } => {
                let n: usize = path.parts.len();
                let name: &str = if n > 0 {
                    path.parts[n - 1].as_str()
                } else {
                    ""
                };
                proof {
                    reveal_strlit("");
                    assert(name@ =~= last_name(path@));
                }
                match take_wiki_entry(*kind, name, pages.len()) {
                    Err(e) => {
                        return Err(e);
                    },
                    Ok(page) => if page {
                        let copy = path.copy();
                        let ghost model = copy.model();
                        pages.push(copy);
                        assert(order::models(pages@) =~= before.push(model));
                    },
                }
            },
        }
        i += 1;
    }
    Ok(paths::sort_paths(pages))
}

/// Whether an entry of a walk is a page with the given path.
pub open spec fn is_page_at(entry: WalkedEntry, parts: Seq<Seq<char>>) -> bool {
    entry matches WalkedEntry::Found { path, kind } && path@ == parts && is_page(
        kind,
        last_name(parts),
    )
}

/// The pages listed of a wiki are the pages that walking through it yields, in the order of their
/// paths, and no more than the limit. And a wiki of which pages are listed holds no symlink.
pub proof fn lemma_wiki_files(entries: Seq<WalkedEntry>)
    requires
        wiki_files(Some(EntryKind::Directory), entries) is Ok,
    ensures
        ({
            let list = wiki_files(Some(EntryKind::Directory), entries)->Ok_0;
            &&& list.len() <= MAX_SEARCH_FILES
            &&& order::is_sorted(list)
            &&& forall|parts: Seq<Seq<char>>|
                #[trigger] list.contains(paths::PathOrder { parts }) <==> exists|i: int|
                    0 <= i < entries.len() && is_page_at(#[trigger] entries[i], parts)
            &&& forall|i: int|
                0 <= i < entries.len() ==> (#[trigger] entries[i] matches WalkedEntry::Found {
                    path,
                    kind,
                } && kind != EntryKind::Symlink)
        }),
{
    let pages = walked(entries, entries.len() as int)->Ok_0;
    lemma_walked(entries, entries.len() as int);
    order::lemma_sorted_list(pages);
    order::lemma_sorted_list_contains(pages);
    let list = order::sorted_list(pages);
    assert forall|parts: Seq<Seq<char>>|
        #[trigger] list.contains(paths::PathOrder { parts }) <==> exists|i: int|
            0 <= i < entries.len() && is_page_at(#[trigger] entries[i], parts) by {
        let x = paths::PathOrder { parts };
        assert(list.contains(x) <==> pages.contains(x));
    }
}

/// The pages among the first entries of a walk are those that it yields.
proof fn lemma_walked(entries: Seq<WalkedEntry>, k: int)
    requires
        0 <= k <= entries.len(),
        walked(entries, k) is Ok,
    ensures
        ({
            let list = walked(entries, k)->Ok_0;
            &&& list.len() <= MAX_SEARCH_FILES
            &&& forall|parts: Seq<Seq<char>>|
                #[trigger] list.contains(paths::PathOrder { parts }) <==> exists|i: int|
                    0 <= i < k && is_page_at(#[trigger] entries[i], parts)
            &&& forall|i: int|
                0 <= i < k ==> (#[trigger] entries[i] matches WalkedEntry::Found { path, kind }
                    && kind != EntryKind::Symlink)
        }),
    decreases k,
{
    if k > 0 {
        lemma_walked(entries, k - 1);
        let before = walked(entries, k - 1)->Ok_0;
        let list = walked(entries, k)->Ok_0;
        assert forall|parts: Seq<Seq<char>>|
            #[trigger] list.contains(paths::PathOrder { parts }) <==> exists|i: int|
                0 <= i < k && is_page_at(#[trigger] entries[i], parts) by {
            let x = paths::PathOrder { parts };
            if list.contains(x) {
                let j = choose|j: int| 0 <= j < list.len() && list[j] == x;
                if j < before.len() {
                    assert(before[j] == x);
                    assert(before.contains(x));
                } else {
                    assert(is_page_at(entries[k - 1], parts));
                }
            }
            if exists|i: int| 0 <= i < k && is_page_at(#[trigger] entries[i], parts) {
                let i = choose|i: int| 0 <= i < k && is_page_at(#[trigger] entries[i], parts);
                if i < k - 1 {
                    assert(before.contains(x));
                    let j = choose|j: int| 0 <= j < before.len() && before[j] == x;
                    assert(list[j] == x);
                } else {
                    assert(list[before.len() as int] == x);
                }
            }
        }
    }
}

} // verus!
