//! What holds of reading pages, whatever their text.

use crate::markdown;
use crate::markdown::{FrontMatter, ImageRef};
use crate::outside;
use crate::text;
use crate::text::CharSet;
use crate::text_laws;
use vstd::prelude::*;

verus! {

// ---------------------------------------------------------------------------------------
// Values
// ---------------------------------------------------------------------------------------

/// Whether a text has neither white space nor a quote at either end.
pub open spec fn is_bare(v: Seq<char>) -> bool {
    v.len() > 0 ==> {
        &&& !text::white_space(v[0]) && v[0] != '"' && v[0] != '\''
        &&& !text::white_space(v.last()) && v.last() != '"' && v.last() != '\''
    }
}

/// White space and quotes around a value are no part of it, and everything else is.
pub proof fn lemma_unquoted(a: Seq<char>, v: Seq<char>, b: Seq<char>)
    requires
        is_bare(v),
        text_laws::all_in(a, CharSet::WhiteSpace),
        text_laws::all_in(b, CharSet::WhiteSpace),
    ensures
        markdown::unquoted(a + v + b) == v,
        markdown::unquoted(a + (seq!['"'] + v + seq!['"']) + b) == v,
        markdown::unquoted(a + (seq!['\''] + v + seq!['\'']) + b) == v,
{
    let (w, d, s) = (CharSet::WhiteSpace, CharSet::Only('"'), CharSet::Only('\''));
    let none = Seq::<char>::empty();
    let double = seq!['"'] + v + seq!['"'];
    let single = seq!['\''] + v + seq!['\''];
    assert(none + v + none =~= v);
    assert(none + single + none =~= single);
    text_laws::lemma_trimmed_around(a, v, b, w);
    text_laws::lemma_trimmed_around(none, v, none, d);
    text_laws::lemma_trimmed_around(none, v, none, s);
    text_laws::lemma_trimmed_around(a, double, b, w);
    text_laws::lemma_trimmed_around(seq!['"'], v, seq!['"'], d);
    text_laws::lemma_trimmed_around(a, single, b, w);
    text_laws::lemma_trimmed_around(none, single, none, d);
    text_laws::lemma_trimmed_around(seq!['\''], v, seq!['\''], s);
}

/// The title that a file name stands for is the name without `.md`, with spaces for hyphens.
pub proof fn lemma_title_of_file(stem: Seq<char>)
    requires
        !text::ends_with(stem, ".md"@),
    ensures
        markdown::title_of_file(stem + ".md"@) == markdown::title_of_file(stem),
        markdown::title_of_file(stem).len() == stem.len(),
        forall|i: int|
            0 <= i < stem.len() ==> #[trigger] markdown::title_of_file(stem)[i] == if stem[i]
                == '-' {
                ' '
            } else {
                stem[i]
            },
{
    reveal_strlit(".md");
    text_laws::lemma_without_suffixes(stem, ".md"@);
}

// ---------------------------------------------------------------------------------------
// Titles
// ---------------------------------------------------------------------------------------

/// Whether front matter ends before line `end`: no line from the second one on before it is the
/// delimiter, and it is one or the page ends there.
pub open spec fn ends_at(lines: Seq<Seq<char>>, end: int) -> bool {
    &&& 1 <= end <= lines.len()
    &&& forall|k: int| 1 <= k < end ==> text::trimmed(#[trigger] lines[k]) != "---"@
    &&& end < lines.len() ==> text::trimmed(lines[end]) == "---"@
}

proof fn lemma_end(lines: Seq<Seq<char>>, from: int, end: int)
    requires
        ends_at(lines, end),
        1 <= from <= end,
    ensures
        markdown::delimiter_from(lines, from) == end,
    decreases end - from,
{
    if from < end {
        assert(!markdown::is_delimiter(lines[from]));
        lemma_end(lines, from + 1, end);
    }
}

/// Whether line `k` is the first one from `from` on that starts with `prefix`, apart from white
/// space around it.
pub open spec fn first_with(lines: Seq<Seq<char>>, prefix: Seq<char>, from: int, k: int) -> bool {
    &&& from <= k < lines.len()
    &&& text::starts_with(text::trimmed(lines[k]), prefix)
    &&& forall|x: int| from <= x < k ==> !text::starts_with(text::trimmed(#[trigger] lines[x]), prefix)
}

proof fn lemma_first_with(lines: Seq<Seq<char>>, prefix: Seq<char>, from: int, to: int, k: int)
    requires
        0 <= from <= to <= lines.len(),
    ensures
        first_with(lines, prefix, from, k) && k < to ==> markdown::prefixed_from(
            lines,
            prefix,
            from,
            to,
        ) == k,
        (forall|x: int|
            from <= x < to ==> !text::starts_with(text::trimmed(#[trigger] lines[x]), prefix))
            ==> markdown::prefixed_from(lines, prefix, from, to) == to,
    decreases to - from,
{
    if from < to {
        lemma_first_with(lines, prefix, from + 1, to, k);
        if !markdown::line_starts(lines[from], prefix) {
            if first_with(lines, prefix, from, k) {
                assert(k != from);
                assert(first_with(lines, prefix, from + 1, k));
            }
        }
    }
}

/// The title of a page without front matter is the text of its first heading of the first level,
/// and where it has none what its file name stands for.
pub proof fn lemma_title_from_heading(
    content: Seq<char>,
    file_name: Seq<char>,
    k: int,
    heading: Seq<char>,
)
    requires
        !text::starts_with(content, "---"@),
    ensures
        first_with(text::line_list(content), "# "@, 0, k) && text::trimmed(
            text::line_list(content)[k],
        ) == "# "@ + heading ==> markdown::page_title(content, file_name) == text::trimmed(heading)
            && markdown::page_label(content, file_name) == text::trimmed(heading),
        (forall|x: int|
            0 <= x < text::line_list(content).len() ==> !text::starts_with(
                text::trimmed(#[trigger] text::line_list(content)[x]),
                "# "@,
            )) ==> markdown::page_title(content, file_name) == markdown::title_of_file(file_name)
            && markdown::page_label(content, file_name) == markdown::title_of_file(file_name),
{
    let lines = text::line_list(content);
    lemma_first_with(lines, "# "@, 0, lines.len() as int, k);
    lemma_behind(lines[k], "# "@, heading);
}

proof fn lemma_behind(line: Seq<char>, prefix: Seq<char>, rest: Seq<char>)
    ensures
        text::trimmed(line) == prefix + rest ==> markdown::behind(line, prefix) == rest
            && text::starts_with(text::trimmed(line), prefix),
{
    text_laws::lemma_starts_and_ends(prefix, rest);
    assert((prefix + rest).subrange(prefix.len() as int, (prefix + rest).len() as int) =~= rest);
}

/// The title of a page with front matter is the value of the first line of it that starts with
/// `title:`. Where there is none it is the first heading behind the front matter, and where that is
/// missing too what the file name stands for. A heading inside the front matter does not count.
pub proof fn lemma_title_from_front_matter(
    content: Seq<char>,
    file_name: Seq<char>,
    end: int,
    k: int,
    value: Seq<char>,
)
    requires
        text::starts_with(content, "---"@),
        ends_at(text::line_list(content), end),
    ensures
        ({
            let lines = text::line_list(content);
            let title = markdown::page_title(content, file_name);
            let no_title = forall|x: int|
                1 <= x < end ==> !text::starts_with(text::trimmed(#[trigger] lines[x]), "title:"@);
            &&& first_with(lines, "title:"@, 1, k) && k < end && text::trimmed(lines[k])
                == "title:"@ + value && !text::starts_with(value, "title:"@) ==> title
                == markdown::unquoted(value)
            &&& no_title && first_with(lines, "# "@, end + 1, k) && text::trimmed(lines[k])
                == "# "@ + value ==> title == text::trimmed(value)
            &&& no_title && (forall|x: int|
                end < x < lines.len() ==> !text::starts_with(
                    text::trimmed(#[trigger] lines[x]),
                    "# "@,
                )) ==> title == markdown::title_of_file(file_name)
        }),
{
    let lines = text::line_list(content);
    lemma_end(lines, 1, end);
    lemma_first_with(lines, "title:"@, 1, end, k);
    reveal_strlit("title:");
    reveal_strlit("---");
    if end < lines.len() {
        lemma_first_with(lines, "# "@, end + 1, lines.len() as int, k);
    }
    lemma_behind(lines[k], "title:"@, value);
    lemma_behind(lines[k], "# "@, value);
    text_laws::lemma_without_prefixes(value, "title:"@);
}

// ---------------------------------------------------------------------------------------
// Front matter
// ---------------------------------------------------------------------------------------

/// A line of front matter that starts with `title:` gives the title and one that starts with
/// `type:` the kind, whatever was given before. Both end the list of sources and change nothing
/// else.
pub proof fn lemma_title_and_kind_lines(m: FrontMatter, line: Seq<char>, value: Seq<char>)
    ensures
        text::trimmed(line) == "title:"@ + value ==> markdown::with_line(m, line) == (FrontMatter {
            title: markdown::unquoted(value),
            kind: m.kind,
            sources: m.sources,
            in_sources: false,
        }),
        text::trimmed(line) == "type:"@ + value ==> markdown::with_line(m, line) == (FrontMatter {
            title: m.title,
            kind: Some(markdown::unquoted(value)),
            sources: m.sources,
            in_sources: false,
        }),
{
    reveal_strlit("title:");
    reveal_strlit("type:");
    lemma_behind(line, "title:"@, value);
    lemma_behind(line, "type:"@, value);
    if text::trimmed(line) == "type:"@ + value {
        lemma_other_start(text::trimmed(line), "title:"@, 1);
    }
}

proof fn lemma_other_start(t: Seq<char>, prefix: Seq<char>, i: int)
    requires
        0 <= i < t.len(),
        i < prefix.len(),
        t[i] != prefix[i],
    ensures
        !text::starts_with(t, prefix),
{
    if text::starts_with(t, prefix) {
        assert(t.subrange(0, prefix.len() as int)[i] == t[i]);
    }
}

/// A line that starts with `sources:` opens the list of sources, and each line behind it that
/// starts with a hyphen adds its value and leaves the list open for the next one. Blank lines leave
/// it open too. A line that starts with something else closes it, and with the list closed a line
/// that starts with a hyphen adds nothing.
pub proof fn lemma_source_lines(m: FrontMatter, line: Seq<char>, value: Seq<char>)
    ensures
        text::trimmed(line) == "sources:"@ + value ==> ({
            let n = markdown::with_line(m, line);
            &&& n.in_sources
            &&& n.title == m.title && n.kind == m.kind
            &&& forall|s: Seq<char>|
                #[trigger] n.sources.contains(s) <==> m.sources.contains(s)
                    || markdown::inline_sources(value).contains(s)
        }),
        text::trimmed(line) == "-"@ + value ==> ({
            let n = markdown::with_line(m, line);
            &&& n.in_sources == m.in_sources
            &&& n.title == m.title && n.kind == m.kind
            &&& forall|s: Seq<char>|
                #[trigger] n.sources.contains(s) <==> m.sources.contains(s) || (m.in_sources
                    && s.len() > 0 && s == markdown::unquoted(value))
        }),
        text::trimmed(line).len() == 0 ==> markdown::with_line(m, line) == m,
        text::trimmed(line).len() > 0 && text::trimmed(line)[0] != '-' && !text::starts_with(
            text::trimmed(line),
            "sources:"@,
        ) ==> !markdown::with_line(m, line).in_sources && markdown::with_line(m, line).sources
            == m.sources,
{
    reveal_strlit("sources:");
    reveal_strlit("title:");
    reveal_strlit("type:");
    reveal_strlit("-");
    let t = text::trimmed(line);
    lemma_behind(line, "sources:"@, value);
    lemma_behind(line, "-"@, value);
    if t == "sources:"@ + value {
        lemma_other_start(t, "title:"@, 0);
        lemma_other_start(t, "type:"@, 0);
    }
    if t == "-"@ + value {
        lemma_other_start(t, "title:"@, 0);
        lemma_other_start(t, "type:"@, 0);
        lemma_other_start(t, "sources:"@, 0);
    }
    if t.len() > 0 && t[0] != '-' {
        lemma_other_start(t, "-"@, 0);
    }
}

/// Every item of the list of sources is a source of the page: where a line of the front matter
/// starts with `sources:` and every line behind it up to some line starts with a hyphen or is blank,
/// the value of that line is one of the sources.
pub proof fn lemma_every_listed_source(
    content: Seq<char>,
    end: int,
    list: int,
    item: int,
    value: Seq<char>,
)
    requires
        text::starts_with(content, "---"@),
        ends_at(text::line_list(content), end),
        1 <= list < item < end,
        text::starts_with(text::trimmed(text::line_list(content)[list]), "sources:"@),
        forall|k: int|
            list < k <= item ==> text::starts_with(
                text::trimmed(#[trigger] text::line_list(content)[k]),
                "-"@,
            ) || text::trimmed(text::line_list(content)[k]).len() == 0,
        text::trimmed(text::line_list(content)[item]) == "-"@ + value,
        markdown::unquoted(value).len() > 0,
    ensures
        markdown::page_front_matter(content).sources.contains(markdown::unquoted(value)),
{
    let lines = text::line_list(content);
    lemma_end(lines, 1, end);
    lemma_list_stays_open(lines, list, item);
    lemma_source_lines(markdown::front_matter(lines, 1, item), lines[item], value);
    assert(markdown::front_matter(lines, 1, item + 1).sources.contains(markdown::unquoted(value)));
    lemma_sources_stay(lines, item + 1, end, markdown::unquoted(value));
}

proof fn lemma_list_stays_open(lines: Seq<Seq<char>>, list: int, to: int)
    requires
        1 <= list < to <= lines.len(),
        text::starts_with(text::trimmed(lines[list]), "sources:"@),
        forall|k: int|
            list < k < to ==> text::starts_with(text::trimmed(#[trigger] lines[k]), "-"@)
                || text::trimmed(lines[k]).len() == 0,
    ensures
        markdown::front_matter(lines, 1, to).in_sources,
    decreases to - list,
{
    let t = text::trimmed(lines[to - 1]);
    let m = markdown::front_matter(lines, 1, to - 1);
    reveal_strlit("sources:");
    reveal_strlit("-");
    if to - 1 == list {
        let rest = t.subrange(8, t.len() as int);
        assert(t =~= t.subrange(0, 8) + rest);
        lemma_source_lines(m, lines[to - 1], rest);
    } else {
        lemma_list_stays_open(lines, list, to - 1);
        if t.len() == 0 {
            lemma_source_lines(m, lines[to - 1], t);
        } else {
            let rest = t.subrange(1, t.len() as int);
            assert(t =~= t.subrange(0, 1) + rest);
            lemma_source_lines(m, lines[to - 1], rest);
        }
    }
}

proof fn lemma_sources_stay(lines: Seq<Seq<char>>, from: int, to: int, source: Seq<char>)
    requires
        1 <= from <= to,
        markdown::front_matter(lines, 1, from).sources.contains(source),
    ensures
        markdown::front_matter(lines, 1, to).sources.contains(source),
    decreases to - from,
{
    if from < to {
        lemma_sources_stay(lines, from, to - 1, source);
    }
}

/// Every source of a page stands in its front matter: as an item of the list, or in a list behind
/// `sources:` in brackets.
pub proof fn lemma_no_other_source(content: Seq<char>, source: Seq<char>)
    requires
        markdown::page_front_matter(content).sources.contains(source),
    ensures
        text::starts_with(content, "---"@),
        source.len() > 0,
        exists|k: int|
            1 <= k < text::line_list(content).len() && gives_source(
                #[trigger] text::line_list(content)[k],
                source,
            ),
{
    let lines = text::line_list(content);
    let end = markdown::delimiter_from(lines, 1);
    assert(text::starts_with(content, markdown::delimiter()));
    lemma_delimiter_bound(lines, 1);
    lemma_source_from_line(lines, end, source);
}

/// Whether a line names a source: behind a hyphen, or behind `sources:` in brackets.
pub open spec fn gives_source(line: Seq<char>, source: Seq<char>) -> bool {
    let t = text::trimmed(line);
    ||| exists|v: Seq<char>| t == #[trigger] ("-"@ + v) && markdown::unquoted(v) == source
    ||| exists|v: Seq<char>|
        t == #[trigger] ("sources:"@ + v) && markdown::inline_sources(v).contains(source)
}

proof fn lemma_delimiter_bound(lines: Seq<Seq<char>>, from: int)
    ensures
        markdown::delimiter_from(lines, from) <= lines.len(),
    decreases lines.len() - from,
{
    if 0 <= from < lines.len() && !markdown::is_delimiter(lines[from]) {
        lemma_delimiter_bound(lines, from + 1);
    }
}

proof fn lemma_source_from_line(lines: Seq<Seq<char>>, to: int, source: Seq<char>)
    requires
        to <= lines.len(),
        markdown::front_matter(lines, 1, to).sources.contains(source),
    ensures
        source.len() > 0,
        exists|k: int| 1 <= k < to && gives_source(#[trigger] lines[k], source),
    decreases to,
{
    if to > 1 {
        let m = markdown::front_matter(lines, 1, to - 1);
        let line = lines[to - 1];
        let t = text::trimmed(line);
        if m.sources.contains(source) {
            lemma_source_from_line(lines, to - 1, source);
            let k = choose|k: int| 1 <= k < to - 1 && gives_source(#[trigger] lines[k], source);
            assert(gives_source(lines[k], source));
        } else {
            reveal_strlit("sources:");
            reveal_strlit("-");
            if text::starts_with(t, "sources:"@) {
                let rest = markdown::behind(line, "sources:"@);
                assert(t =~= "sources:"@ + rest);
                assert(markdown::inline_sources(rest).contains(source));
                assert(gives_source(line, source));
            } else {
                let rest = markdown::behind(line, "-"@);
                assert(t =~= "-"@ + rest);
                assert(gives_source(line, source));
            }
            assert(gives_source(lines[to - 1], source));
        }
    }
}

/// A list in brackets names what stands between its commas, without quotes, where that is not
/// empty. A value without brackets names nothing.
pub proof fn lemma_inline_sources(body: Seq<char>, source: Seq<char>)
    ensures
        markdown::inline_sources(seq!['['] + body + seq![']']).contains(source) <==> source.len()
            > 0 && exists|i: int|
            0 <= i < text::pieces(body, CharSet::Only(',')).len() && markdown::unquoted(
                #[trigger] text::pieces(body, CharSet::Only(','))[i],
            ) == source,
        body.len() > 0 && !text::white_space(body[0]) && body[0] != '['
            ==> !markdown::inline_sources(body).contains(source),
{
    let all = seq!['['] + body + seq![']'];
    let none = Seq::<char>::empty();
    assert(none + all + none =~= all);
    text_laws::lemma_trimmed_around(none, all, none, CharSet::WhiteSpace);
    assert(all =~= seq!['['] + (body + seq![']']));
    text_laws::lemma_starts_and_ends(seq!['['], body + seq![']']);
    text_laws::lemma_starts_and_ends(body, seq![']']);
    if body.len() > 0 && !text::white_space(body[0]) && body[0] != '[' {
        assert(!text::starts_with(text::trimmed(body), seq!['['])) by {
            text_laws::lemma_trimmed_parts(body, CharSet::WhiteSpace);
            let (a, b) = choose|a: Seq<char>, b: Seq<char>|
                #![trigger text_laws::all_in(a, CharSet::WhiteSpace), text_laws::all_in(b, CharSet::WhiteSpace)]
                text_laws::all_in(a, CharSet::WhiteSpace) && text_laws::all_in(
                    b,
                    CharSet::WhiteSpace,
                ) && body == a + text::trimmed(body) + b;
            assert(a.len() == 0) by {
                if a.len() > 0 {
                    assert(body[0] == a[0]);
                }
            }
            let t = text::trimmed(body);
            if text::starts_with(t, seq!['[']) {
                assert(t.subrange(0, 1)[0] == '[');
                assert(t[0] == '[');
                assert((a + t + b)[0] == t[0]);
            }
        }
    }
}

/// The kind of a page is what the last line of its front matter that starts with `type:` says, in
/// lower case. A page that does not say is of the kind `other`.
pub proof fn lemma_page_kind(content: Seq<char>, end: int, k: int, value: Seq<char>)
    requires
        ends_at(text::line_list(content), end),
    ensures
        !text::starts_with(content, "---"@) ==> markdown::page_kind(content) == "other"@,
        ({
            let lines = text::line_list(content);
            &&& text::starts_with(content, "---"@) && 1 <= k < end && text::trimmed(lines[k])
                == "type:"@ + value && (forall|x: int|
                k < x < end ==> !text::starts_with(text::trimmed(#[trigger] lines[x]), "type:"@))
                ==> markdown::page_kind(content) == outside::lowercase(markdown::unquoted(value))
            &&& text::starts_with(content, "---"@) && (forall|x: int|
                1 <= x < end ==> !text::starts_with(text::trimmed(#[trigger] lines[x]), "type:"@))
                ==> markdown::page_kind(content) == "other"@
        }),
{
    let lines = text::line_list(content);
    lemma_end(lines, 1, end);
    if 1 <= k < end && text::trimmed(lines[k]) == "type:"@ + value && (forall|x: int|
        k < x < end ==> !text::starts_with(text::trimmed(#[trigger] lines[x]), "type:"@)) {
        lemma_title_and_kind_lines(markdown::front_matter(lines, 1, k), lines[k], value);
        assert(markdown::front_matter(lines, 1, k + 1).kind == Some(markdown::unquoted(value)));
        lemma_kind_stays(lines, k + 1, end);
    }
    if forall|x: int|
        1 <= x < end ==> !text::starts_with(text::trimmed(#[trigger] lines[x]), "type:"@) {
        lemma_kind_stays(lines, 1, end);
    }
}

proof fn lemma_kind_stays(lines: Seq<Seq<char>>, from: int, to: int)
    requires
        1 <= from <= to,
        forall|x: int|
            from <= x < to ==> !text::starts_with(text::trimmed(#[trigger] lines[x]), "type:"@),
    ensures
        markdown::front_matter(lines, 1, to).kind == markdown::front_matter(lines, 1, from).kind,
    decreases to - from,
{
    if from < to {
        lemma_kind_stays(lines, from, to - 1);
    }
}

/// The label of a page in the graph is what the last line of its front matter that starts with
/// `title:` says, where that is not empty.
pub proof fn lemma_page_label(
    content: Seq<char>,
    file_name: Seq<char>,
    end: int,
    k: int,
    value: Seq<char>,
)
    requires
        text::starts_with(content, "---"@),
        ends_at(text::line_list(content), end),
        1 <= k < end,
        text::trimmed(text::line_list(content)[k]) == "title:"@ + value,
        forall|x: int|
            k < x < end ==> !text::starts_with(
                text::trimmed(#[trigger] text::line_list(content)[x]),
                "title:"@,
            ),
        markdown::unquoted(value).len() > 0,
    ensures
        markdown::page_label(content, file_name) == markdown::unquoted(value),
{
    let lines = text::line_list(content);
    lemma_end(lines, 1, end);
    lemma_title_and_kind_lines(markdown::front_matter(lines, 1, k), lines[k], value);
    assert(markdown::front_matter(lines, 1, k + 1).title == markdown::unquoted(value));
    lemma_title_stays(lines, k + 1, end);
}

proof fn lemma_title_stays(lines: Seq<Seq<char>>, from: int, to: int)
    requires
        1 <= from <= to,
        forall|x: int|
            from <= x < to ==> !text::starts_with(text::trimmed(#[trigger] lines[x]), "title:"@),
    ensures
        markdown::front_matter(lines, 1, to).title == markdown::front_matter(lines, 1, from).title,
    decreases to - from,
{
    if from < to {
        lemma_title_stays(lines, from, to - 1);
    }
}

/// A page without a title in its front matter has the label of its first heading behind the front
/// matter, and where it has none what its file name stands for.
pub proof fn lemma_page_label_without_title(
    content: Seq<char>,
    file_name: Seq<char>,
    end: int,
    k: int,
    heading: Seq<char>,
)
    requires
        text::starts_with(content, "---"@),
        ends_at(text::line_list(content), end),
        forall|x: int|
            1 <= x < end ==> !text::starts_with(
                text::trimmed(#[trigger] text::line_list(content)[x]),
                "title:"@,
            ),
    ensures
        ({
            let lines = text::line_list(content);
            &&& first_with(lines, "# "@, end + 1, k) && text::trimmed(lines[k]) == "# "@ + heading
                ==> markdown::page_label(content, file_name) == text::trimmed(heading)
            &&& (forall|x: int|
                end < x < lines.len() ==> !text::starts_with(
                    text::trimmed(#[trigger] lines[x]),
                    "# "@,
                )) ==> markdown::page_label(content, file_name) == markdown::title_of_file(
                file_name,
            )
        }),
{
    let lines = text::line_list(content);
    lemma_end(lines, 1, end);
    lemma_title_stays(lines, 1, end);
    lemma_behind(lines[k], "# "@, heading);
    if end < lines.len() {
        lemma_first_with(lines, "# "@, end + 1, lines.len() as int, k);
    }
}

// ---------------------------------------------------------------------------------------
// Images and links
// ---------------------------------------------------------------------------------------

/// Every image reference of a page is read, one behind the other: the description stands between
/// `![` and `](`, and the address behind that up to the next round bracket.
pub proof fn lemma_image_marks(a: Seq<char>, alt: Seq<char>, url: Seq<char>, rest: Seq<char>)
    requires
        forall|k: int|
            0 <= k < a.len() ==> !#[trigger] text::occurs_at(
                a + "!["@ + (alt + "]("@ + (url + ")"@ + rest)),
                "!["@,
                k,
            ),
        forall|k: int|
            0 <= k < alt.len() ==> !#[trigger] text::occurs_at(
                alt + "]("@ + (url + ")"@ + rest),
                "]("@,
                k,
            ),
        !url.contains(')'),
    ensures
        markdown::image_marks(a + "!["@ + (alt + "]("@ + (url + ")"@ + rest))) == seq![
            ImageRef { url, alt },
        ] + markdown::image_marks(rest),
{
    reveal_strlit("![");
    reveal_strlit("](");
    reveal_strlit(")");
    let c = url + ")"@ + rest;
    let b = alt + "]("@ + c;
    let s = a + "!["@ + b;
    text_laws::lemma_position(a, "!["@, b);
    text_laws::lemma_position(alt, "]("@, c);
    assert forall|k: int| 0 <= k < url.len() implies !#[trigger] text::occurs_at(c, ")"@, k) by {
        if text::occurs_at(c, ")"@, k) {
            assert(c.subrange(k, k + 1)[0] == ')');
            assert(url[k] == ')');
            assert(url.contains(url[k]));
        }
    }
    text_laws::lemma_position(url, ")"@, rest);
    assert(markdown::rest_behind(s, a.len() as int, 2) =~= b);
    assert(markdown::rest_behind(b, alt.len() as int, 2) =~= c);
    assert(markdown::rest_behind(c, url.len() as int, 1) =~= rest);
    assert(c.subrange(0, url.len() as int) =~= url);
    assert(b.subrange(0, alt.len() as int) =~= alt);
}

/// A page without `![` refers to no image.
pub proof fn lemma_no_image(s: Seq<char>)
    requires
        !text::contains_text(s, "!["@),
    ensures
        markdown::page_images(s) == Seq::<ImageRef>::empty(),
{
    text::lemma_found_is_contained(s, "!["@);
}

/// Of the references of a page those count whose address is not empty and holds no white space, the
/// first one for each address, in their order.
pub proof fn lemma_distinct_images(marks: Seq<ImageRef>, mark: ImageRef)
    ensures
        ({
            let (before, all) = (
                markdown::distinct_images(marks),
                markdown::distinct_images(marks.push(mark)),
            );
            let blank = mark.url.len() == 0 || exists|k: int|
                0 <= k < mark.url.len() && text::white_space(#[trigger] mark.url[k]);
            let known = exists|k: int| 0 <= k < before.len() && (#[trigger] before[k]).url == mark.url;
            all == if blank || known {
                before
            } else {
                before.push(mark)
            }
        }),
        markdown::distinct_images(Seq::<ImageRef>::empty()) == Seq::<ImageRef>::empty(),
{
    assert(marks.push(mark).drop_last() =~= marks);
    let url = mark.url;
    if url.len() > 0 && forall|k: int| 0 <= k < url.len() ==> !text::white_space(#[trigger] url[k]) {
        assert(!text::white_space(url[0]) && !text::white_space(url[url.len() - 1]));
        text::lemma_trimmed_same(url);
    }
    if url.len() == 0 {
        assert(text::trimmed(url).len() == 0);
    }
}

/// Every link `[[target]]` of a page is read, one behind the other. A link names what stands before
/// the first bar in it, without white space around it, and one that names nothing is left out.
pub proof fn lemma_page_links(a: Seq<char>, inner: Seq<char>, rest: Seq<char>)
    requires
        forall|k: int|
            0 <= k < a.len() ==> !#[trigger] text::occurs_at(
                a + "[["@ + (inner + "]]"@ + rest),
                "[["@,
                k,
            ),
        forall|k: int|
            0 <= k < inner.len() ==> !#[trigger] text::occurs_at(inner + "]]"@ + rest, "]]"@, k),
    ensures
        markdown::page_links(a + "[["@ + (inner + "]]"@ + rest)) == (if markdown::link_target(
            inner,
        ).len() > 0 {
            seq![markdown::link_target(inner)]
        } else {
            Seq::empty()
        }) + markdown::page_links(rest),
{
    reveal_strlit("[[");
    reveal_strlit("]]");
    let b = inner + "]]"@ + rest;
    let s = a + "[["@ + b;
    text_laws::lemma_position(a, "[["@, b);
    text_laws::lemma_position(inner, "]]"@, rest);
    assert(markdown::rest_behind(s, a.len() as int, 2) =~= b);
    assert(markdown::rest_behind(b, inner.len() as int, 2) =~= rest);
    assert(b.subrange(0, inner.len() as int) =~= inner);
    assert(Seq::<Seq<char>>::empty() + markdown::page_links(rest) =~= markdown::page_links(rest));
}

/// What stands behind a bar in a link is its label and does not count.
pub proof fn lemma_link_target(target: Seq<char>, label: Seq<char>)
    requires
        !target.contains('|'),
    ensures
        markdown::link_target(target) == text::trimmed(target),
        markdown::link_target(target + seq!['|'] + label) == text::trimmed(target),
{
    text::lemma_pieces_single(target, '|');
    text::lemma_pieces_concat(target, label, '|');
    text::lemma_pieces_not_empty(label, CharSet::Only('|'));
}

/// A page without `[[` names no other page.
pub proof fn lemma_no_link(s: Seq<char>)
    requires
        !text::contains_text(s, "[["@),
    ensures
        markdown::page_links(s) == Seq::<Seq<char>>::empty(),
{
    text::lemma_found_is_contained(s, "[["@);
}

} // verus!
