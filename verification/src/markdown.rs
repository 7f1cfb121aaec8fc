//! What a wiki page says about itself: its front matter, its title, its images and its links.

use crate::order::TextSet;
use crate::text;
use crate::text::CharSet;
use vstd::prelude::*;
use vstd::slice::slice_subrange;

verus! {

/// The line that opens and closes the front matter of a page.
pub open spec fn delimiter() -> Seq<char> {
    "---"@
}

/// Whether a line, apart from white space around it, is the front matter delimiter.
pub open spec fn is_delimiter(line: Seq<char>) -> bool {
    text::trimmed(line) == delimiter()
}

/// Whether a line, apart from white space around it, starts with `prefix`.
pub open spec fn line_starts(line: Seq<char>, prefix: Seq<char>) -> bool {
    text::starts_with(text::trimmed(line), prefix)
}

/// The position of the first line from `from` on that is the front matter delimiter, or the
/// number of lines where there is none.
pub open spec fn delimiter_from(lines: Seq<Seq<char>>, from: int) -> int
    decreases lines.len() - from,
{
    if from < 0 || from >= lines.len() {
        lines.len() as int
    } else if is_delimiter(lines[from]) {
        from
    } else {
        delimiter_from(lines, from + 1)
    }
}

/// The position of the first line from `from` on and before `to` that starts with `prefix`, or
/// `to` where there is none.
pub open spec fn prefixed_from(
    lines: Seq<Seq<char>>,
    prefix: Seq<char>,
    from: int,
    to: int,
) -> int
    decreases to - from,
{
    if from >= to {
        to
    } else if line_starts(lines[from], prefix) {
        from
    } else {
        prefixed_from(lines, prefix, from + 1, to)
    }
}

/// What stands behind `prefix` in a line that starts with it.
pub open spec fn behind(line: Seq<char>, prefix: Seq<char>) -> Seq<char> {
    let t = text::trimmed(line);
    t.subrange(prefix.len() as int, t.len() as int)
}

/// A value without white space, without double quotes and then without single quotes around it.
pub open spec fn unquoted(value: Seq<char>) -> Seq<char> {
    text::trimmed_of(
        text::trimmed_of(text::trimmed(value), CharSet::Only('"')),
        CharSet::Only('\''),
    )
}

/// The title that a file name stands for: without `.md` at its end, and with spaces for hyphens.
pub open spec fn title_of_file(file_name: Seq<char>) -> Seq<char> {
    text::with_char(text::without_suffixes(file_name, ".md"@), '-', ' ')
}

/// The text of the first heading of the lines from `from` on, or the title of the file name
/// where there is none.
pub open spec fn heading_or_file(
    lines: Seq<Seq<char>>,
    from: int,
    file_name: Seq<char>,
) -> Seq<char> {
    let at = prefixed_from(lines, "# "@, from, lines.len() as int);
    if at < lines.len() {
        text::trimmed(behind(lines[at], "# "@))
    } else {
        title_of_file(file_name)
    }
}

/// The title of a page.
///
/// A page that starts with the delimiter has front matter: the lines behind its first line, up
/// to the next delimiter. The first line of the front matter that starts with `title:` gives
/// the title. Where there is none, the first heading behind the front matter does, and where
/// that is missing too, the file name. A page without front matter has its first heading as its
/// title, or its file name.
pub open spec fn page_title(content: Seq<char>, file_name: Seq<char>) -> Seq<char> {
    let lines = text::line_list(content);
    if text::starts_with(content, delimiter()) {
        let end = delimiter_from(lines, 1);
        let at = prefixed_from(lines, "title:"@, 1, end);
        if at < end {
            unquoted(text::without_prefixes(text::trimmed(lines[at]), "title:"@))
        } else {
            heading_or_file(lines, end + 1, file_name)
        }
    } else {
        heading_or_file(lines, 0, file_name)
    }
}

/// A text that starts with the delimiter has a first line.
proof fn lemma_first_line(content: Seq<char>)
    requires
        content.len() > 0,
        content[0] != '\n',
    ensures
        text::line_list(content).len() > 0,
{
    let set = CharSet::Only('\n');
    let all = text::pieces(content, set);
    text::lemma_pieces_not_empty(content, set);
    if all.len() == 1 {
        lemma_only_piece(content, set);
    }
}

/// A text with a single piece is that piece.
proof fn lemma_only_piece(s: Seq<char>, set: CharSet)
    requires
        text::pieces(s, set).len() == 1,
    ensures
        text::pieces(s, set)[0] == s,
    decreases s.len(),
{
    if s.len() > 0 {
        let before = text::pieces(s.drop_last(), set);
        text::lemma_pieces_not_empty(s.drop_last(), set);
        lemma_only_piece(s.drop_last(), set);
        assert(s.drop_last().push(s.last()) =~= s);
    } else {
        assert(text::pieces(s, set)[0] =~= s);
    }
}

/// Removes white space, double quotes and single quotes around a value, in that order.
pub fn unquote(value: &[char]) -> (r: &[char])
    ensures
        r@ == unquoted(value@),
{
    text::trim_of(text::trim_of(text::trim(value), CharSet::Only('"')), CharSet::Only('\''))
}

/// The title that a file name stands for.
pub fn file_title(file_name: &[char]) -> (r: Vec<char>)
    ensures
        r@ == title_of_file(file_name@),
{
    let suffix = text::to_chars(".md");
    text::replace_char(text::trim_suffixes(file_name, suffix.as_slice()), '-', ' ')
}

/// The position of the first delimiter among `lines` from `from` on, or their number.
pub fn find_delimiter(lines: &Vec<Vec<char>>, from: usize) -> (r: usize)
    requires
        from <= lines@.len(),
    ensures
        r == delimiter_from(text::texts(lines@), from as int),
        from <= r <= lines@.len(),
{
    let mut i: usize = from;
    while i < lines.len()
        invariant
            from <= i <= lines@.len(),
            delimiter_from(text::texts(lines@), i as int) == delimiter_from(
                text::texts(lines@),
                from as int,
            ),
        decreases lines@.len() - i,
    {
        assert(text::texts(lines@)[i as int] == lines@[i as int]@);
        if text::is_text(text::trim(lines[i].as_slice()), "---") {
            return i;
        }
        i += 1;
    }
    i
}

/// The position of the first of `lines` from `from` on and before `to` that starts with
/// `prefix`, or `to`.
pub fn find_prefixed(lines: &Vec<Vec<char>>, prefix: &[char], from: usize, to: usize) -> (r: usize)
    requires
        from <= to <= lines@.len(),
    ensures
        r == prefixed_from(text::texts(lines@), prefix@, from as int, to as int),
        from <= r <= to,
{
    let mut i: usize = from;
    while i < to
        invariant
            from <= i <= to <= lines@.len(),
            prefixed_from(text::texts(lines@), prefix@, i as int, to as int) == prefixed_from(
                text::texts(lines@),
                prefix@,
                from as int,
                to as int,
            ),
        decreases to - i,
    {
        assert(text::texts(lines@)[i as int] == lines@[i as int]@);
        if text::has_prefix(text::trim(lines[i].as_slice()), prefix) {
            return i;
        }
        i += 1;
    }
    i
}

/// A position found is within its bounds, and is that of a line with the prefix where it is not
/// the upper one.
pub proof fn lemma_prefixed_from(lines: Seq<Seq<char>>, prefix: Seq<char>, from: int, to: int)
    requires
        from <= to,
    ensures
        from <= prefixed_from(lines, prefix, from, to) <= to,
        prefixed_from(lines, prefix, from, to) < to ==> line_starts(
            lines[prefixed_from(lines, prefix, from, to)],
            prefix,
        ),
    decreases to - from,
{
    if from < to && !line_starts(lines[from], prefix) {
        lemma_prefixed_from(lines, prefix, from + 1, to);
    }
}

/// The text of the first heading from `from` on, or the title of the file name.
fn find_heading_or_file(lines: &Vec<Vec<char>>, from: usize, file_name: &[char]) -> (r: Vec<char>)
    requires
        from <= lines@.len(),
    ensures
        r@ == heading_or_file(text::texts(lines@), from as int, file_name@),
{
    let mark = text::to_chars("# ");
    let at = find_prefixed(lines, mark.as_slice(), from, lines.len());
    proof {
        lemma_prefixed_from(text::texts(lines@), "# "@, from as int, lines@.len() as int);
    }
    if at < lines.len() {
        assert(text::texts(lines@)[at as int] == lines@[at as int]@);
        let line: &[char] = text::trim(lines[at].as_slice());
        text::copy(text::trim(slice_subrange(line, mark.len(), line.len())))
    } else {
        file_title(file_name)
    }
}

/// The title of the page with the text `content` in the file `file_name`.
pub fn extract_title(content: &str, file_name: &str) -> (r: String)
    ensures
        r@ == page_title(content@, file_name@),
{
    let chars = text::to_chars(content);
    let name = text::to_chars(file_name);
    let lines = text::lines(chars.as_slice());
    let mark = text::to_chars("---");
    if text::has_prefix(chars.as_slice(), mark.as_slice()) {
        proof {
            reveal_strlit("---");
            assert(content@[0] == content@.subrange(0, 3)[0]);
            lemma_first_line(content@);
        }
        let end = find_delimiter(&lines, 1);
        let key = text::to_chars("title:");
        let at = find_prefixed(&lines, key.as_slice(), 1, end);
        if at < end {
            assert(text::texts(lines@)[at as int] == lines@[at as int]@);
            let line: &[char] = text::trim(lines[at].as_slice());
            return text::to_text(unquote(text::trim_prefixes(line, key.as_slice())));
        }
        if end < lines.len() {
            text::to_text(find_heading_or_file(&lines, end + 1, name.as_slice()).as_slice())
        } else {
            assert(heading_or_file(text::texts(lines@), end + 1, name@) == title_of_file(name@)) by {
                assert(prefixed_from(text::texts(lines@), "# "@, end + 1, lines@.len() as int)
                    == lines@.len());
            }
            text::to_text(file_title(name.as_slice()).as_slice())
        }
    } else {
        text::to_text(find_heading_or_file(&lines, 0, name.as_slice()).as_slice())
    }
}

// ---------------------------------------------------------------------------------------
// Images
// ---------------------------------------------------------------------------------------

/// An image that a page refers to.
#[derive(Debug, Clone)]
pub struct SearchImageRef {
    pub url: String,
    pub alt: String,
}

/// The address and the description of an image.
pub struct ImageRef {
    pub url: Seq<char>,
    pub alt: Seq<char>,
}

impl View for SearchImageRef {
    type V = ImageRef;

    open spec fn view(&self) -> ImageRef {
        ImageRef { url: self.url@, alt: self.alt@ }
    }
}

/// What a list of images stands for.
pub open spec fn images(v: Seq<SearchImageRef>) -> Seq<ImageRef> {
    v.map_values(|x: SearchImageRef| x@)
}

/// What stands in `s` behind position `i` and the `n` characters from it on.
pub open spec fn rest_behind(s: Seq<char>, i: int, n: int) -> Seq<char> {
    s.subrange(i + n, s.len() as int)
}

/// The image references `![alt](url)` of a text from the left. Behind `![` the description
/// reaches to the next `](`, and the address from there to the next `)`. Where one of these is
/// missing, no further reference is read.
pub open spec fn image_marks(s: Seq<char>) -> Seq<ImageRef>
    decreases s.len(),
{
    match text::position(s, "!["@) {
        None => Seq::empty(),
        Some(start) => {
            let a = rest_behind(s, start, 2);
            match text::position(a, "]("@) {
                None => Seq::empty(),
                Some(alt_end) => {
                    let b = rest_behind(a, alt_end, 2);
                    match text::position(b, ")"@) {
                        None => Seq::empty(),
                        Some(url_end) => {
                            proof {
                                lemma_mark_bounds(s, a, b);
                            }
                            seq![
                                ImageRef { url: b.subrange(0, url_end), alt: a.subrange(0, alt_end) },
                            ] + image_marks(rest_behind(b, url_end, 1))
                        },
                    }
                },
            }
        },
    }
}

/// The parts of an image reference stand behind each other.
pub proof fn lemma_mark_bounds(s: Seq<char>, a: Seq<char>, b: Seq<char>)
    ensures
        text::position(s, "!["@) matches Some(i) ==> 0 <= i && i + 2 <= s.len(),
        text::position(a, "]("@) matches Some(i) ==> 0 <= i && i + 2 <= a.len(),
        text::position(b, ")"@) matches Some(i) ==> 0 <= i && i + 1 <= b.len(),
{
    reveal_strlit("![");
    reveal_strlit("](");
    reveal_strlit(")");
    text::lemma_position_from(s, "!["@, 0);
    text::lemma_position_from(a, "]("@, 0);
    text::lemma_position_from(b, ")"@, 0);
}

/// Whether an address names an image: it is not blank and holds no white space.
pub open spec fn is_image_url(url: Seq<char>) -> bool {
    &&& text::trimmed(url).len() > 0
    &&& forall|k: int| 0 <= k < url.len() ==> !text::white_space(#[trigger] url[k])
}

/// Whether one of the images has the address `url`.
pub open spec fn has_url(list: Seq<ImageRef>, url: Seq<char>) -> bool {
    exists|k: int| 0 <= k < list.len() && (#[trigger] list[k]).url == url
}

/// The references of `marks` that name an image, the first one for each address.
pub open spec fn distinct_images(marks: Seq<ImageRef>) -> Seq<ImageRef>
    decreases marks.len(),
{
    if marks.len() == 0 {
        Seq::empty()
    } else {
        let before = distinct_images(marks.drop_last());
        if is_image_url(marks.last().url) && !has_url(before, marks.last().url) {
            before.push(marks.last())
        } else {
            before
        }
    }
}

/// The images that a page refers to.
pub open spec fn page_images(content: Seq<char>) -> Seq<ImageRef> {
    distinct_images(image_marks(content))
}

/// No address comes twice among the images of a page, and each names an image.
pub proof fn lemma_page_images(marks: Seq<ImageRef>)
    ensures
        forall|i: int, j: int|
            0 <= i < j < distinct_images(marks).len() ==> (#[trigger] distinct_images(
                marks,
            )[i]).url != (#[trigger] distinct_images(marks)[j]).url,
        forall|i: int|
            0 <= i < distinct_images(marks).len() ==> is_image_url(
                (#[trigger] distinct_images(marks)[i]).url,
            ),
    decreases marks.len(),
{
    let all = distinct_images(marks);
    if marks.len() > 0 {
        let before = distinct_images(marks.drop_last());
        lemma_page_images(marks.drop_last());
        assert forall|i: int| 0 <= i < all.len() implies is_image_url((#[trigger] all[i]).url) by {
            if i < before.len() {
                assert(all[i] == before[i]);
            }
        }
        assert forall|i: int, j: int| 0 <= i < j < all.len() implies (#[trigger] all[i]).url != (
        #[trigger] all[j]).url by {
            assert(all[i] == before[i]);
            if j < before.len() {
                assert(all[j] == before[j]);
            }
        }
    }
}

/// The images that the text `content` refers to, the first reference to each address.
pub fn extract_image_refs(content: &str) -> (r: Vec<SearchImageRef>)
    ensures
        images(r@) == page_images(content@),
{
    let chars = text::to_chars(content);
    let (open, middle, close) = (text::to_chars("!["), text::to_chars("]("), text::to_chars(")"));
    proof {
        reveal_strlit("![");
        reveal_strlit("](");
        reveal_strlit(")");
    }
    let mut out: Vec<SearchImageRef> = Vec::new();
    let mut seen = TextSet::new();
    let mut rest: &[char] = chars.as_slice();
    let ghost mut done: Seq<ImageRef> = Seq::empty();
    assert(done + image_marks(rest@) =~= image_marks(content@));
    loop
        invariant
            open@ == "!["@,
            middle@ == "]("@,
            close@ == ")"@,
            open@.len() == 2,
            middle@.len() == 2,
            close@.len() == 1,
            seen.wf(),
            done + image_marks(rest@) == image_marks(content@),
            images(out@) == distinct_images(done),
            forall|u: Seq<char>| seen.set().contains(u) <==> has_url(images(out@), u),
        decreases rest@.len(),
    {
        assert(image_marks(rest@).len() == 0 ==> done + image_marks(rest@) =~= done);
        let start = match find_with_len(rest, open.as_slice()) {
            Some(i) => i,
            None => {
                return out;
            },
        };
        let a: &[char] = slice_subrange(rest, start + 2, rest.len());
        let alt_end = match find_with_len(a, middle.as_slice()) {
            Some(i) => i,
            None => {
                return out;
            },
        };
        let b: &[char] = slice_subrange(a, alt_end + 2, a.len());
        let url_end = match find_with_len(b, close.as_slice()) {
            Some(i) => i,
            None => {
                return out;
            },
        };
        let alt: &[char] = slice_subrange(a, 0, alt_end);
        let url: &[char] = slice_subrange(b, 0, url_end);
        let ghost mark = ImageRef { url: url@, alt: alt@ };
        let ghost before = done;
        proof {
            done = done.push(mark);
            assert(done.drop_last() =~= before);
        }
        if text::trim(url).len() > 0 && !text::has_any(url, CharSet::WhiteSpace) {
            let ghost old_images = images(out@);
            if seen.insert(text::copy(url)) {
                out.push(SearchImageRef { url: text::to_text(url), alt: text::to_text(alt) });
                proof {
                    assert(images(out@) =~= old_images.push(mark));
                    assert forall|u: Seq<char>|
                        seen.set().contains(u) <==> has_url(images(out@), u) by {
                        if has_url(old_images, u) {
                            let k = choose|k: int|
                                0 <= k < old_images.len() && (#[trigger] old_images[k]).url == u;
                            assert(images(out@)[k].url == u);
                        }
                        if u == url@ {
                            assert(images(out@)[old_images.len() as int].url == u);
                        }
                    }
                }
            }
        }
        let ghost tail = image_marks(rest_behind(b@, url_end as int, 1));
        assert(before + (seq![mark] + tail) =~= done + tail);
        rest = slice_subrange(b, url_end + 1, b.len());
    }
}

/// The first position of `pattern` in `s`. It leaves room for the pattern.
fn find_with_len(s: &[char], pattern: &[char]) -> (r: Option<usize>)
    ensures
        match r {
            Some(i) => text::position(s@, pattern@) == Some(i as int) && i + pattern@.len()
                <= s@.len() && s@.len() <= usize::MAX,
            None => text::position(s@, pattern@) is None,
        },
{
    let n: usize = s.len();
    text::find(s, pattern)
}

// ---------------------------------------------------------------------------------------
// Links
// ---------------------------------------------------------------------------------------

/// The page that a link names: what stands before the first bar, without white space around it.
pub open spec fn link_target(inner: Seq<char>) -> Seq<char> {
    text::trimmed(text::pieces(inner, CharSet::Only('|'))[0])
}

/// The pages that the links `[[target]]` and `[[target|label]]` of a text name, from the left.
/// Links that name nothing are left out.
pub open spec fn page_links(s: Seq<char>) -> Seq<Seq<char>>
    decreases s.len(),
{
    match text::position(s, "[["@) {
        None => Seq::empty(),
        Some(start) => {
            let a = rest_behind(s, start, 2);
            match text::position(a, "]]"@) {
                None => Seq::empty(),
                Some(end) => {
                    proof {
                        lemma_link_bounds(s, a);
                    }
                    let target = link_target(a.subrange(0, end));
                    let others = page_links(rest_behind(a, end, 2));
                    if target.len() > 0 {
                        seq![target] + others
                    } else {
                        others
                    }
                },
            }
        },
    }
}

/// The parts of a link stand behind each other.
pub proof fn lemma_link_bounds(s: Seq<char>, a: Seq<char>)
    ensures
        text::position(s, "[["@) matches Some(i) ==> 0 <= i && i + 2 <= s.len(),
        text::position(a, "]]"@) matches Some(i) ==> 0 <= i && i + 2 <= a.len(),
{
    reveal_strlit("[[");
    reveal_strlit("]]");
    text::lemma_position_from(s, "[["@, 0);
    text::lemma_position_from(a, "]]"@, 0);
}

/// The pages that the links of the text `content` name, from the left.
pub fn extract_wikilinks(content: &str) -> (r: Vec<String>)
    ensures
        text::strings(r@) == page_links(content@),
{
    let chars = text::to_chars(content);
    let (open, close) = (text::to_chars("[["), text::to_chars("]]"));
    proof {
        reveal_strlit("[[");
        reveal_strlit("]]");
    }
    let mut out: Vec<String> = Vec::new();
    let mut rest: &[char] = chars.as_slice();
    assert(text::strings(out@) + page_links(rest@) =~= page_links(content@));
    loop
        invariant
            open@ == "[["@,
            close@ == "]]"@,
            open@.len() == 2,
            close@.len() == 2,
            text::strings(out@) + page_links(rest@) == page_links(content@),
        decreases rest@.len(),
    {
        let ghost before = text::strings(out@);
        assert(page_links(rest@).len() == 0 ==> before + page_links(rest@) =~= before);
        let start = match find_with_len(rest, open.as_slice()) {
            Some(i) => i,
            None => {
                return out;
            },
        };
        let a: &[char] = slice_subrange(rest, start + 2, rest.len());
        let end = match find_with_len(a, close.as_slice()) {
            Some(i) => i,
            None => {
                return out;
            },
        };
        let parts = text::split(slice_subrange(a, 0, end), CharSet::Only('|'));
        assert(text::texts(parts@)[0] == parts@[0]@);
        let target: &[char] = text::trim(parts[0].as_slice());
        let ghost tail = page_links(rest_behind(a@, end as int, 2));
        if target.len() > 0 {
            out.push(text::to_text(target));
            assert(text::strings(out@) =~= before.push(target@));
            assert(before + (seq![target@] + tail) =~= text::strings(out@) + tail);
        }
        rest = slice_subrange(a, end + 2, a.len());
    }
}

// ---------------------------------------------------------------------------------------
// Metadata
// ---------------------------------------------------------------------------------------

/// What front matter has said of a page up to some line.
pub struct FrontMatter {
    /// The title, empty where none was given.
    pub title: Seq<char>,
    /// The kind of the page as it was written.
    pub kind: Option<Seq<char>>,
    /// The sources.
    pub sources: Set<Seq<char>>,
    /// Whether the next line may continue the list of sources.
    pub in_sources: bool,
}

/// The front matter before its first line.
pub open spec fn no_front_matter() -> FrontMatter {
    FrontMatter {
        title: Seq::empty(),
        kind: None,
        sources: Set::empty(),
        in_sources: false,
    }
}

/// The sources of an inline list `[a, b]`: its parts between commas, without quotes around
/// them, that are not empty. A value in any other form has none.
pub open spec fn inline_sources(value: Seq<char>) -> Set<Seq<char>> {
    match text::after_prefix(text::trimmed(value), seq!['[']) {
        None => Set::empty(),
        Some(a) => match text::before_suffix(a, seq![']']) {
            None => Set::empty(),
            Some(b) => listed(text::pieces(b, CharSet::Only(','))),
        },
    }
}

/// The parts of a list, without quotes around them, that are not empty.
pub open spec fn listed(parts: Seq<Seq<char>>) -> Set<Seq<char>> {
    Set::new(
        |x: Seq<char>|
            x.len() > 0 && exists|i: int| 0 <= i < parts.len() && unquoted(#[trigger] parts[i]) == x,
    )
}

/// What front matter says of a page when it goes on with `line`.
///
/// A line that starts with `title:` or `type:` gives the title or the kind, in place of one
/// given before. A line that starts with `sources:` opens the list of sources, which may stand
/// in the line itself. Lines behind it that start with `-` give one source each. Blank lines do
/// not end the list, every other line does.
pub open spec fn with_line(m: FrontMatter, line: Seq<char>) -> FrontMatter {
    let t = text::trimmed(line);
    if text::starts_with(t, "title:"@) {
        FrontMatter { title: unquoted(behind(line, "title:"@)), in_sources: false, ..m }
    } else if text::starts_with(t, "type:"@) {
        FrontMatter { kind: Some(unquoted(behind(line, "type:"@))), in_sources: false, ..m }
    } else if text::starts_with(t, "sources:"@) {
        FrontMatter {
            sources: m.sources.union(inline_sources(behind(line, "sources:"@))),
            in_sources: true,
            ..m
        }
    } else if m.in_sources {
        if text::starts_with(t, "-"@) {
            let source = unquoted(behind(line, "-"@));
            if source.len() > 0 {
                FrontMatter { sources: m.sources.insert(source), ..m }
            } else {
                m
            }
        } else if t.len() > 0 {
            FrontMatter { in_sources: false, ..m }
        } else {
            m
        }
    } else {
        m
    }
}

/// What the lines from `from` on and before `to` say as front matter.
pub open spec fn front_matter(lines: Seq<Seq<char>>, from: int, to: int) -> FrontMatter
    decreases to - from,
{
    if to <= from {
        no_front_matter()
    } else {
        with_line(front_matter(lines, from, to - 1), lines[to - 1])
    }
}

/// The front matter of a page.
pub open spec fn page_front_matter(content: Seq<char>) -> FrontMatter {
    let lines = text::line_list(content);
    if text::starts_with(content, delimiter()) {
        front_matter(lines, 1, delimiter_from(lines, 1))
    } else {
        no_front_matter()
    }
}

/// The label of a page in the graph: the title of its front matter, or where that is empty the
/// first heading behind the front matter, or the title of its file name.
pub open spec fn page_label(content: Seq<char>, file_name: Seq<char>) -> Seq<char> {
    let lines = text::line_list(content);
    let m = page_front_matter(content);
    if m.title.len() > 0 {
        m.title
    } else if text::starts_with(content, delimiter()) {
        heading_or_file(lines, delimiter_from(lines, 1) + 1, file_name)
    } else {
        heading_or_file(lines, 0, file_name)
    }
}

/// What a page says of itself, with its kind as it was written.
pub struct WrittenMetadata {
    pub title: String,
    pub kind: Option<String>,
    pub sources: TextSet,
}

/// Adds the sources of an inline list to `sources`.
fn parse_inline_sources(value: &[char], sources: &mut TextSet)
    requires
        old(sources).wf(),
    ensures
        final(sources).wf(),
        final(sources).set() == old(sources).set().union(inline_sources(value@)),
{
    let ghost start = sources.set();
    let open: Vec<char> = vec!['['];
    let close: Vec<char> = vec![']'];
    assert(open@ =~= seq!['[']);
    assert(close@ =~= seq![']']);
    let a: &[char] = match text::strip_prefix(text::trim(value), open.as_slice()) {
        Some(a) => a,
        None => {
            assert(start.union(Set::empty()) =~= start);
            return;
        },
    };
    let b: &[char] = match text::strip_suffix(a, close.as_slice()) {
        Some(b) => b,
        None => {
            assert(start.union(Set::empty()) =~= start);
            return;
        },
    };
    let parts = text::split(b, CharSet::Only(','));
    let ghost all = text::texts(parts@);
    let mut i: usize = 0;
    assert(start.union(listed(all.take(0))) =~= start);
    while i < parts.len()
        invariant
            i <= parts@.len(),
            all == text::texts(parts@),
            sources.wf(),
            sources.set() == start.union(listed(all.take(i as int))),
        decreases parts@.len() - i,
    {
        let source: &[char] = unquote(parts[i].as_slice());
        assert(all[i as int] == parts@[i as int]@);
        proof {
            lemma_listed_next(all, i as int);
        }
        if source.len() > 0 {
            sources.insert(text::copy(source));
        }
        assert(sources.set() =~= start.union(listed(all.take(i + 1))));
        i += 1;
    }
    assert(all.take(all.len() as int) =~= all);
}

/// The parts of a list up to the next one.
proof fn lemma_listed_next(all: Seq<Seq<char>>, i: int)
    requires
        0 <= i < all.len(),
    ensures
        unquoted(all[i]).len() > 0 ==> listed(all.take(i + 1)) == listed(all.take(i)).insert(
            unquoted(all[i]),
        ),
        unquoted(all[i]).len() == 0 ==> listed(all.take(i + 1)) == listed(all.take(i)),
{
    let (a, b) = (all.take(i), all.take(i + 1));
    assert forall|x: Seq<char>|
        listed(b).contains(x) <==> (listed(a).contains(x) || (x == unquoted(all[i]) && x.len()
            > 0)) by {
        if listed(a).contains(x) {
            let k = choose|k: int| 0 <= k < a.len() && unquoted(#[trigger] a[k]) == x;
            assert(unquoted(b[k]) == x);
        }
        if listed(b).contains(x) {
            let k = choose|k: int| 0 <= k < b.len() && unquoted(#[trigger] b[k]) == x;
            if k < i {
                assert(unquoted(a[k]) == x);
            }
        }
        if x == unquoted(all[i]) {
            assert(unquoted(b[i]) == x);
        }
    }
    if unquoted(all[i]).len() > 0 {
        assert(listed(b) =~= listed(a).insert(unquoted(all[i])));
    } else {
        assert(listed(b) =~= listed(a));
    }
}

/// What the page with the text `content` in the file `file_name` says of itself.
pub fn read_metadata(content: &str, file_name: &str) -> (r: WrittenMetadata)
    ensures
        r.title@ == page_label(content@, file_name@),
        text::optional(r.kind) == page_front_matter(content@).kind,
        r.sources.wf(),
        r.sources.set() == page_front_matter(content@).sources,
{
    let chars = text::to_chars(content);
    let name = text::to_chars(file_name);
    let lines = text::lines(chars.as_slice());
    let ghost all = text::texts(lines@);
    let mark = text::to_chars("---");
    let has_front_matter = text::has_prefix(chars.as_slice(), mark.as_slice());
    let mut title: Vec<char> = Vec::new();
    let mut kind: Option<String> = None;
    let mut sources = TextSet::new();
    let mut in_sources = false;
    let mut behind_at: usize = 0;
    if has_front_matter {
        proof {
            reveal_strlit("---");
            assert(content@[0] == content@.subrange(0, 3)[0]);
            lemma_first_line(content@);
        }
        let end = find_delimiter(&lines, 1);
        let (title_key, kind_key, sources_key, item_key) = (
            text::to_chars("title:"),
            text::to_chars("type:"),
            text::to_chars("sources:"),
            text::to_chars("-"),
        );
        let mut i: usize = 1;
        assert(title@ =~= Seq::<char>::empty());
        while i < end
            invariant
                1 <= i <= end <= lines@.len(),
                all == text::texts(lines@),
                title_key@ == "title:"@,
                kind_key@ == "type:"@,
                sources_key@ == "sources:"@,
                item_key@ == "-"@,
                sources.wf(),
                title@ == front_matter(all, 1, i as int).title,
                text::optional(kind) == front_matter(all, 1, i as int).kind,
                sources.set() == front_matter(all, 1, i as int).sources,
                in_sources == front_matter(all, 1, i as int).in_sources,
            decreases end - i,
        {
            let line: &[char] = text::trim(lines[i].as_slice());
            assert(all[i as int] == lines@[i as int]@);
            assert(front_matter(all, 1, i + 1) == with_line(
                front_matter(all, 1, i as int),
                all[i as int],
            ));
            if text::has_prefix(line, title_key.as_slice()) {
                title = text::copy(unquote(slice_subrange(line, title_key.len(), line.len())));
                in_sources = false;
            } else if text::has_prefix(line, kind_key.as_slice()) {
                kind = Some(
                    text::to_text(unquote(slice_subrange(line, kind_key.len(), line.len()))),
                );
                in_sources = false;
            } else if text::has_prefix(line, sources_key.as_slice()) {
                in_sources = true;
                parse_inline_sources(
                    slice_subrange(line, sources_key.len(), line.len()),
                    &mut sources,
                );
            } else if in_sources {
                if text::has_prefix(line, item_key.as_slice()) {
                    let source: &[char] = unquote(
                        slice_subrange(line, item_key.len(), line.len()),
                    );
                    if source.len() > 0 {
                        sources.insert(text::copy(source));
                    }
                } else if line.len() > 0 {
                    in_sources = false;
                }
            }
            i += 1;
        }
        behind_at = if end < lines.len() {
            end + 1
        } else {
            end
        };
        assert(heading_or_file(all, behind_at as int, name@) == heading_or_file(
            all,
            end + 1,
            name@,
        )) by {
            if end == lines@.len() {
                assert(prefixed_from(all, "# "@, end + 1, all.len() as int) == all.len());
                assert(prefixed_from(all, "# "@, end as int, all.len() as int) == all.len());
            }
        }
    } else {
        assert(title@ =~= Seq::<char>::empty());
    }
    if title.len() == 0 {
        title = find_heading_or_file(&lines, behind_at, name.as_slice());
    }
    WrittenMetadata { title: text::to_text(title.as_slice()), kind, sources }
}

/// What a page says of itself.
pub struct PageMetadata {
    pub title: String,
    pub kind: String,
    pub sources: TextSet,
}

/// The kind of a page: in lower case as it was written, or `other`.
pub open spec fn page_kind(content: Seq<char>) -> Seq<char> {
    match page_front_matter(content).kind {
        Some(kind) => crate::outside::lowercase(kind),
        None => "other"@,
    }
}

/// What the page with the text `content` in the file `file_name` says of itself.
pub fn extract_metadata(content: &str, file_name: &str) -> (r: PageMetadata)
    ensures
        r.title@ == page_label(content@, file_name@),
        r.kind@ == page_kind(content@),
        r.sources.wf(),
        r.sources.set() == page_front_matter(content@).sources,
{
    let written = read_metadata(content, file_name);
    let kind = match written.kind {
        Some(kind) => kind.as_str().to_lowercase(),
        None => "other".to_string(),
    };
    PageMetadata { title: written.title, kind, sources: written.sources }
}

} // verus!
