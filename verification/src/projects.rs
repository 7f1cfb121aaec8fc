//! The projects under the data root: how they are named, created and imported.

use crate::db::ProjectRecord;
use crate::files;
use crate::files::{EntryKind, RawEntry};
use crate::outside;
use crate::paths;
use crate::paths::{PathStyle, RelativePath};
use crate::text;
use crate::text::CharSet;
use vstd::prelude::*;

verus! {

// ---------------------------------------------------------------------------------------
// Errors and answers
// ---------------------------------------------------------------------------------------

/// Why a request about projects is refused.
#[derive(Debug)]
pub enum ProjectServiceError {
    /// The server is not set up.
    SetupRequired,
    /// The request is not acceptable.
    InvalidInput(String),
    /// The directory is no project.
    InvalidProject(String),
    /// The request does not go with the projects that are there.
    Conflict(String),
    /// Something failed that the request does not answer for.
    Internal(String),
}

/// What an error stands for.
pub enum ProjectError {
    SetupRequired,
    InvalidInput(Seq<char>),
    InvalidProject(Seq<char>),
    Conflict(Seq<char>),
    Internal(Seq<char>),
}

impl View for ProjectServiceError {
    type V = ProjectError;

    open spec fn view(&self) -> ProjectError {
        match self {
            ProjectServiceError::SetupRequired => ProjectError::SetupRequired,
            ProjectServiceError::InvalidInput(m) => ProjectError::InvalidInput(m@),
            ProjectServiceError::InvalidProject(m) => ProjectError::InvalidProject(m@),
            ProjectServiceError::Conflict(m) => ProjectError::Conflict(m@),
            ProjectServiceError::Internal(m) => ProjectError::Internal(m@),
        }
    }
}

impl ProjectServiceError {
    /// The error of a request that is not acceptable.
    pub fn invalid_input(message: &str) -> (r: ProjectServiceError)
        ensures
            r@ == ProjectError::InvalidInput(message@),
    {
        ProjectServiceError::InvalidInput(message.to_string())
    }

    /// The error of a directory that is no project.
    pub fn invalid_project(message: &str) -> (r: ProjectServiceError)
        ensures
            r@ == ProjectError::InvalidProject(message@),
    {
        ProjectServiceError::InvalidProject(message.to_string())
    }

    /// The error of a request that does not go with the projects that are there.
    pub fn conflict(message: &str) -> (r: ProjectServiceError)
        ensures
            r@ == ProjectError::Conflict(message@),
    {
        ProjectServiceError::Conflict(message.to_string())
    }
}

/// What is answered about a project.
#[derive(Debug)]
pub struct ProjectResponse {
    pub id: String,
    pub name: String,
    pub relative_path: String,
    pub source: String,
    pub created_at: String,
    pub updated_at: String,
}

impl From<ProjectRecord> for ProjectResponse {
    fn from(record: ProjectRecord) -> (r: Self) {
        ProjectResponse {
            id: record.id,
            name: record.name,
            relative_path: record.relative_path,
            source: record.source,
            created_at: record.created_at,
            updated_at: record.updated_at,
        }
    }
}

impl vstd::std_specs::convert::FromSpecImpl<ProjectRecord> for ProjectResponse {
    open spec fn obeys_from_spec() -> bool {
        true
    }

    open spec fn from_spec(record: ProjectRecord) -> Self {
        ProjectResponse {
            id: record.id,
            name: record.name,
            relative_path: record.relative_path,
            source: record.source,
            created_at: record.created_at,
            updated_at: record.updated_at,
        }
    }
}

/// What is answered about an imported project.
#[derive(Debug)]
pub struct ImportProjectResponse {
    pub project: ProjectResponse,
    pub skipped_symlinks: Vec<String>,
}

// ---------------------------------------------------------------------------------------
// Names
// ---------------------------------------------------------------------------------------

/// A character of a name with what decides how it stands in a directory name.
pub struct SlugChar {
    /// The character.
    pub c: char,
    /// Whether it is a letter or a number.
    pub alphanumeric: bool,
    /// Its lower case.
    pub lower: Vec<char>,
}

/// A directory name as far as it is made, and whether its last character stands for a separator.
pub struct Slug {
    pub text: Seq<char>,
    pub after_separator: bool,
}

/// Whether a character separates words in a name.
pub open spec fn separates(c: char) -> bool {
    text::white_space(c) || c == '-' || c == '_'
}

/// A directory name after the character `c`: a letter or number is put behind it in lower case, a
/// hyphen stands for one or more characters that separate words, and all others are left out.
pub open spec fn slug_with(slug: Slug, c: char, alphanumeric: bool, lower: Seq<char>) -> Slug {
    if alphanumeric {
        Slug { text: slug.text + lower, after_separator: false }
    } else if separates(c) && !slug.after_separator && slug.text.len() > 0 {
        Slug { text: slug.text.push('-'), after_separator: true }
    } else {
        slug
    }
}

/// The directory name of the given characters, before hyphens at its ends are removed.
pub open spec fn slug_of(chars: Seq<SlugChar>) -> Slug
    decreases chars.len(),
{
    if chars.len() == 0 {
        Slug { text: Seq::empty(), after_separator: false }
    } else {
        let x = chars.last();
        slug_with(slug_of(chars.drop_last()), x.c, x.alphanumeric, x.lower@)
    }
}

/// The directory name of the characters `name`, before hyphens at its ends are removed.
pub open spec fn name_slug(name: Seq<char>) -> Slug
    decreases name.len(),
{
    if name.len() == 0 {
        Slug { text: Seq::empty(), after_separator: false }
    } else {
        let c = name.last();
        slug_with(
            name_slug(name.drop_last()),
            c,
            outside::alphanumeric(c),
            outside::char_lowercase(c),
        )
    }
}

/// The directory name of a project: that of its name, without hyphens at its ends.
pub open spec fn directory_name(name: Seq<char>) -> Seq<char> {
    text::trimmed_of(name_slug(text::trimmed(name)).text, CharSet::Only('-'))
}

/// Whether a character may stand in a word of a directory name: it is a small ASCII letter or a
/// digit, or no ASCII character and no white space.
pub open spec fn is_word_char(c: char) -> bool {
    ||| 0x61 <= c as int <= 0x7a
    ||| 0x30 <= c as int <= 0x39
    ||| c as int >= 0x80 && !text::white_space(c)
}

/// Whether a character may stand in a directory name: in a word of it, or between two words.
pub open spec fn is_slug_char(c: char) -> bool {
    is_word_char(c) || c == '-'
}

/// Whether two hyphens stand in a row at position `i` of a text.
pub open spec fn is_double_hyphen(s: Seq<char>, i: int) -> bool {
    s[i] == '-' && s[i + 1] == '-'
}

/// Whether two hyphens stand in a row nowhere in a text.
pub open spec fn has_single_hyphens(s: Seq<char>) -> bool {
    forall|i: int| 0 <= i < s.len() - 1 ==> !#[trigger] is_double_hyphen(s, i)
}

/// Whether a text may be the directory name of a project: it is not empty, and it is made of words
/// with a hyphen between each two.
pub open spec fn is_directory_name(s: Seq<char>) -> bool {
    &&& s.len() > 0
    &&& s[0] != '-'
    &&& s.last() != '-'
    &&& forall|i: int| 0 <= i < s.len() ==> is_slug_char(#[trigger] s[i])
    &&& has_single_hyphens(s)
}

/// Whether a text is made of ASCII characters.
pub open spec fn is_ascii(s: Seq<char>) -> bool {
    forall|i: int| 0 <= i < s.len() ==> (#[trigger] s[i] as int) < 0x80
}

/// Whether a text has a letter or a number in it.
pub open spec fn has_letter_or_number(s: Seq<char>) -> bool {
    exists|i: int| 0 <= i < s.len() && outside::alphanumeric(#[trigger] s[i])
}

/// The directory name of a project names a place right under the data root.
pub proof fn lemma_directory_name_stays_inside(s: Seq<char>)
    requires
        is_directory_name(s),
    ensures
        files::is_plain_name(s),
{
    reveal_strlit(".");
    reveal_strlit("..");
    assert(is_slug_char(s[0]));
    if s.len() >= 2 {
        assert(is_slug_char(s[1]));
    }
    assert forall|i: int| 0 <= i < s.len() implies s[i] != '/' && s[i] != '\\' && s[i] != '\0' by {
        assert(is_slug_char(s[i]));
    }
}

/// The directory name of the given characters.
pub fn make_slug(chars: &Vec<SlugChar>) -> (r: Vec<char>)
    ensures
        r@ == text::trimmed_of(slug_of(chars@).text, CharSet::Only('-')),
{
    let mut slug: Vec<char> = Vec::new();
    let mut after_separator = false;
    let mut i: usize = 0;
    assert(slug@ =~= slug_of(chars@.take(0)).text);
    while i < chars.len()
        invariant
            i <= chars@.len(),
            slug@ == slug_of(chars@.take(i as int)).text,
            after_separator == slug_of(chars@.take(i as int)).after_separator,
        decreases chars@.len() - i,
    {
        assert(chars@.take(i + 1).drop_last() =~= chars@.take(i as int));
        let x: &SlugChar = &chars[i];
        if x.alphanumeric {
            text::append(&mut slug, x.lower.as_slice());
            after_separator = false;
        } else if text::is_whitespace(x.c) || x.c == '-' || x.c == '_' {
            if !after_separator && slug.len() > 0 {
                slug.push('-');
                after_separator = true;
            }
        }
        i += 1;
    }
    assert(chars@.take(chars@.len() as int) =~= chars@);
    text::copy(text::trim_of(slug.as_slice(), CharSet::Only('-')))
}

/// What is known of a character that a directory name is made of: what separates words is neither
/// letter nor number, and the lower case of a letter or number may stand in a word. ASCII
/// characters are as their names say.
spec fn is_regular(c: char) -> bool {
    &&& separates(c) ==> !outside::alphanumeric(c)
    &&& outside::alphanumeric(c) ==> outside::char_lowercase(c).len() > 0 && forall|i: int|
        0 <= i < outside::char_lowercase(c).len() ==> is_word_char(
            #[trigger] outside::char_lowercase(c)[i],
        )
    &&& (c as int) < 0x80 ==> outside::alphanumeric(c) == text::ascii_letter_or_digit(c)
        && outside::char_lowercase(c) == seq![text::ascii_lowercase(c)]
}

/// Whether that is known of all characters of a name.
spec fn are_regular(name: Seq<char>) -> bool {
    forall|i: int| 0 <= i < name.len() ==> is_regular(#[trigger] name[i])
}

/// A directory name before hyphens at its ends are removed does not start with a hyphen, has no two
/// of them in a row, and ends with one where a separator came last. There is something of it where
/// the name has a letter or a number.
proof fn lemma_name_slug(name: Seq<char>)
    requires
        are_regular(name),
    ensures
        ({
            let slug = name_slug(name);
            let s = slug.text;
            &&& s.len() > 0 ==> s[0] != '-'
            &&& slug.after_separator <==> s.len() > 0 && s.last() == '-'
            &&& has_single_hyphens(s)
            &&& forall|i: int| 0 <= i < s.len() ==> is_slug_char(#[trigger] s[i])
            &&& s.len() > 0 <==> has_letter_or_number(name)
            &&& is_ascii(name) ==> is_ascii(s)
        }),
    decreases name.len(),
{
    if name.len() > 0 {
        let rest = name.drop_last();
        let c = name.last();
        assert forall|i: int| 0 <= i < rest.len() implies is_regular(#[trigger] rest[i]) by {
            assert(rest[i] == name[i]);
        }
        lemma_name_slug(rest);
        assert(name[name.len() - 1] == c);
        let before = name_slug(rest);
        let after = name_slug(name);
        let (t, s) = (before.text, after.text);
        let lower = outside::char_lowercase(c);
        if is_ascii(name) {
            assert forall|i: int| 0 <= i < rest.len() implies (#[trigger] rest[i] as int)
                < 0x80 by {
                assert(rest[i] == name[i]);
            }
        }
        assert forall|i: int| 0 <= i < s.len() implies is_slug_char(#[trigger] s[i]) && (
        is_ascii(name) ==> (s[i] as int) < 0x80) by {
            if i < t.len() {
                assert(s[i] == t[i]);
            } else if outside::alphanumeric(c) {
                assert(s[i] == lower[i - t.len()]);
            }
        }
        assert forall|i: int| 0 <= i < s.len() - 1 implies !#[trigger] is_double_hyphen(s, i) by {
            if i + 1 < t.len() {
                assert(!is_double_hyphen(t, i));
                assert(s[i] == t[i] && s[i + 1] == t[i + 1]);
            } else if outside::alphanumeric(c) {
                assert(s[i + 1] == lower[i + 1 - t.len()]);
            } else if s.len() > t.len() {
                assert(s[i] == t.last());
            }
        }
        if outside::alphanumeric(c) {
            assert(s.last() == lower.last());
            if t.len() == 0 {
                assert(s[0] == lower[0]);
            } else {
                assert(s[0] == t[0]);
            }
        } else {
            if has_letter_or_number(name) {
                let i = choose|i: int|
                    0 <= i < name.len() && outside::alphanumeric(#[trigger] name[i]);
                assert(rest[i] == name[i]);
            }
        }
        if has_letter_or_number(rest) {
            let i = choose|i: int| 0 <= i < rest.len() && outside::alphanumeric(#[trigger] rest[i]);
            assert(name[i] == rest[i]);
        }
    }
}

/// White space before a name does not change its directory name.
proof fn lemma_slug_without_first(name: Seq<char>)
    requires
        are_regular(name),
        name.len() > 0,
        text::white_space(name[0]),
    ensures
        name_slug(name) == name_slug(name.subrange(1, name.len() as int)),
    decreases name.len(),
{
    let tail = name.subrange(1, name.len() as int);
    if name.len() == 1 {
        assert(name.drop_last() =~= Seq::<char>::empty());
        assert(tail =~= Seq::<char>::empty());
        assert(is_regular(name[0]));
    } else {
        let rest = name.drop_last();
        assert forall|i: int| 0 <= i < rest.len() implies is_regular(#[trigger] rest[i]) by {
            assert(rest[i] == name[i]);
        }
        lemma_slug_without_first(rest);
        assert(rest.subrange(1, rest.len() as int) =~= tail.drop_last());
        assert(tail.last() == name.last());
    }
}

/// The same of all white space before a name.
proof fn lemma_slug_trimmed_start(name: Seq<char>)
    requires
        are_regular(name),
    ensures
        name_slug(name) == name_slug(text::trimmed_start(name, CharSet::WhiteSpace)),
        are_regular(text::trimmed_start(name, CharSet::WhiteSpace)),
    decreases name.len(),
{
    if name.len() > 0 && text::white_space(name[0]) {
        let tail = name.subrange(1, name.len() as int);
        assert forall|i: int| 0 <= i < tail.len() implies is_regular(#[trigger] tail[i]) by {
            assert(tail[i] == name[i + 1]);
        }
        lemma_slug_without_first(name);
        lemma_slug_trimmed_start(tail);
    }
}

/// Trimming a text of hyphens that does not start with one takes at most the last one, where there
/// are no two in a row.
proof fn lemma_trimmed_slug(s: Seq<char>)
    requires
        s.len() > 0 ==> s[0] != '-',
        has_single_hyphens(s),
    ensures
        text::trimmed_of(s, CharSet::Only('-')) == if s.len() > 0 && s.last() == '-' {
            s.drop_last()
        } else {
            s
        },
{
    let set = CharSet::Only('-');
    assert(text::trimmed_start(s, set) == s);
    if s.len() > 0 && s.last() == '-' {
        let t = s.drop_last();
        assert(s.len() > 1);
        assert(!is_double_hyphen(s, s.len() - 2));
        assert(t.last() == s[s.len() - 2]);
        assert(text::trimmed_end(t, set) == t);
    }
}

/// White space behind a name does not change its directory name.
proof fn lemma_slug_trimmed_end(name: Seq<char>)
    requires
        are_regular(name),
    ensures
        text::trimmed_of(name_slug(name).text, CharSet::Only('-')) == text::trimmed_of(
            name_slug(text::trimmed_end(name, CharSet::WhiteSpace)).text,
            CharSet::Only('-'),
        ),
    decreases name.len(),
{
    if name.len() > 0 && text::white_space(name.last()) {
        let rest = name.drop_last();
        assert forall|i: int| 0 <= i < rest.len() implies is_regular(#[trigger] rest[i]) by {
            assert(rest[i] == name[i]);
        }
        assert(is_regular(name[name.len() - 1]));
        lemma_slug_trimmed_end(rest);
        lemma_name_slug(name);
        lemma_name_slug(rest);
        let (s, t) = (name_slug(name).text, name_slug(rest).text);
        lemma_trimmed_slug(s);
        lemma_trimmed_slug(t);
        if s != t {
            assert(s.drop_last() =~= t);
        }
    }
}

/// The directory name of a name is one where the name has a letter or a number, and nothing is left
/// of it otherwise. Of a name in ASCII it is in ASCII.
proof fn lemma_directory_name(name: Seq<char>)
    requires
        are_regular(name),
    ensures
        directory_name(name) == text::trimmed_of(name_slug(name).text, CharSet::Only('-')),
        directory_name(name).len() > 0 <==> has_letter_or_number(name),
        directory_name(name).len() > 0 ==> is_directory_name(directory_name(name)),
        is_ascii(name) ==> is_ascii(directory_name(name)),
{
    let s = name_slug(name).text;
    lemma_slug_trimmed_start(name);
    lemma_slug_trimmed_end(text::trimmed_start(name, CharSet::WhiteSpace));
    lemma_name_slug(name);
    lemma_trimmed_slug(s);
    let d = directory_name(name);
    if s.len() > 0 && s.last() == '-' {
        assert(s.len() > 1);
        assert forall|i: int| 0 <= i < d.len() implies is_slug_char(#[trigger] d[i]) && (is_ascii(
            name,
        ) ==> (d[i] as int) < 0x80) by {
            assert(d[i] == s[i]);
        }
        assert forall|i: int| 0 <= i < d.len() - 1 implies !#[trigger] is_double_hyphen(d, i) by {
            assert(!is_double_hyphen(s, i));
        }
        assert(!is_double_hyphen(s, s.len() - 2));
        assert(d.last() == s[s.len() - 2]);
    }
}

/// A directory name in ASCII is made of its characters as they are, one after the other.
proof fn lemma_same_slug(name: Seq<char>, k: int)
    requires
        are_regular(name),
        is_directory_name(name),
        is_ascii(name),
        0 <= k <= name.len(),
    ensures
        name_slug(name.take(k)).text == name.take(k),
        name_slug(name.take(k)).after_separator <==> k > 0 && name[k - 1] == '-',
    decreases k,
{
    if k > 0 {
        lemma_same_slug(name, k - 1);
        let c = name[k - 1];
        assert(name.take(k).drop_last() =~= name.take(k - 1));
        assert(name.take(k).last() == c);
        assert(is_slug_char(c) && is_regular(c));
        if c == '-' {
            assert(k > 1);
            assert(!is_double_hyphen(name, k - 2));
            assert(name.take(k) =~= name.take(k - 1).push('-'));
        } else {
            assert(text::ascii_lowercase(c) == c);
            assert(name.take(k) =~= name.take(k - 1) + seq![c]);
        }
    } else {
        assert(name.take(0) =~= Seq::<char>::empty());
    }
}

/// A directory name in ASCII is its own directory name.
proof fn lemma_same_directory_name(name: Seq<char>)
    requires
        are_regular(name),
        is_directory_name(name),
        is_ascii(name),
    ensures
        directory_name(name) == name,
{
    lemma_same_slug(name, name.len() as int);
    assert(name.take(name.len() as int) =~= name);
    lemma_directory_name(name);
    lemma_trimmed_slug(name);
}

/// A character with what decides how it stands in a directory name.
fn classify(c: char) -> (r: SlugChar)
    ensures
        r.c == c,
        r.alphanumeric == outside::alphanumeric(c),
        r.lower@ == outside::char_lowercase(c),
        is_regular(c),
{
    let r = SlugChar { c, alphanumeric: outside::is_alphanumeric(c), lower: outside::lower_char(c) };
    proof {
        if outside::alphanumeric(c) {
            assert forall|i: int| 0 <= i < r.lower@.len() implies is_word_char(
                #[trigger] r.lower@[i],
            ) by {
                if (c as int) < 0x80 {
                    assert(r.lower@[i] == text::ascii_lowercase(c));
                }
            }
        }
    }
    r
}

/// The directory name of a project. A name is refused exactly where it has no letter or number.
/// What is made of an ASCII name is made of itself again.
pub fn sanitize_project_dir_name(name: &str) -> (r: Result<String, ProjectServiceError>)
    ensures
        match r {
            Ok(slug) => {
                &&& has_letter_or_number(name@)
                &&& slug@ == directory_name(name@)
                &&& is_directory_name(slug@)
                &&& is_ascii(name@) ==> is_ascii(slug@)
            },
            Err(e) => {
                &&& !has_letter_or_number(name@)
                &&& directory_name(name@).len() == 0
                &&& e@ == ProjectError::InvalidInput(
                    "Project name must contain at least one letter or number"@,
                )
            },
        },
        is_directory_name(name@) && is_ascii(name@) ==> (r matches Ok(slug) && slug@ == name@),
{
    let all = text::to_chars(name);
    let mut chars: Vec<SlugChar> = Vec::new();
    let mut i: usize = 0;
    while i < all.len()
        invariant
            i <= all@.len(),
            all@ == name@,
            slug_of(chars@) == name_slug(name@.take(i as int)),
            forall|k: int| 0 <= k < i ==> is_regular(#[trigger] name@[k]),
        decreases all@.len() - i,
    {
        let ghost before = chars@;
        chars.push(classify(all[i]));
        proof {
            assert(chars@.drop_last() =~= before);
            assert(name@.take(i + 1).drop_last() =~= name@.take(i as int));
        }
        i += 1;
    }
    assert(name@.take(name@.len() as int) =~= name@);
    let slug = make_slug(&chars);
    proof {
        lemma_directory_name(name@);
        if is_directory_name(name@) && is_ascii(name@) {
            lemma_same_directory_name(name@);
        }
    }
    if slug.len() == 0 {
        return Err(
            ProjectServiceError::invalid_input(
                "Project name must contain at least one letter or number",
            ),
        );
    }
    Ok(text::to_text(slug.as_slice()))
}

/// Where a project is to stand.
#[derive(Debug)]
pub struct ProjectDestination {
    /// The name of the project.
    pub name: String,
    /// The name of its directory under the data root.
    pub relative_path: String,
}

/// Where the project with the given name is to stand. A blank name is refused, and so are the name
/// of the directory of the server and a name without a letter or number.
pub fn destination_for_name(name: &str) -> (r: Result<ProjectDestination, ProjectServiceError>)
    ensures
        ({
            let wanted = text::trimmed(name@);
            match r {
                Ok(place) => {
                    &&& wanted.len() > 0
                    &&& wanted != ".llm-wiki-server"@
                    &&& place.name@ == wanted
                    &&& place.relative_path@ == directory_name(wanted)
                    &&& is_directory_name(place.relative_path@)
                },
                Err(e) => if wanted.len() == 0 {
                    e@ == ProjectError::InvalidInput("Project name is required"@)
                } else if wanted == ".llm-wiki-server"@ {
                    e@ == ProjectError::InvalidInput("Project name is reserved"@)
                } else {
                    directory_name(wanted).len() == 0 && e@ == ProjectError::InvalidInput(
                        "Project name must contain at least one letter or number"@,
                    )
                },
            }
        }),
{
    let chars = text::to_chars(name);
    let trimmed: &[char] = text::trim(chars.as_slice());
    if trimmed.len() == 0 {
        return Err(ProjectServiceError::invalid_input("Project name is required"));
    }
    if text::is_text(trimmed, ".llm-wiki-server") {
        return Err(ProjectServiceError::invalid_input("Project name is reserved"));
    }
    let wanted = text::to_text(trimmed);
    match sanitize_project_dir_name(wanted.as_str()) {
        Ok(relative_path) => Ok(ProjectDestination { name: wanted, relative_path }),
        Err(e) => Err(e),
    }
}

/// The name of an imported project: the one asked for unless it is blank, or the name of its
/// source unless that is blank.
pub open spec fn import_name(name: Option<Seq<char>>, source: Option<Seq<char>>) -> Option<
    Seq<char>,
> {
    match name {
        Some(n) if text::trimmed(n).len() > 0 => Some(text::trimmed(n)),
        _ => match source {
            Some(s) if text::trimmed(s).len() > 0 => Some(s),
            _ => None,
        },
    }
}

/// The name of an imported project, where it can be told.
pub fn choose_import_name(name: Option<&str>, source: Option<&str>) -> (r: Result<
    String,
    ProjectServiceError,
>)
    ensures
        match r {
            Ok(chosen) => import_name(
                text::optional_str(name),
                text::optional_str(source),
            ) == Some(chosen@),
            Err(e) => import_name(text::optional_str(name), text::optional_str(source)) is None
                && e@ == ProjectError::InvalidInput("Project name could not be inferred"@),
        },
{
    match name {
        Some(n) => {
            let chars = text::to_chars(n);
            let trimmed: &[char] = text::trim(chars.as_slice());
            if trimmed.len() > 0 {
                return Ok(text::to_text(trimmed));
            }
        },
        None => {},
    }
    match source {
        Some(s) => {
            let chars = text::to_chars(s);
            if text::trim(chars.as_slice()).len() > 0 {
                return Ok(s.to_string());
            }
        },
        None => {},
    }
    Err(ProjectServiceError::invalid_input("Project name could not be inferred"))
}

// ---------------------------------------------------------------------------------------
// Sources and roots
// ---------------------------------------------------------------------------------------

/// The path that a project is imported from, without white space around it. A path that does not
/// start at the root of the file system is refused.
pub fn import_source(style: PathStyle, source_path: &str) -> (r: Result<
    String,
    ProjectServiceError,
>)
    ensures
        match r {
            Ok(path) => path@ == text::trimmed(source_path@) && paths::is_absolute(style, path@),
            Err(e) => !paths::is_absolute(style, text::trimmed(source_path@)) && e@
                == ProjectError::InvalidInput("Import source must be an absolute server path"@),
        },
{
    let chars = text::to_chars(source_path);
    let path = text::to_text(text::trim(chars.as_slice()));
    if paths::path_is_absolute(style, path.as_str()) {
        Ok(path)
    } else {
        Err(ProjectServiceError::invalid_input("Import source must be an absolute server path"))
    }
}

/// Refuses an import source that is not there, is a symlink or is no directory.
pub fn check_import_source(kind: Option<EntryKind>) -> (r: Result<(), ProjectServiceError>)
    ensures
        match kind {
            None => r matches Err(e) && e@ == ProjectError::InvalidProject(
                "Import source is not a valid project"@,
            ),
            Some(EntryKind::Symlink) => r matches Err(e) && e@ == ProjectError::InvalidProject(
                "Import source must not be a symlink"@,
            ),
            Some(EntryKind::Directory) => r is Ok,
            Some(_) => r matches Err(e) && e@ == ProjectError::InvalidProject(
                "Import source must be a directory"@,
            ),
        },
{
    match kind {
        None => Err(ProjectServiceError::invalid_project("Import source is not a valid project")),
        Some(EntryKind::Symlink) => Err(
            ProjectServiceError::invalid_project("Import source must not be a symlink"),
        ),
        Some(EntryKind::Directory) => Ok(()),
        Some(_) => Err(ProjectServiceError::invalid_project("Import source must be a directory")),
    }
}

/// Refuses the root of a project without a schema file or without a wiki directory. Symlinks do
/// not count as either.
pub fn validate_project_root(schema: Option<EntryKind>, wiki: Option<EntryKind>) -> (r: Result<
    (),
    ProjectServiceError,
>)
    ensures
        match r {
            Ok(_) => schema == Some(EntryKind::File) && wiki == Some(EntryKind::Directory),
            Err(e) => if schema != Some(EntryKind::File) {
                e@ == ProjectError::InvalidProject("Not a valid project: missing schema.md"@)
            } else {
                wiki != Some(EntryKind::Directory) && e@ == ProjectError::InvalidProject(
                    "Not a valid project: missing wiki directory"@,
                )
            },
        },
{
    match schema {
        Some(EntryKind::File) => {},
        _ => {
            return Err(
                ProjectServiceError::invalid_project("Not a valid project: missing schema.md"),
            );
        },
    }
    match wiki {
        Some(EntryKind::Directory) => Ok(()),
        _ => Err(
            ProjectServiceError::invalid_project("Not a valid project: missing wiki directory"),
        ),
    }
}

// ---------------------------------------------------------------------------------------
// Copying a project
// ---------------------------------------------------------------------------------------

/// What is done to copy a project. The paths are those in the source and in the copy.
#[derive(Debug, Clone, PartialEq, Eq)]
pub enum CopyWork<P> {
    /// A directory is made.
    MakeDirectory(P),
    /// A file is copied.
    CopyFile(P),
}

impl View for CopyWork<RelativePath> {
    type V = CopyWork<Seq<Seq<char>>>;

    open spec fn view(&self) -> CopyWork<Seq<Seq<char>>> {
        match self {
            CopyWork::MakeDirectory(path) => CopyWork::MakeDirectory(path@),
            CopyWork::CopyFile(path) => CopyWork::CopyFile(path@),
        }
    }
}

impl CopyWork<Seq<Seq<char>>> {
    /// The path that is worked at.
    pub open spec fn path(self) -> Seq<Seq<char>> {
        match self {
            CopyWork::MakeDirectory(path) => path,
            CopyWork::CopyFile(path) => path,
        }
    }
}

/// What is done to copy a project, step by step.
pub open spec fn copy_list(v: Seq<CopyWork<RelativePath>>) -> Seq<CopyWork<Seq<Seq<char>>>> {
    v.map_values(|w: CopyWork<RelativePath>| w@)
}

/// What is done to copy the entries of the directory with the path `prefix`: files are copied, and
/// directories are made before what is in them. Symlinks and what is neither file nor directory
/// are left out.
pub open spec fn copy_works(entries: Seq<files::Entry>, prefix: Seq<Seq<char>>) -> Seq<
    CopyWork<Seq<Seq<char>>>,
>
    decreases entries,
{
    if entries.len() == 0 {
        Seq::empty()
    } else {
        let before = copy_works(entries.drop_last(), prefix);
        let e = entries.last();
        let path = prefix.push(e.name);
        match e.metadata.kind {
            EntryKind::Directory => before.push(CopyWork::MakeDirectory(path)) + copy_works(
                e.entries,
                path,
            ),
            EntryKind::File => before.push(CopyWork::CopyFile(path)),
            _ => before,
        }
    }
}

/// What is done to copy the entries of the directory with the path `relative` is appended to
/// `works`, and the paths of the symlinks that are left out to `skipped_symlinks`.
pub fn copy_project_tree(
    entries: &Vec<RawEntry>,
    relative: &RelativePath,
    works: &mut Vec<CopyWork<RelativePath>>,
    skipped_symlinks: &mut Vec<String>,
)
    ensures
        copy_list(final(works)@) == copy_list(old(works)@) + copy_works(
            files::entry_models(entries@),
            relative@,
        ),
        text::strings(final(skipped_symlinks)@) == text::strings(old(skipped_symlinks)@)
            + files::symlinks(files::entry_models(entries@), relative@),
    decreases entries@,
{
    let ghost all = files::entry_models(entries@);
    let ghost works0 = copy_list(works@);
    let ghost skipped0 = text::strings(skipped_symlinks@);
    proof {
        files::lemma_entry_models(entries@);
    }
    let mut i: usize = 0;
    assert(works0 + copy_works(all.take(0), relative@) =~= works0);
    assert(skipped0 + files::symlinks(all.take(0), relative@) =~= skipped0);
    while i < entries.len()
        invariant
            i <= entries@.len(),
            all == files::entry_models(entries@),
            all.len() == entries@.len(),
            forall|k: int|
                0 <= k < all.len() ==> #[trigger] all[k] == files::entry_model(entries@[k]),
            copy_list(works@) == works0 + copy_works(all.take(i as int), relative@),
            text::strings(skipped_symlinks@) == skipped0 + files::symlinks(
                all.take(i as int),
                relative@,
            ),
        decreases entries@.len() - i,
    {
        let entry: &RawEntry = &entries[i];
        let path = relative.join(entry.name.as_str());
        let ghost at = path@;
        let ghost copied = copy_works(all.take(i as int), relative@);
        let ghost found = files::symlinks(all.take(i as int), relative@);
        let ghost works1 = copy_list(works@);
        let ghost skipped1 = text::strings(skipped_symlinks@);
        proof {
            assert(all[i as int] == files::entry_model(*entry));
            assert(all.take(i + 1).drop_last() =~= all.take(i as int));
            assert(decreases_to!(entries@ => entries@[i as int].entries@));
        }
        match entry.metadata.kind {
            EntryKind::Symlink => {
                let shown = path.browser_relative_path();
                let ghost words = shown@;
                skipped_symlinks.push(shown);
                assert(text::strings(skipped_symlinks@) =~= skipped1.push(words));
                assert(skipped1.push(words) =~= skipped0 + found.push(words));
            },
            EntryKind::Directory => {
                works.push(CopyWork::MakeDirectory(path.copy()));
                let ghost made = CopyWork::MakeDirectory(at);
                assert(copy_list(works@) =~= works1.push(made));
                copy_project_tree(&entry.entries, &path, works, skipped_symlinks);
                let ghost inner = copy_works(files::entry_models(entry.entries@), at);
                let ghost below = files::symlinks(files::entry_models(entry.entries@), at);
                assert(works1.push(made) + inner =~= works0 + (copied.push(made) + inner));
                assert(skipped1 + below =~= skipped0 + (found + below));
            },
            EntryKind::File => {
                works.push(CopyWork::CopyFile(path));
                let ghost copy = CopyWork::CopyFile(at);
                assert(copy_list(works@) =~= works1.push(copy));
                assert(works1.push(copy) =~= works0 + copied.push(copy));
            },
            EntryKind::Other => {},
        }
        i += 1;
    }
    assert(all.take(all.len() as int) =~= all);
}

/// What stands at a path below a directory still does where there are more entries.
proof fn lemma_stands_with_more(entries: Seq<files::Entry>, path: Seq<Seq<char>>, kind: EntryKind)
    requires
        entries.len() > 0,
        files::stands_at(entries.drop_last(), path, kind),
    ensures
        files::stands_at(entries, path, kind),
{
    let fewer = entries.drop_last();
    let i = choose|i: int|
        0 <= i < fewer.len() && (#[trigger] fewer[i]).name == path[0] && if path.len() == 1 {
            fewer[i].metadata.kind == kind
        } else {
            fewer[i].metadata.kind == EntryKind::Directory && files::stands_at(
                fewer[i].entries,
                path.subrange(1, path.len() as int),
                kind,
            )
        };
    assert(entries[i] == fewer[i]);
}

/// What stands at a path below a directory stands below its last entry or below those before it.
proof fn lemma_stands_split(entries: Seq<files::Entry>, path: Seq<Seq<char>>, kind: EntryKind)
    requires
        entries.len() > 0,
        files::stands_at(entries, path, kind),
    ensures
        files::stands_at(entries.drop_last(), path, kind) || (entries.last().name == path[0]
            && if path.len() == 1 {
            entries.last().metadata.kind == kind
        } else {
            entries.last().metadata.kind == EntryKind::Directory && files::stands_at(
                entries.last().entries,
                path.subrange(1, path.len() as int),
                kind,
            )
        }),
{
    let i = choose|i: int|
        0 <= i < entries.len() && (#[trigger] entries[i]).name == path[0] && if path.len() == 1 {
            entries[i].metadata.kind == kind
        } else {
            entries[i].metadata.kind == EntryKind::Directory && files::stands_at(
                entries[i].entries,
                path.subrange(1, path.len() as int),
                kind,
            )
        };
    if i < entries.len() - 1 {
        assert(entries.drop_last()[i] == entries[i]);
    }
}

/// All that is done to copy the entries of a directory is done below that directory.
proof fn lemma_copies_below(entries: Seq<files::Entry>, prefix: Seq<Seq<char>>)
    ensures
        forall|k: int|
            0 <= k < copy_works(entries, prefix).len() ==> {
                let path = (#[trigger] copy_works(entries, prefix)[k]).path();
                prefix.len() < path.len() && path.take(prefix.len() as int) == prefix
            },
    decreases entries,
{
    if entries.len() > 0 {
        let before = copy_works(entries.drop_last(), prefix);
        let e = entries.last();
        let at = prefix.push(e.name);
        let all = copy_works(entries, prefix);
        lemma_copies_below(entries.drop_last(), prefix);
        lemma_copies_below(e.entries, at);
        assert(at.take(prefix.len() as int) =~= prefix);
        assert forall|k: int| 0 <= k < all.len() implies {
            let path = (#[trigger] all[k]).path();
            prefix.len() < path.len() && path.take(prefix.len() as int) == prefix
        } by {
            if k < before.len() {
                assert(all[k] == before[k]);
            } else if k > before.len() {
                let inner = copy_works(e.entries, at);
                assert(all[k] == inner[k - before.len() - 1]);
                let path = all[k].path();
                assert(path.take(prefix.len() as int) =~= path.take(at.len() as int).take(
                    prefix.len() as int,
                ));
            }
        }
    }
}

/// An import copies the files of its source to the same paths and no others, and it makes the
/// directories of its source and no others.
pub proof fn lemma_import_copies_files(
    entries: Seq<files::Entry>,
    prefix: Seq<Seq<char>>,
    path: Seq<Seq<char>>,
)
    ensures
        copy_works(entries, prefix).contains(CopyWork::CopyFile(prefix + path))
            <==> files::stands_at(entries, path, EntryKind::File),
        copy_works(entries, prefix).contains(CopyWork::MakeDirectory(prefix + path))
            <==> files::stands_at(entries, path, EntryKind::Directory),
{
    lemma_copy_complete(entries, prefix, path, EntryKind::File);
    lemma_copy_complete(entries, prefix, path, EntryKind::Directory);
}

/// What is done to copy what stands at a path.
spec fn work_for(kind: EntryKind, path: Seq<Seq<char>>) -> CopyWork<Seq<Seq<char>>> {
    if kind == EntryKind::File {
        CopyWork::CopyFile(path)
    } else {
        CopyWork::MakeDirectory(path)
    }
}

/// What stands at a path is copied there, and nothing else is.
proof fn lemma_copy_complete(
    entries: Seq<files::Entry>,
    prefix: Seq<Seq<char>>,
    path: Seq<Seq<char>>,
    kind: EntryKind,
)
    requires
        kind == EntryKind::File || kind == EntryKind::Directory,
    ensures
        copy_works(entries, prefix).contains(work_for(kind, prefix + path)) <==> files::stands_at(
            entries,
            path,
            kind,
        ),
    decreases entries,
{
    let wanted = work_for(kind, prefix + path);
    let all = copy_works(entries, prefix);
    if entries.len() > 0 {
        let before = copy_works(entries.drop_last(), prefix);
        let e = entries.last();
        let at = prefix.push(e.name);
        let inner = copy_works(e.entries, at);
        let rest = path.subrange(1, path.len() as int);
        lemma_copy_complete(entries.drop_last(), prefix, path, kind);
        lemma_copy_complete(e.entries, at, rest, kind);
        if path.len() > 0 && e.name == path[0] {
            assert(at + rest =~= prefix + path);
        }
        if files::stands_at(entries, path, kind) {
            lemma_stands_split(entries, path, kind);
            if files::stands_at(entries.drop_last(), path, kind) {
                let k = choose|k: int| 0 <= k < before.len() && before[k] == wanted;
                assert(all[k] == wanted);
            } else if path.len() == 1 {
                assert(prefix + path =~= at);
                assert(all[before.len() as int] == wanted);
            } else {
                let k = choose|k: int| 0 <= k < inner.len() && inner[k] == wanted;
                assert(all[before.len() + 1 + k] == wanted);
            }
        }
        if all.contains(wanted) {
            let k = choose|k: int| 0 <= k < all.len() && all[k] == wanted;
            if k < before.len() {
                assert(before[k] == wanted);
                lemma_stands_with_more(entries, path, kind);
            } else if k == before.len() {
                assert(wanted.path() == at);
                assert(prefix + path == at);
                assert(path.len() == 1);
                assert((prefix + path)[prefix.len() as int] == path[0]);
                assert(entries[entries.len() - 1] == e);
            } else {
                lemma_copies_below(e.entries, at);
                assert(inner[k - before.len() - 1] == wanted);
                let q = prefix + path;
                assert(q.take(at.len() as int) == at);
                assert(q.len() > at.len());
                assert(q.take(at.len() as int)[prefix.len() as int] == q[prefix.len() as int]);
                assert(q[prefix.len() as int] == path[0]);
                assert(at[prefix.len() as int] == e.name);
                assert(inner.contains(wanted));
                assert(entries[entries.len() - 1] == e);
            }
        }
    }
}

/// A directory is made before anything in it is copied or made.
pub proof fn lemma_directories_made_first(
    entries: Seq<files::Entry>,
    prefix: Seq<Seq<char>>,
    k: int,
)
    requires
        0 <= k < copy_works(entries, prefix).len(),
        copy_works(entries, prefix)[k].path().len() > prefix.len() + 1,
    ensures
        exists|j: int|
            0 <= j < k && #[trigger] copy_works(entries, prefix)[j] == CopyWork::MakeDirectory(
                copy_works(entries, prefix)[k].path().drop_last(),
            ),
    decreases entries,
{
    let all = copy_works(entries, prefix);
    let before = copy_works(entries.drop_last(), prefix);
    let e = entries.last();
    let at = prefix.push(e.name);
    let inner = copy_works(e.entries, at);
    let parent = all[k].path().drop_last();
    if k < before.len() {
        assert(all[k] == before[k]);
        lemma_directories_made_first(entries.drop_last(), prefix, k);
        let j = choose|j: int|
            0 <= j < k && #[trigger] before[j] == CopyWork::MakeDirectory(parent);
        assert(all[j] == before[j]);
    } else {
        let at_k = k - before.len() - 1;
        assert(all[k] == inner[at_k]);
        lemma_copies_below(e.entries, at);
        let path = inner[at_k].path();
        if path.len() > at.len() + 1 {
            lemma_directories_made_first(e.entries, at, at_k);
            let j = choose|j: int|
                0 <= j < at_k && #[trigger] inner[j] == CopyWork::MakeDirectory(parent);
            assert(all[before.len() + 1 + j] == inner[j]);
        } else {
            assert(path.drop_last() =~= path.take(at.len() as int));
            assert(all[before.len() as int] == CopyWork::MakeDirectory(at));
        }
    }
}

// ---------------------------------------------------------------------------------------
// Adding a project
// ---------------------------------------------------------------------------------------

/// What is done next to add a project, created or imported.
pub enum AddingStage {
    /// It is asked whether something stands at the destination.
    Looking,
    /// It is asked whether the destination is registered.
    AskingPath,
    /// The directory of the project is made.
    Creating,
    /// The directory is filled, and the project gets its identity.
    Filling,
    /// It is asked whether the identity is registered.
    AskingId,
    /// It is asked again whether the destination is registered.
    AskingPathAgain,
    /// The project is registered.
    Registering,
    /// The directory of the project is removed because of the error.
    Removing(ProjectServiceError),
    /// The project is added.
    Added,
    /// The project is not added because of the error.
    Failed(ProjectServiceError),
}

/// What a stage stands for.
pub enum Stage {
    Looking,
    AskingPath,
    Creating,
    Filling,
    AskingId,
    AskingPathAgain,
    Registering,
    Removing(ProjectError),
    Added,
    Failed(ProjectError),
}

impl View for AddingStage {
    type V = Stage;

    open spec fn view(&self) -> Stage {
        match self {
            AddingStage::Looking => Stage::Looking,
            AddingStage::AskingPath => Stage::AskingPath,
            AddingStage::Creating => Stage::Creating,
            AddingStage::Filling => Stage::Filling,
            AddingStage::AskingId => Stage::AskingId,
            AddingStage::AskingPathAgain => Stage::AskingPathAgain,
            AddingStage::Registering => Stage::Registering,
            AddingStage::Removing(e) => Stage::Removing(e@),
            AddingStage::Added => Stage::Added,
            AddingStage::Failed(e) => Stage::Failed(e@),
        }
    }
}

/// What came of a stage.
pub enum AddingEvent {
    /// It was done, or the answer to the question is no.
    Done,
    /// The answer to the question is yes.
    Taken,
    /// It failed.
    Failed(ProjectServiceError),
}

/// What an event stands for.
pub enum Event {
    Done,
    Taken,
    Failed(ProjectError),
}

impl View for AddingEvent {
    type V = Event;

    open spec fn view(&self) -> Event {
        match self {
            AddingEvent::Done => Event::Done,
            AddingEvent::Taken => Event::Taken,
            AddingEvent::Failed(e) => Event::Failed(e@),
        }
    }
}

/// The error that is given where the answer to the question of a stage is yes.
pub open spec fn taken_error(stage: Stage) -> ProjectError {
    match stage {
        Stage::Looking => ProjectError::Conflict(
            "Project directory already exists under the Data Root"@,
        ),
        Stage::AskingId => ProjectError::Conflict("Project is already registered"@),
        _ => ProjectError::Conflict("Project is already registered under that Data Root path"@),
    }
}

/// Whether the directory of the project has been made and must be removed where the project is
/// not added.
pub open spec fn has_directory(stage: Stage) -> bool {
    match stage {
        Stage::Filling | Stage::AskingId | Stage::AskingPathAgain | Stage::Registering => true,
        _ => false,
    }
}

/// What is done next after a stage. Where it failed, or what was asked for is taken, the project
/// is not added, and its directory is removed first where it has been made. What comes of
/// removing it does not matter. A stage that is the last stays.
pub open spec fn next_stage(stage: Stage, event: Event) -> Stage {
    match stage {
        Stage::Removing(e) => Stage::Failed(e),
        Stage::Added | Stage::Failed(_) => stage,
        _ => match event {
            Event::Done => match stage {
                Stage::Looking => Stage::AskingPath,
                Stage::AskingPath => Stage::Creating,
                Stage::Creating => Stage::Filling,
                Stage::Filling => Stage::AskingId,
                Stage::AskingId => Stage::AskingPathAgain,
                Stage::AskingPathAgain => Stage::Registering,
                _ => Stage::Added,
            },
            Event::Taken => if has_directory(stage) {
                Stage::Removing(taken_error(stage))
            } else {
                Stage::Failed(taken_error(stage))
            },
            Event::Failed(e) => if has_directory(stage) {
                Stage::Removing(e)
            } else {
                Stage::Failed(e)
            },
        },
    }
}

/// What is done next after a stage.
pub fn advance(stage: AddingStage, event: AddingEvent) -> (r: AddingStage)
    ensures
        r@ == next_stage(stage@, event@),
{
    let (made, taken, next): (bool, &str, AddingStage) = match stage {
        AddingStage::Removing(e) => {
            return AddingStage::Failed(e);
        },
        AddingStage::Added => {
            return AddingStage::Added;
        },
        AddingStage::Failed(e) => {
            return AddingStage::Failed(e);
        },
        AddingStage::Looking => (
            false,
            "Project directory already exists under the Data Root",
            AddingStage::AskingPath,
        ),
        AddingStage::AskingPath => (
            false,
            "Project is already registered under that Data Root path",
            AddingStage::Creating,
        ),
        AddingStage::Creating => (
            false,
            "Project is already registered under that Data Root path",
            AddingStage::Filling,
        ),
        AddingStage::Filling => (
            true,
            "Project is already registered under that Data Root path",
            AddingStage::AskingId,
        ),
        AddingStage::AskingId => (
            true,
            "Project is already registered",
            AddingStage::AskingPathAgain,
        ),
        AddingStage::AskingPathAgain => (
            true,
            "Project is already registered under that Data Root path",
            AddingStage::Registering,
        ),
        AddingStage::Registering => (
            true,
            "Project is already registered under that Data Root path",
            AddingStage::Added,
        ),
    };
    match event {
        AddingEvent::Done => next,
        AddingEvent::Taken => if made {
            AddingStage::Removing(ProjectServiceError::conflict(taken))
        } else {
            AddingStage::Failed(ProjectServiceError::conflict(taken))
        },
        AddingEvent::Failed(e) => if made {
            AddingStage::Removing(e)
        } else {
            AddingStage::Failed(e)
        },
    }
}

/// The stages that adding a project goes through with the given events.
pub open spec fn stages(events: Seq<Event>) -> Stage
    decreases events.len(),
{
    if events.len() == 0 {
        Stage::Looking
    } else {
        next_stage(stages(events.drop_last()), events.last())
    }
}

/// A project that is not added leaves no directory behind: from a stage at which its directory
/// has been made, adding it fails only by way of removing the directory.
pub proof fn lemma_failure_removes_directory(stage: Stage, event: Event)
    requires
        has_directory(stage),
    ensures
        !(next_stage(stage, event) is Failed),
        next_stage(stage, event) is Removing || has_directory(next_stage(stage, event))
            || next_stage(stage, event) is Added,
{
}

/// How many stages there are to go until a project is added.
pub open spec fn stages_done(stage: Stage) -> nat {
    match stage {
        Stage::Looking => 0,
        Stage::AskingPath => 1,
        Stage::Creating => 2,
        Stage::Filling => 3,
        Stage::AskingId => 4,
        Stage::AskingPathAgain => 5,
        Stage::Registering => 6,
        _ => 7,
    }
}

/// Neither a directory that is there already nor a project that is registered already is taken
/// over: a project is added only where every question was answered with no and nothing failed.
pub proof fn lemma_added_only_where_free(events: Seq<Event>)
    requires
        stages(events) is Added,
    ensures
        events.len() >= 7,
        forall|i: int| 0 <= i < 7 ==> #[trigger] events[i] == Event::Done,
{
    lemma_stages(events);
}

/// As long as adding a project has not failed, every event so far was that something was done.
proof fn lemma_stages(events: Seq<Event>)
    ensures
        !(stages(events) is Removing) && !(stages(events) is Failed) ==> ({
            let n = stages_done(stages(events));
            &&& n <= events.len()
            &&& n < 7 ==> n == events.len()
            &&& forall|i: int| 0 <= i < n ==> #[trigger] events[i] == Event::Done
        }),
    decreases events.len(),
{
    if events.len() > 0 {
        let rest = events.drop_last();
        lemma_stages(rest);
        if !(stages(events) is Removing) && !(stages(events) is Failed) {
            let n = stages_done(stages(events));
            assert forall|i: int| 0 <= i < n implies #[trigger] events[i] == Event::Done by {
                if i < rest.len() {
                    assert(rest[i] == events[i]);
                }
            }
        }
    }
}

// ---------------------------------------------------------------------------------------
// Identities
// ---------------------------------------------------------------------------------------

/// Sixteen bytes as those of a random UUID: with the version and the variant in their places.
pub open spec fn uuid_bytes(b: Seq<u8>) -> Seq<u8> {
    b.update(6, (0x40 + b[6] % 16) as u8).update(8, (0x80 + b[8] % 64) as u8)
}

/// Sixteen bytes as a random UUID in digits.
pub open spec fn uuid_text(b: Seq<u8>) -> Seq<char> {
    let hex = outside::hex_text(uuid_bytes(b));
    hex.subrange(0, 8) + seq!['-'] + hex.subrange(8, 12) + seq!['-'] + hex.subrange(12, 16) + seq![
        '-',
    ] + hex.subrange(16, 20) + seq!['-'] + hex.subrange(20, 32)
}

/// The character of a hexadecimal digit.
fn hex_char(d: u8) -> (r: char)
    requires
        d < 16,
    ensures
        r == outside::hex_digit(d as int),
{
    if d < 10 {
        (48u8 + d) as char
    } else {
        (87u8 + d) as char
    }
}

/// Sixteen bytes as a random UUID in digits.
pub fn uuid_of(bytes: &Vec<u8>) -> (r: String)
    requires
        bytes@.len() == 16,
    ensures
        r@ == uuid_text(bytes@),
        r@.len() == 36,
{
    let ghost changed = uuid_bytes(bytes@);
    let ghost hex = outside::hex_text(changed);
    let mut digits: Vec<char> = Vec::new();
    let mut i: usize = 0;
    while i < 16
        invariant
            i <= 16,
            bytes@.len() == 16,
            changed == uuid_bytes(bytes@),
            hex == outside::hex_text(changed),
            digits@ =~= hex.subrange(0, 2 * i),
        decreases 16 - i,
    {
        let b: u8 = if i == 6 {
            0x40 + bytes[6] % 16
        } else if i == 8 {
            0x80 + bytes[8] % 64
        } else {
            bytes[i]
        };
        assert(b == changed[i as int]);
        digits.push(hex_char(b / 16));
        digits.push(hex_char(b % 16));
        assert(hex[2 * i] == outside::hex_digit(b as int / 16)) by {
            assert((2 * i) / 2 == i && (2 * i) % 2 == 0);
        }
        assert(hex[2 * i + 1] == outside::hex_digit(b as int % 16)) by {
            assert((2 * i + 1) / 2 == i && (2 * i + 1) % 2 == 1);
        }
        i += 1;
    }
    assert(digits@ =~= hex);
    let mut out: Vec<char> = Vec::new();
    let mut k: usize = 0;
    while k < 32
        invariant
            k <= 32,
            digits@ == hex,
            hex.len() == 32,
            out@ =~= dashed_digits(hex, k as int),
        decreases 32 - k,
    {
        if k == 8 || k == 12 || k == 16 || k == 20 {
            out.push('-');
        }
        out.push(digits[k]);
        k += 1;
    }
    proof {
        lemma_dashed_digits(hex);
    }
    text::to_text(out.as_slice())
}

/// The first `k` of the digits of a UUID, with hyphens between its groups.
spec fn dashed_digits(hex: Seq<char>, k: int) -> Seq<char>
    decreases k,
{
    if k <= 0 {
        Seq::empty()
    } else {
        let before = dashed_digits(hex, k - 1);
        if k == 9 || k == 13 || k == 17 || k == 21 {
            before.push('-').push(hex[k - 1])
        } else {
            before.push(hex[k - 1])
        }
    }
}

/// The digits of a UUID come in groups of eight, four, four, four and twelve.
proof fn lemma_dashed_digits(hex: Seq<char>)
    requires
        hex.len() == 32,
    ensures
        dashed_digits(hex, 32) == hex.subrange(0, 8) + seq!['-'] + hex.subrange(8, 12) + seq!['-']
            + hex.subrange(12, 16) + seq!['-'] + hex.subrange(16, 20) + seq!['-']
            + hex.subrange(20, 32),
        dashed_digits(hex, 32).len() == 36,
{
    reveal_with_fuel(dashed_digits, 33);
    assert(dashed_digits(hex, 32) =~= hex.subrange(0, 8) + seq!['-'] + hex.subrange(8, 12) + seq![
        '-',
    ] + hex.subrange(12, 16) + seq!['-'] + hex.subrange(16, 20) + seq!['-'] + hex.subrange(20, 32));
}

/// A random UUID in digits.
pub fn generate_uuid_v4() -> (r: String)
    ensures
        r@.len() == 36,
        exists|b: Seq<u8>| b.len() == 16 && r@ == uuid_text(b),
{
    let bytes = outside::random_bytes(16);
    uuid_of(&bytes)
}

/// Whether the identity that a project brings along is kept: it is there and not blank.
pub fn keeps_identity(id: Option<&str>) -> (r: bool)
    ensures
        r == (id matches Some(x) && text::trimmed(x@).len() > 0),
{
    match id {
        Some(x) => text::trim(text::to_chars(x).as_slice()).len() > 0,
        None => false,
    }
}

// ---------------------------------------------------------------------------------------
// New projects
// ---------------------------------------------------------------------------------------

/// The schema that a new project starts with.
pub const SCHEMA_MD: &'static str = r#"# Wiki Schema

## Page Types

| Type | Directory | Purpose |
|------|-----------|---------|
| entity | wiki/entities/ | Named things |
| concept | wiki/concepts/ | Ideas and techniques |
| source | wiki/sources/ | Papers, articles, talks, and notes |
| query | wiki/queries/ | Open questions |
| comparison | wiki/comparisons/ | Side-by-side analysis |
| synthesis | wiki/synthesis/ | Cross-cutting summaries |

## Naming

- Files use kebab-case Markdown names.
- Wiki links use `[[page-slug]]`.
"#;

/// The purpose that a new project starts with.
pub const PURPOSE_MD: &'static str = r#"# Project Purpose

## Goal

## Key Questions

1.
2.
3.

## Scope

**In scope:**
-

**Out of scope:**
-
"#;

/// The index that a new wiki starts with.
pub const WIKI_INDEX_MD: &'static str = r#"# Wiki Index

## Entities

## Concepts

## Sources

## Queries

## Comparisons

## Synthesis
"#;

/// The log that a new wiki starts with.
pub const WIKI_LOG_MD: &'static str = r#"# Research Log

## Created

- Project created
"#;

/// The overview that a new wiki starts with.
pub const WIKI_OVERVIEW_MD: &'static str = r#"---
type: overview
title: Project Overview
tags: []
related: []
---

# Overview
"#;

/// The Obsidian settings that a new project starts with.
pub const OBSIDIAN_APP_JSON: &'static str = r#"{
  "attachmentFolderPath": "raw/assets",
  "userIgnoreFilters": [
    ".cache",
    ".llm-wiki",
    ".superpowers"
  ],
  "useMarkdownLinks": false,
  "newLinkFormat": "shortest",
  "showUnsupportedFiles": false
}"#;

/// The Obsidian appearance that a new project starts with.
pub const OBSIDIAN_APPEARANCE_JSON: &'static str = r#"{
  "baseFontSize": 16,
  "theme": "obsidian"
}"#;

/// The Obsidian plugins that a new project starts with.
pub const OBSIDIAN_CORE_PLUGINS_JSON: &'static str = r#"{
  "file-explorer": true,
  "global-search": true,
  "graph": true,
  "backlink": true,
  "tag-pane": true,
  "page-preview": true,
  "outgoing-link": true,
  "starred": true
}"#;

/// The directories that a new project starts with.
pub fn project_directories() -> (r: Vec<String>)
    ensures
        text::strings(r@) == seq![
            "raw/sources"@,
            "raw/assets"@,
            "wiki/entities"@,
            "wiki/concepts"@,
            "wiki/sources"@,
            "wiki/queries"@,
            "wiki/comparisons"@,
            "wiki/synthesis"@,
            ".obsidian"@,
        ],
{
    let mut out: Vec<String> = Vec::new();
    out.push("raw/sources".to_string());
    out.push("raw/assets".to_string());
    out.push("wiki/entities".to_string());
    out.push("wiki/concepts".to_string());
    out.push("wiki/sources".to_string());
    out.push("wiki/queries".to_string());
    out.push("wiki/comparisons".to_string());
    out.push("wiki/synthesis".to_string());
    out.push(".obsidian".to_string());
    assert(text::strings(out@) =~= seq![
        "raw/sources"@,
        "raw/assets"@,
        "wiki/entities"@,
        "wiki/concepts"@,
        "wiki/sources"@,
        "wiki/queries"@,
        "wiki/comparisons"@,
        "wiki/synthesis"@,
        ".obsidian"@,
    ]);
    out
}

/// A file that a new project starts with.
pub struct ProjectFile {
    pub path: String,
    pub contents: String,
}

/// The path and the contents of a file.
pub open spec fn file_pairs(v: Seq<ProjectFile>) -> Seq<(Seq<char>, Seq<char>)> {
    v.map_values(|f: ProjectFile| (f.path@, f.contents@))
}

/// The file with the given path and contents.
fn project_file(path: &str, contents: &str) -> (r: ProjectFile)
    ensures
        r.path@ == path@,
        r.contents@ == contents@,
{
    ProjectFile { path: path.to_string(), contents: contents.to_string() }
}

/// The files that a new project starts with.
pub fn project_files() -> (r: Vec<ProjectFile>)
    ensures
        file_pairs(r@) == seq![
            ("schema.md"@, SCHEMA_MD@),
            ("purpose.md"@, PURPOSE_MD@),
            ("wiki/index.md"@, WIKI_INDEX_MD@),
            ("wiki/log.md"@, WIKI_LOG_MD@),
            ("wiki/overview.md"@, WIKI_OVERVIEW_MD@),
            (".obsidian/app.json"@, OBSIDIAN_APP_JSON@),
            (".obsidian/appearance.json"@, OBSIDIAN_APPEARANCE_JSON@),
            (".obsidian/core-plugins.json"@, OBSIDIAN_CORE_PLUGINS_JSON@),
        ],
{
    let mut out: Vec<ProjectFile> = Vec::new();
    out.push(project_file("schema.md", SCHEMA_MD));
    out.push(project_file("purpose.md", PURPOSE_MD));
    out.push(project_file("wiki/index.md", WIKI_INDEX_MD));
    out.push(project_file("wiki/log.md", WIKI_LOG_MD));
    out.push(project_file("wiki/overview.md", WIKI_OVERVIEW_MD));
    out.push(project_file(".obsidian/app.json", OBSIDIAN_APP_JSON));
    out.push(project_file(".obsidian/appearance.json", OBSIDIAN_APPEARANCE_JSON));
    out.push(project_file(".obsidian/core-plugins.json", OBSIDIAN_CORE_PLUGINS_JSON));
    assert(file_pairs(out@) =~= seq![
        ("schema.md"@, SCHEMA_MD@),
        ("purpose.md"@, PURPOSE_MD@),
        ("wiki/index.md"@, WIKI_INDEX_MD@),
        ("wiki/log.md"@, WIKI_LOG_MD@),
        ("wiki/overview.md"@, WIKI_OVERVIEW_MD@),
        (".obsidian/app.json"@, OBSIDIAN_APP_JSON@),
        (".obsidian/appearance.json"@, OBSIDIAN_APPEARANCE_JSON@),
        (".obsidian/core-plugins.json"@, OBSIDIAN_CORE_PLUGINS_JSON@),
    ]);
    out
}

} // verus!
