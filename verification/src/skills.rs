//! The skills that a project brings along for an agent.
//!
//! A skill is a text file with optional front matter. It is asked for by name, and names that
//! could lead out of the directory of skills, or that some systems reserve, are not looked for.

use crate::paths;
use crate::paths::PathStyle;
use crate::text;
use crate::text::CharSet;
use vstd::prelude::*;
use vstd::slice::slice_subrange;

verus! {

/// How many bytes the file of a skill may have.
pub const MAX_SKILL_BYTES: u64 = 24_000;

/// A skill.
#[derive(Debug, Clone, PartialEq, Eq)]
pub struct AgentSkill {
    pub name: String,
    pub description: String,
    pub instructions: String,
}

/// What a skill stands for.
pub struct Skill {
    pub name: Seq<char>,
    pub description: Seq<char>,
    pub instructions: Seq<char>,
}

impl View for AgentSkill {
    type V = Skill;

    open spec fn view(&self) -> Skill {
        Skill {
            name: self.name@,
            description: self.description@,
            instructions: self.instructions@,
        }
    }
}

/// What the skills of a list stand for.
pub open spec fn skill_list(v: Seq<AgentSkill>) -> Seq<Skill> {
    v.map_values(|s: AgentSkill| s@)
}

// ---------------------------------------------------------------------------------------
// Names
// ---------------------------------------------------------------------------------------

/// Whether a character may not stand in a file name everywhere.
pub open spec fn is_unportable(c: char) -> bool {
    c == '<' || c == '>' || c == ':' || c == '"' || c == '|' || c == '?' || c == '*' || c as int
        <= 0x1f
}

/// An ASCII letter in upper case, and every other character as it is.
pub open spec fn upper_char(c: char) -> char {
    if 0x61 <= c as int <= 0x7a {
        (c as int - 0x20) as char
    } else {
        c
    }
}

/// A text with its ASCII letters in upper case.
pub open spec fn upper(s: Seq<char>) -> Seq<char> {
    s.map_values(|c: char| upper_char(c))
}

/// The names that Windows reserves for devices.
pub open spec fn is_reserved(name: Seq<char>) -> bool {
    ||| name == "CON"@
    ||| name == "PRN"@
    ||| name == "AUX"@
    ||| name == "NUL"@
    ||| name == "COM1"@
    ||| name == "COM2"@
    ||| name == "COM3"@
    ||| name == "COM4"@
    ||| name == "COM5"@
    ||| name == "COM6"@
    ||| name == "COM7"@
    ||| name == "COM8"@
    ||| name == "COM9"@
    ||| name == "LPT1"@
    ||| name == "LPT2"@
    ||| name == "LPT3"@
    ||| name == "LPT4"@
    ||| name == "LPT5"@
    ||| name == "LPT6"@
    ||| name == "LPT7"@
    ||| name == "LPT8"@
    ||| name == "LPT9"@
}

/// What of a name decides whether it is reserved: what stands before its first dot, without
/// spaces at its end and in upper case.
pub open spec fn device_part(name: Seq<char>) -> Seq<char> {
    upper(text::trimmed_end(text::pieces(name, CharSet::Only('.'))[0], CharSet::Only(' ')))
}

/// Whether a name may be that of a file everywhere.
pub open spec fn is_portable(name: Seq<char>) -> bool {
    &&& forall|i: int| 0 <= i < name.len() ==> !is_unportable(#[trigger] name[i])
    &&& !is_reserved(device_part(name))
}

/// The name of a skill without white space around it, where it is looked for: it is not empty,
/// leads to no other directory, and may be that of a file everywhere.
pub open spec fn skill_name(value: Seq<char>) -> Option<Seq<char>> {
    let name = text::trimmed(value);
    if name.len() == 0 || name.contains('/') || name.contains('\\') || text::contains_text(
        name,
        ".."@,
    ) || !is_portable(name) {
        None
    } else {
        Some(name)
    }
}

/// Whether `c` may not stand in a file name everywhere.
fn unportable(c: char) -> (r: bool)
    ensures
        r == is_unportable(c),
{
    c == '<' || c == '>' || c == ':' || c == '"' || c == '|' || c == '?' || c == '*' || (c as u32)
        <= 0x1f
}

/// An ASCII letter in upper case, and every other character as it is.
fn to_upper(c: char) -> (r: char)
    ensures
        r == upper_char(c),
{
    let u: u32 = c as u32;
    if 0x61 <= u && u <= 0x7a {
        ((u - 0x20) as u8) as char
    } else {
        c
    }
}

/// A text with its ASCII letters in upper case.
fn to_ascii_uppercase(s: &[char]) -> (r: Vec<char>)
    ensures
        r@ == upper(s@),
{
    let mut out: Vec<char> = Vec::new();
    let mut i: usize = 0;
    while i < s.len()
        invariant
            i <= s@.len(),
            out@ =~= upper(s@).take(i as int),
        decreases s@.len() - i,
    {
        out.push(to_upper(s[i]));
        i += 1;
    }
    assert(out@ =~= upper(s@));
    out
}

/// Whether Windows reserves a name for a device.
fn reserved(n: &[char]) -> (r: bool)
    ensures
        r == is_reserved(n@),
{
    text::is_text(n, "CON") || text::is_text(n, "PRN") || text::is_text(n, "AUX") || text::is_text(
        n,
        "NUL",
    ) || text::is_text(n, "COM1") || text::is_text(n, "COM2") || text::is_text(n, "COM3")
        || text::is_text(n, "COM4") || text::is_text(n, "COM5") || text::is_text(n, "COM6")
        || text::is_text(n, "COM7") || text::is_text(n, "COM8") || text::is_text(n, "COM9")
        || text::is_text(n, "LPT1") || text::is_text(n, "LPT2") || text::is_text(n, "LPT3")
        || text::is_text(n, "LPT4") || text::is_text(n, "LPT5") || text::is_text(n, "LPT6")
        || text::is_text(n, "LPT7") || text::is_text(n, "LPT8") || text::is_text(n, "LPT9")
}

/// Whether a name may be that of a file everywhere.
pub fn is_portable_skill_name(name: &[char]) -> (r: bool)
    ensures
        r == is_portable(name@),
{
    let mut i: usize = 0;
    while i < name.len()
        invariant
            i <= name@.len(),
            forall|k: int| 0 <= k < i ==> !is_unportable(#[trigger] name@[k]),
        decreases name@.len() - i,
    {
        if unportable(name[i]) {
            assert(is_unportable(name@[i as int]));
            return false;
        }
        i += 1;
    }
    let parts = text::split(name, CharSet::Only('.'));
    assert(text::texts(parts@)[0] == parts@[0]@);
    let stem = to_ascii_uppercase(text::trim_end(parts[0].as_slice(), CharSet::Only(' ')));
    !reserved(stem.as_slice())
}

/// The name of a skill without white space around it, where it is looked for.
pub fn normalize_skill_name(value: &str) -> (r: Option<String>)
    ensures
        text::optional(r) == skill_name(value@),
{
    let chars = text::to_chars(value);
    let name: &[char] = text::trim(chars.as_slice());
    if name.len() == 0 || text::has_char(name, '/') || text::has_char(name, '\\') || text::has_text(
        name,
        text::to_chars("..").as_slice(),
    ) || !is_portable_skill_name(name) {
        None
    } else {
        Some(text::to_text(name))
    }
}

// ---------------------------------------------------------------------------------------
// Front matter
// ---------------------------------------------------------------------------------------

/// A text without a byte order mark at its start, with a line feed for every line end.
pub open spec fn unified(raw: Seq<char>) -> Seq<char> {
    let start = if raw.len() > 0 && raw[0] == '\u{feff}' {
        raw.subrange(1, raw.len() as int)
    } else {
        raw
    };
    text::with_char(text::replaced(start, "\r\n"@, "\n"@), '\r', '\n')
}

/// The front matter and the rest of a text. Front matter stands between a first line of three
/// hyphens and the next line that starts with three hyphens. A text without it is rest only.
pub open spec fn parts(raw: Seq<char>) -> (Option<Seq<char>>, Seq<char>) {
    let all = unified(raw);
    if !text::starts_with(all, "---\n"@) {
        (None, all)
    } else {
        let rest = all.subrange(4, all.len() as int);
        match text::position(rest, "\n---"@) {
            None => (None, all),
            Some(end) => {
                let tail = rest.subrange(end + 4, rest.len() as int);
                let after = if tail.len() > 0 && tail[0] == '\n' {
                    tail.subrange(1, tail.len() as int)
                } else {
                    tail
                };
                (Some(rest.subrange(0, end)), after)
            },
        }
    }
}

/// A value without the double quotes or else the single quotes around it. Quotes count only in
/// pairs.
pub open spec fn unquoted(value: Seq<char>) -> Seq<char> {
    if value.len() >= 2 && value[0] == '"' && value.last() == '"' {
        value.subrange(1, value.len() - 1)
    } else if value.len() >= 2 && value[0] == '\'' && value.last() == '\'' {
        value.subrange(1, value.len() - 1)
    } else {
        value
    }
}

/// The value that a line gives for the key with the prefix `prefix`, empty where it gives none.
pub open spec fn line_value(line: Seq<char>, prefix: Seq<char>) -> Seq<char> {
    let t = text::trimmed(line);
    if text::starts_with(t, prefix) {
        unquoted(text::trimmed(t.subrange(prefix.len() as int, t.len() as int)))
    } else {
        Seq::empty()
    }
}

/// The first value that the lines from `from` on give for a key.
pub open spec fn first_value(lines: Seq<Seq<char>>, prefix: Seq<char>, from: int) -> Option<
    Seq<char>,
>
    decreases lines.len() - from,
{
    if from < 0 || from >= lines.len() {
        None
    } else if line_value(lines[from], prefix).len() > 0 {
        Some(line_value(lines[from], prefix))
    } else {
        first_value(lines, prefix, from + 1)
    }
}

/// The value that front matter gives for a key.
pub open spec fn field(front_matter: Seq<char>, key: Seq<char>) -> Option<Seq<char>> {
    first_value(text::line_list(front_matter), key + ":"@, 0)
}

/// The skill that a text describes, where it gives instructions. Its name is `fallback` where the
/// front matter does not say.
pub open spec fn skill_of(raw: Seq<char>, fallback: Seq<char>) -> Option<Skill> {
    let (front_matter, body) = parts(raw);
    let instructions = text::trimmed(body);
    if instructions.len() == 0 {
        None
    } else {
        let given = match front_matter {
            Some(f) => (field(f, "name"@), field(f, "description"@)),
            None => (None, None),
        };
        Some(
            Skill {
                name: match given.0 {
                    Some(name) => name,
                    None => fallback,
                },
                description: match given.1 {
                    Some(description) => description,
                    None => Seq::empty(),
                },
                instructions,
            },
        )
    }
}

/// The front matter and the rest of a text.
pub fn split_frontmatter(raw: &str) -> (r: (Option<String>, String))
    ensures
        (text::optional(r.0), r.1@) == parts(raw@),
{
    let chars = text::to_chars(raw);
    let n: usize = chars.len();
    let start: &[char] = if n > 0 && chars[0] == '\u{feff}' {
        slice_subrange(chars.as_slice(), 1, n)
    } else {
        chars.as_slice()
    };
    let lines = text::replace(
        start,
        text::to_chars("\r\n").as_slice(),
        text::to_chars("\n").as_slice(),
    );
    let all = text::replace_char(lines.as_slice(), '\r', '\n');
    proof {
        reveal_strlit("---\n");
        reveal_strlit("\n---");
    }
    if !text::has_prefix(all.as_slice(), text::to_chars("---\n").as_slice()) {
        return (None, text::to_text(all.as_slice()));
    }
    let rest: &[char] = slice_subrange(all.as_slice(), 4, all.len());
    let m: usize = rest.len();
    match text::find(rest, text::to_chars("\n---").as_slice()) {
        None => (None, text::to_text(all.as_slice())),
        Some(end) => {
            let tail: &[char] = slice_subrange(rest, end + 4, m);
            let after: &[char] = if tail.len() > 0 && tail[0] == '\n' {
                slice_subrange(tail, 1, tail.len())
            } else {
                tail
            };
            (Some(text::to_text(slice_subrange(rest, 0, end))), text::to_text(after))
        },
    }
}

/// A value without the quotes around it.
fn unquote(value: &[char]) -> (r: &[char])
    ensures
        r@ == unquoted(value@),
{
    let n: usize = value.len();
    if n >= 2 && ((value[0] == '"' && value[n - 1] == '"') || (value[0] == '\'' && value[n - 1]
        == '\'')) {
        slice_subrange(value, 1, n - 1)
    } else {
        value
    }
}

/// The value that front matter gives for a key.
pub fn yaml_string_field(front_matter: &str, key: &str) -> (r: Option<String>)
    ensures
        text::optional(r) == field(front_matter@, key@),
{
    let mut name = key.to_string();
    name.append(":");
    let prefix = text::to_chars(name.as_str());
    let lines = text::lines(text::to_chars(front_matter).as_slice());
    let ghost all = text::texts(lines@);
    let mut i: usize = 0;
    while i < lines.len()
        invariant
            i <= lines@.len(),
            all == text::texts(lines@),
            all == text::line_list(front_matter@),
            prefix@ == key@ + ":"@,
            first_value(all, prefix@, i as int) == first_value(all, prefix@, 0),
        decreases lines@.len() - i,
    {
        assert(all[i as int] == lines@[i as int]@);
        let line: &[char] = text::trim(lines[i].as_slice());
        if text::has_prefix(line, prefix.as_slice()) {
            let value: &[char] = unquote(
                text::trim(slice_subrange(line, prefix.len(), line.len())),
            );
            if value.len() > 0 {
                return Some(text::to_text(value));
            }
        }
        i += 1;
    }
    None
}

/// The skill that a text describes, where it gives instructions.
pub fn parse_skill(raw: &str, fallback_name: &str) -> (r: Option<AgentSkill>)
    ensures
        match r {
            Some(skill) => skill_of(raw@, fallback_name@) == Some(skill@),
            None => skill_of(raw@, fallback_name@) is None,
        },
{
    let (front_matter, body) = split_frontmatter(raw);
    let chars = text::to_chars(body.as_str());
    let instructions: &[char] = text::trim(chars.as_slice());
    if instructions.len() == 0 {
        return None;
    }
    let (name, description) = match front_matter {
        Some(f) => (
            yaml_string_field(f.as_str(), "name"),
            yaml_string_field(f.as_str(), "description"),
        ),
        None => (None, None),
    };
    Some(
        AgentSkill {
            name: match name {
                Some(name) => name,
                None => fallback_name.to_string(),
            },
            description: match description {
                Some(description) => description,
                None => String::new(),
            },
            instructions: text::to_text(instructions),
        },
    )
}

// ---------------------------------------------------------------------------------------
// Loading
// ---------------------------------------------------------------------------------------

/// What was found where a skill was looked for.
pub struct SkillFile {
    /// Where it was looked for.
    pub path: String,
    /// Whether a file stands there.
    pub is_file: bool,
    /// How many bytes it has.
    pub size: u64,
    /// Its text, where it could be read as one.
    pub contents: Option<String>,
}

/// The two places where a skill is looked for, the first before the second.
pub open spec fn places(style: PathStyle, project_path: Seq<char>, name: Seq<char>) -> (
    Seq<char>,
    Seq<char>,
) {
    let root = paths::joined_path(style, paths::joined_path(style, project_path, ".llm-wiki"@), "skills"@);
    (
        paths::joined_path(style, root, name + ".md"@),
        paths::joined_path(style, paths::joined_path(style, root, name), "SKILL.md"@),
    )
}

/// The skill in what was found, where it is a file that is not too large and describes one.
pub open spec fn skill_in(file: SkillFile, name: Seq<char>) -> Option<Skill> {
    if !file.is_file || file.size > MAX_SKILL_BYTES {
        None
    } else {
        match file.contents {
            Some(contents) => skill_of(contents@, name),
            None => None,
        }
    }
}

/// The skill at a place: that in the first of what was found there from `from` on.
pub open spec fn skill_at(
    files: Seq<SkillFile>,
    path: Seq<char>,
    name: Seq<char>,
    from: int,
) -> Option<Skill>
    decreases files.len() - from,
{
    if from < 0 || from >= files.len() {
        None
    } else if files[from].path@ == path {
        skill_in(files[from], name)
    } else {
        skill_at(files, path, name, from + 1)
    }
}

/// The skill that is asked for by `value`: that at the first place which has one.
pub open spec fn skill_for(
    style: PathStyle,
    project_path: Seq<char>,
    value: Seq<char>,
    files: Seq<SkillFile>,
) -> Option<Skill> {
    match skill_name(value) {
        None => None,
        Some(name) => {
            let (one, other) = places(style, project_path, name);
            match skill_at(files, one, name, 0) {
                Some(skill) => Some(skill),
                None => skill_at(files, other, name, 0),
            }
        },
    }
}

/// The skills that are asked for, as far as there are any, in the order of the request.
pub open spec fn skills_for(
    style: PathStyle,
    project_path: Seq<char>,
    requested: Seq<Seq<char>>,
    files: Seq<SkillFile>,
) -> Seq<Skill>
    decreases requested.len(),
{
    if requested.len() == 0 {
        Seq::empty()
    } else {
        let before = skills_for(style, project_path, requested.drop_last(), files);
        match skill_for(style, project_path, requested.last(), files) {
            Some(skill) => before.push(skill),
            None => before,
        }
    }
}

/// The places where skills are looked for.
pub open spec fn all_places(
    style: PathStyle,
    project_path: Seq<char>,
    requested: Seq<Seq<char>>,
) -> Seq<Seq<char>>
    decreases requested.len(),
{
    if requested.len() == 0 {
        Seq::empty()
    } else {
        let before = all_places(style, project_path, requested.drop_last());
        match skill_name(requested.last()) {
            Some(name) => before.push(places(style, project_path, name).0).push(
                places(style, project_path, name).1,
            ),
            None => before,
        }
    }
}

/// The two places where a skill is looked for.
fn find_places(style: PathStyle, project_path: &str, name: &str) -> (r: (String, String))
    ensures
        (r.0@, r.1@) == places(style, project_path@, name@),
{
    let root = paths::join_path(
        style,
        paths::join_path(style, project_path, ".llm-wiki").as_str(),
        "skills",
    );
    let mut file = name.to_string();
    file.append(".md");
    (
        paths::join_path(style, root.as_str(), file.as_str()),
        paths::join_path(style, paths::join_path(style, root.as_str(), name).as_str(), "SKILL.md"),
    )
}

/// The places where the skills that are asked for are looked for.
pub fn skill_places(style: PathStyle, project_path: &str, requested: &Vec<String>) -> (r: Vec<
    String,
>)
    ensures
        text::strings(r@) == all_places(style, project_path@, text::strings(requested@)),
{
    let ghost all = text::strings(requested@);
    let mut out: Vec<String> = Vec::new();
    let mut i: usize = 0;
    assert(text::strings(out@) =~= all_places(style, project_path@, all.take(0)));
    while i < requested.len()
        invariant
            i <= requested@.len(),
            all == text::strings(requested@),
            text::strings(out@) == all_places(style, project_path@, all.take(i as int)),
        decreases requested@.len() - i,
    {
        let ghost before = text::strings(out@);
        assert(all.take(i + 1).drop_last() =~= all.take(i as int));
        assert(all[i as int] == requested@[i as int]@);
        match normalize_skill_name(requested[i].as_str()) {
            Some(name) => {
                let (one, other) = find_places(style, project_path, name.as_str());
                let ghost (a, b) = (one@, other@);
                out.push(one);
                out.push(other);
                assert(text::strings(out@) =~= before.push(a).push(b));
            },
            None => {},
        }
        i += 1;
    }
    assert(all.take(all.len() as int) =~= all);
    out
}

/// The skill at a place.
fn load_skill_file(files: &Vec<SkillFile>, path: &str, name: &str) -> (r: Option<AgentSkill>)
    ensures
        match r {
            Some(skill) => skill_at(files@, path@, name@, 0) == Some(skill@),
            None => skill_at(files@, path@, name@, 0) is None,
        },
{
    let mut i: usize = 0;
    while i < files.len()
        invariant
            i <= files@.len(),
            skill_at(files@, path@, name@, i as int) == skill_at(files@, path@, name@, 0),
        decreases files@.len() - i,
    {
        let file: &SkillFile = &files[i];
        if text::same_text(file.path.as_str(), path) {
            if !file.is_file || file.size > MAX_SKILL_BYTES {
                return None;
            }
            return match &file.contents {
                Some(contents) => parse_skill(contents.as_str(), name),
                None => None,
            };
        }
        i += 1;
    }
    None
}

/// The skill that is asked for by `value`.
fn load_one_skill(
    style: PathStyle,
    project_path: &str,
    value: &str,
    files: &Vec<SkillFile>,
) -> (r: Option<AgentSkill>)
    ensures
        match r {
            Some(skill) => skill_for(style, project_path@, value@, files@) == Some(skill@),
            None => skill_for(style, project_path@, value@, files@) is None,
        },
{
    match normalize_skill_name(value) {
        None => None,
        Some(name) => {
            let (one, other) = find_places(style, project_path, name.as_str());
            match load_skill_file(files, one.as_str(), name.as_str()) {
                Some(skill) => Some(skill),
                None => load_skill_file(files, other.as_str(), name.as_str()),
            }
        },
    }
}

/// The skills that are asked for, as far as there are any, in the order of the request. `files`
/// holds what was found at the places where they are looked for.
pub fn load_project_skills(
    style: PathStyle,
    project_path: &str,
    requested: &Vec<String>,
    files: &Vec<SkillFile>,
) -> (r: Vec<AgentSkill>)
    ensures
        skill_list(r@) == skills_for(style, project_path@, text::strings(requested@), files@),
{
    let ghost all = text::strings(requested@);
    let mut out: Vec<AgentSkill> = Vec::new();
    let mut i: usize = 0;
    assert(skill_list(out@) =~= skills_for(style, project_path@, all.take(0), files@));
    while i < requested.len()
        invariant
            i <= requested@.len(),
            all == text::strings(requested@),
            skill_list(out@) == skills_for(style, project_path@, all.take(i as int), files@),
        decreases requested@.len() - i,
    {
        let ghost before = skill_list(out@);
        assert(all.take(i + 1).drop_last() =~= all.take(i as int));
        assert(all[i as int] == requested@[i as int]@);
        match load_one_skill(style, project_path, requested[i].as_str(), files) {
            Some(skill) => {
                let ghost model = skill@;
                out.push(skill);
                assert(skill_list(out@) =~= before.push(model));
            },
            None => {},
        }
        i += 1;
    }
    assert(all.take(all.len() as int) =~= all);
    out
}

/// A skill is looked for only in the directory of skills: a name that is looked for holds no slash,
/// no backslash and no two dots in a row.
pub proof fn lemma_skill_names_stay_inside(value: Seq<char>)
    ensures
        skill_name(value) matches Some(name) ==> name.len() > 0 && !name.contains('/')
            && !name.contains('\\') && !text::contains_text(name, ".."@) && is_portable(name),
{
}

/// Every skill that is loaded has instructions.
pub proof fn lemma_skills_have_instructions(
    style: PathStyle,
    project_path: Seq<char>,
    requested: Seq<Seq<char>>,
    files: Seq<SkillFile>,
)
    ensures
        forall|i: int|
            0 <= i < skills_for(style, project_path, requested, files).len() ==> (
            #[trigger] skills_for(style, project_path, requested, files)[i]).instructions.len() > 0,
        skills_for(style, project_path, requested, files).len() <= requested.len(),
    decreases requested.len(),
{
    if requested.len() > 0 {
        let all = skills_for(style, project_path, requested, files);
        let before = skills_for(style, project_path, requested.drop_last(), files);
        lemma_skills_have_instructions(style, project_path, requested.drop_last(), files);
        if let Some(name) = skill_name(requested.last()) {
            let (one, other) = places(style, project_path, name);
            lemma_skill_at(files, one, name, 0);
            lemma_skill_at(files, other, name, 0);
        }
        assert forall|i: int| 0 <= i < all.len() implies (#[trigger] all[i]).instructions.len()
            > 0 by {
            if i < before.len() {
                assert(all[i] == before[i]);
            }
        }
    }
}

/// A skill at a place has instructions.
proof fn lemma_skill_at(files: Seq<SkillFile>, path: Seq<char>, name: Seq<char>, from: int)
    ensures
        skill_at(files, path, name, from) matches Some(skill) ==> skill.instructions.len() > 0,
    decreases files.len() - from,
{
    if 0 <= from < files.len() && files[from].path@ != path {
        lemma_skill_at(files, path, name, from + 1);
    }
}

} // verus!
