//! What holds of loading skills, whatever their files say.

use crate::paths;
use crate::paths::PathStyle;
use crate::skills;
use crate::skills::{Skill, SkillFile};
use crate::text;
use crate::text::CharSet;
use crate::text_laws;
use vstd::prelude::*;

verus! {

// ---------------------------------------------------------------------------------------
// Front matter
// ---------------------------------------------------------------------------------------

/// A text without a byte order mark and without carriage returns is read as it is.
pub proof fn lemma_plain_text(raw: Seq<char>)
    requires
        !raw.contains('\r'),
        raw.len() > 0 ==> raw[0] != '\u{feff}',
    ensures
        skills::unified(raw) == raw,
{
    reveal_strlit("\r\n");
    reveal_strlit("\n");
    lemma_no_return(raw);
    assert(text::with_char(raw, '\r', '\n') =~= raw) by {
        assert forall|i: int| 0 <= i < raw.len() implies raw[i] != '\r' by {
            assert(raw.contains(raw[i]));
        }
    }
}

proof fn lemma_no_return(raw: Seq<char>)
    requires
        !raw.contains('\r'),
    ensures
        text::replaced(raw, "\r\n"@, "\n"@) == raw,
{
    reveal_strlit("\r\n");
    assert(!text::contains_text(raw, "\r\n"@)) by {
        if text::contains_text(raw, "\r\n"@) {
            let i = choose|i: int| text::occurs_at(raw, "\r\n"@, i);
            assert(raw.subrange(i, i + 2)[0] == '\r');
            assert(raw.contains(raw[i]));
        }
    }
    text_laws::lemma_replaced(raw, "\r\n"@, "\n"@, 0);
}

/// A line end is a line end, however it is written: a text with a carriage return and a line feed,
/// or with a carriage return alone, is read as one with a line feed. A byte order mark at the start
/// is no part of the text.
pub proof fn lemma_line_ends(a: Seq<char>, b: Seq<char>)
    requires
        !a.contains('\r'),
        !b.contains('\r'),
        a.len() > 0,
        a[0] != '\u{feff}',
        b.len() > 0 ==> b[0] != '\n',
    ensures
        skills::unified(a + "\r\n"@ + b) == a + "\n"@ + b,
        skills::unified(a + seq!['\r'] + b) == a + "\n"@ + b,
        skills::unified(seq!['\u{feff}'] + a) == a,
{
    reveal_strlit("\r\n");
    reveal_strlit("\n");
    let s = a + "\r\n"@ + b;
    assert forall|i: int| 0 <= i < a.len() implies a[i] != '\r' by {
        assert(a.contains(a[i]));
    }
    assert forall|i: int| 0 <= i < b.len() implies b[i] != '\r' by {
        assert(b.contains(b[i]));
    }
    text_laws::lemma_occurs(a, "\r\n"@, b);
    assert forall|k: int| 0 <= k < a.len() implies !#[trigger] text::occurs_at(s, "\r\n"@, k) by {
        if text::occurs_at(s, "\r\n"@, k) {
            assert(s.subrange(k, k + 2)[0] == s[k]);
            assert(s[k] == a[k]);
        }
    }
    text_laws::lemma_replaced(s, "\r\n"@, "\n"@, a.len() as int);
    assert(s.take(a.len() as int) =~= a);
    assert(s.subrange(a.len() as int + 2, s.len() as int) =~= b);
    lemma_no_return(b);
    assert(text::with_char(a + "\n"@ + b, '\r', '\n') =~= a + "\n"@ + b);
    let t = a + seq!['\r'] + b;
    assert(!text::contains_text(t, "\r\n"@)) by {
        if text::contains_text(t, "\r\n"@) {
            let i = choose|i: int| text::occurs_at(t, "\r\n"@, i);
            assert(t.subrange(i, i + 2)[0] == '\r' && t.subrange(i, i + 2)[1] == '\n');
            assert(t[i] == '\r' && t[i + 1] == '\n');
            if i < a.len() {
                assert(t[i] == a[i]);
            } else if i > a.len() {
                assert(t[i] == b[i - a.len() - 1]);
            } else {
                assert(t[i + 1] == b[0]);
            }
        }
    }
    text_laws::lemma_replaced(t, "\r\n"@, "\n"@, 0);
    assert(text::with_char(t, '\r', '\n') =~= a + "\n"@ + b);
    let u = seq!['\u{feff}'] + a;
    assert(u.subrange(1, u.len() as int) =~= a);
    lemma_no_return(a);
    assert(text::with_char(a, '\r', '\n') =~= a);
}

/// Front matter is what stands between a first line of three hyphens and the next line of three
/// hyphens, and the body is what stands behind that line. A text that does not begin with such a
/// line is body only.
pub proof fn lemma_parts(front: Seq<char>, body: Seq<char>)
    requires
        !front.contains('\r'),
        !body.contains('\r'),
        forall|k: int|
            0 <= k < front.len() ==> !#[trigger] text::occurs_at(
                front + "\n---"@ + ("\n"@ + body),
                "\n---"@,
                k,
            ),
    ensures
        skills::parts("---\n"@ + (front + "\n---"@ + ("\n"@ + body))) == (Some(front), body),
        body.len() > 0 && body[0] != '\u{feff}' && !text::starts_with(body, "---\n"@)
            ==> skills::parts(body) == (None::<Seq<char>>, body),
{
    reveal_strlit("---\n");
    reveal_strlit("\n---");
    reveal_strlit("\n");
    let rest = front + "\n---"@ + ("\n"@ + body);
    let raw = "---\n"@ + rest;
    assert(!raw.contains('\r')) by {
        if raw.contains('\r') {
            let i = choose|i: int| 0 <= i < raw.len() && raw[i] == '\r';
            if 4 <= i < 4 + front.len() {
                assert(front.contains(front[i - 4]));
            } else if i >= 9 + front.len() {
                assert(body.contains(body[i - 9 - front.len()]));
            }
        }
    }
    lemma_plain_text(raw);
    assert(raw.subrange(0, 4) =~= "---\n"@);
    assert(raw.subrange(4, raw.len() as int) =~= rest);
    text_laws::lemma_position(front, "\n---"@, "\n"@ + body);
    let tail = rest.subrange(front.len() as int + 4, rest.len() as int);
    assert(tail =~= "\n"@ + body);
    assert(tail.subrange(1, tail.len() as int) =~= body);
    assert(rest.subrange(0, front.len() as int) =~= front);
    if body.len() > 0 && body[0] != '\u{feff}' {
        lemma_plain_text(body);
    }
}

/// A value in quotes is what stands between them.
pub proof fn lemma_unquoted(v: Seq<char>)
    requires
        v.len() > 0 ==> v[0] != '"' && v[0] != '\'',
    ensures
        skills::unquoted(seq!['"'] + v + seq!['"']) == v,
        skills::unquoted(seq!['\''] + v + seq!['\'']) == v,
        skills::unquoted(v) == v,
{
    let (d, s) = (seq!['"'] + v + seq!['"'], seq!['\''] + v + seq!['\'']);
    assert(d.subrange(1, d.len() - 1) =~= v);
    assert(s.subrange(1, s.len() - 1) =~= v);
}

/// Whether line `k` gives a value for a key: it starts with the key and a colon, and something
/// stands behind them.
pub open spec fn gives(lines: Seq<Seq<char>>, key: Seq<char>, k: int, value: Seq<char>) -> bool {
    &&& 0 <= k < lines.len()
    &&& exists|rest: Seq<char>|
        text::trimmed(lines[k]) == #[trigger] (key + ":"@ + rest) && skills::unquoted(
            text::trimmed(rest),
        ) == value
    &&& value.len() > 0
}

/// Front matter gives for a key the value of the first line that gives one, and nothing where no
/// line does.
pub proof fn lemma_field(front: Seq<char>, key: Seq<char>, k: int, value: Seq<char>)
    ensures
        gives(text::line_list(front), key, k, value) && (forall|x: int, v: Seq<char>|
            0 <= x < k ==> !#[trigger] gives(text::line_list(front), key, x, v))
            ==> skills::field(front, key) == Some(value),
        (forall|x: int, v: Seq<char>| !#[trigger] gives(text::line_list(front), key, x, v))
            ==> skills::field(front, key) is None,
{
    let lines = text::line_list(front);
    if gives(lines, key, k, value) && (forall|x: int, v: Seq<char>|
        0 <= x < k ==> !#[trigger] gives(lines, key, x, v)) {
        lemma_first_value(lines, key, 0, k, value);
    }
    if forall|x: int, v: Seq<char>| !#[trigger] gives(lines, key, x, v) {
        lemma_no_value(lines, key, 0);
    }
}

proof fn lemma_line_value(lines: Seq<Seq<char>>, key: Seq<char>, k: int, value: Seq<char>)
    requires
        0 <= k < lines.len(),
    ensures
        gives(lines, key, k, value) ==> skills::line_value(lines[k], key + ":"@) == value,
        skills::line_value(lines[k], key + ":"@).len() > 0 ==> gives(
            lines,
            key,
            k,
            skills::line_value(lines[k], key + ":"@),
        ),
{
    let t = text::trimmed(lines[k]);
    let prefix = key + ":"@;
    if gives(lines, key, k, value) {
        let rest = choose|rest: Seq<char>|
            t == #[trigger] (key + ":"@ + rest) && skills::unquoted(text::trimmed(rest)) == value;
        text_laws::lemma_starts_and_ends(prefix, rest);
        assert(t.subrange(prefix.len() as int, t.len() as int) =~= rest);
    }
    if text::starts_with(t, prefix) {
        let rest = t.subrange(prefix.len() as int, t.len() as int);
        assert(t =~= t.subrange(0, prefix.len() as int) + rest);
        assert(t == key + ":"@ + rest);
    }
}

proof fn lemma_first_value(
    lines: Seq<Seq<char>>,
    key: Seq<char>,
    from: int,
    k: int,
    value: Seq<char>,
)
    requires
        0 <= from <= k,
        gives(lines, key, k, value),
        forall|x: int, v: Seq<char>| 0 <= x < k ==> !#[trigger] gives(lines, key, x, v),
    ensures
        skills::first_value(lines, key + ":"@, from) == Some(value),
    decreases k - from,
{
    let found = skills::line_value(lines[from], key + ":"@);
    if from < k {
        lemma_line_value(lines, key, from, found);
        assert(!gives(lines, key, from, found));
        lemma_first_value(lines, key, from + 1, k, value);
    } else {
        lemma_line_value(lines, key, k, value);
    }
}

proof fn lemma_no_value(lines: Seq<Seq<char>>, key: Seq<char>, from: int)
    requires
        0 <= from <= lines.len(),
        forall|x: int, v: Seq<char>| !#[trigger] gives(lines, key, x, v),
    ensures
        skills::first_value(lines, key + ":"@, from) is None,
    decreases lines.len() - from,
{
    if from < lines.len() {
        let found = skills::line_value(lines[from], key + ":"@);
        lemma_line_value(lines, key, from, found);
        assert(!gives(lines, key, from, found));
        lemma_no_value(lines, key, from + 1);
    }
}

// ---------------------------------------------------------------------------------------
// Skills
// ---------------------------------------------------------------------------------------

/// A skill has the name and the description that its front matter gives, each from the first line
/// that gives one. The name asked for is used only where the front matter gives none, and a skill
/// without a description has an empty one. Its instructions are the body.
pub proof fn lemma_skill_says_its_name(
    raw: Seq<char>,
    fallback: Seq<char>,
    front: Seq<char>,
    body: Seq<char>,
    key: Seq<char>,
    k: int,
    value: Seq<char>,
)
    requires
        skills::parts(raw) == (Some(front), body),
        text::trimmed(body).len() > 0,
    ensures
        ({
            let lines = text::line_list(front);
            let first = gives(lines, key, k, value) && forall|x: int, v: Seq<char>|
                0 <= x < k ==> !#[trigger] gives(lines, key, x, v);
            let none = forall|x: int, v: Seq<char>| !#[trigger] gives(lines, key, x, v);
            skills::skill_of(raw, fallback) matches Some(skill) && {
                &&& key == "name"@ && first ==> skill.name == value
                &&& key == "name"@ && none ==> skill.name == fallback
                &&& key == "description"@ && first ==> skill.description == value
                &&& key == "description"@ && none ==> skill.description == Seq::<char>::empty()
                &&& skill.instructions == text::trimmed(body)
            }
        }),
{
    lemma_field(front, key, k, value);
}

/// A skill without front matter has the name asked for, no description, and its whole text as its
/// instructions. A text without instructions describes no skill.
pub proof fn lemma_skill_without_front_matter(raw: Seq<char>, fallback: Seq<char>)
    ensures
        skills::parts(raw).0 is None && text::trimmed(skills::parts(raw).1).len() > 0
            ==> skills::skill_of(raw, fallback) == Some(
            Skill {
                name: fallback,
                description: Seq::empty(),
                instructions: text::trimmed(skills::parts(raw).1),
            },
        ),
        text::trimmed(skills::parts(raw).1).len() == 0 ==> skills::skill_of(raw, fallback) is None,
{
}

/// A file holds a skill only where it is a file of no more than 24000 bytes that could be read.
pub proof fn lemma_skill_files(file: SkillFile, name: Seq<char>)
    ensures
        !file.is_file || file.size > 24000 || file.contents is None ==> skills::skill_in(file, name)
            is None,
        file.is_file && file.size <= 24000 ==> (file.contents matches Some(contents)
            ==> skills::skill_in(file, name) == skills::skill_of(contents@, name)),
{
}

/// What was found first at a path decides about the skill there.
pub proof fn lemma_skill_at(files: Seq<SkillFile>, path: Seq<char>, name: Seq<char>, i: int)
    ensures
        0 <= i < files.len() && files[i].path@ == path && (forall|k: int|
            0 <= k < i ==> (#[trigger] files[k]).path@ != path) ==> skills::skill_at(
            files,
            path,
            name,
            0,
        ) == skills::skill_in(files[i], name),
        (forall|k: int| 0 <= k < files.len() ==> (#[trigger] files[k]).path@ != path)
            ==> skills::skill_at(files, path, name, 0) is None,
{
    if 0 <= i < files.len() && files[i].path@ == path && (forall|k: int|
        0 <= k < i ==> (#[trigger] files[k]).path@ != path) {
        lemma_skill_from(files, path, name, 0, i);
    }
    if forall|k: int| 0 <= k < files.len() ==> (#[trigger] files[k]).path@ != path {
        lemma_no_skill_from(files, path, name, 0);
    }
}

proof fn lemma_skill_from(
    files: Seq<SkillFile>,
    path: Seq<char>,
    name: Seq<char>,
    from: int,
    i: int,
)
    requires
        0 <= from <= i < files.len(),
        files[i].path@ == path,
        forall|k: int| 0 <= k < i ==> (#[trigger] files[k]).path@ != path,
    ensures
        skills::skill_at(files, path, name, from) == skills::skill_in(files[i], name),
    decreases i - from,
{
    if from < i {
        lemma_skill_from(files, path, name, from + 1, i);
    }
}

proof fn lemma_no_skill_from(files: Seq<SkillFile>, path: Seq<char>, name: Seq<char>, from: int)
    requires
        0 <= from <= files.len(),
        forall|k: int| 0 <= k < files.len() ==> (#[trigger] files[k]).path@ != path,
    ensures
        skills::skill_at(files, path, name, from) is None,
    decreases files.len() - from,
{
    if from < files.len() {
        lemma_no_skill_from(files, path, name, from + 1);
    }
}

/// A skill is looked for in the directory of skills of the project: first in a file with its name,
/// and where that describes none in the file `SKILL.md` of a directory with its name. The name of
/// the request is what it is called where its file does not say.
pub proof fn lemma_skill_for(
    project: Seq<char>,
    value: Seq<char>,
    name: Seq<char>,
    files: Seq<SkillFile>,
)
    requires
        project.len() > 0,
        project.last() != '/',
        name.len() > 0,
        name.last() != '/',
        skills::skill_name(value) == Some(name),
    ensures
        ({
            let one = project + "/.llm-wiki/skills/"@ + name + ".md"@;
            let other = project + "/.llm-wiki/skills/"@ + name + "/SKILL.md"@;
            let found = skills::skill_for(PathStyle::Unix, project, value, files);
            &&& skills::skill_at(files, one, name, 0) is Some ==> found == skills::skill_at(
                files,
                one,
                name,
                0,
            )
            &&& skills::skill_at(files, one, name, 0) is None ==> found == skills::skill_at(
                files,
                other,
                name,
                0,
            )
        }),
{
    reveal_strlit("/.llm-wiki/skills/");
    reveal_strlit(".llm-wiki");
    reveal_strlit("skills");
    reveal_strlit(".md");
    reveal_strlit("/SKILL.md");
    reveal_strlit("SKILL.md");
    let style = PathStyle::Unix;
    let a = paths::joined_path(style, project, ".llm-wiki"@);
    assert(a =~= project + "/.llm-wiki"@) by {
        reveal_strlit("/.llm-wiki");
    }
    let root = paths::joined_path(style, a, "skills"@);
    reveal_strlit("/.llm-wiki");
    assert(a.last() == 'i');
    assert(root =~= project + "/.llm-wiki"@ + "/skills"@) by {
        reveal_strlit("/skills");
    }
    reveal_strlit("/skills");
    assert(root.last() == 's');
    assert(paths::joined_path(style, root, name + ".md"@) =~= project + "/.llm-wiki/skills/"@ + name
        + ".md"@);
    let b = paths::joined_path(style, root, name);
    assert(b =~= project + "/.llm-wiki/skills/"@ + name);
    assert(b.last() == name.last());
    assert(paths::joined_path(style, b, "SKILL.md"@) =~= project + "/.llm-wiki/skills/"@ + name
        + "/SKILL.md"@);
}

/// The skills come in the order of the request, and a skill that is not there takes no place.
pub proof fn lemma_skills_in_order(
    style: PathStyle,
    project: Seq<char>,
    requested: Seq<Seq<char>>,
    value: Seq<char>,
    files: Seq<SkillFile>,
)
    ensures
        skills::skills_for(style, project, requested.push(value), files) == skills::skills_for(
            style,
            project,
            requested,
            files,
        ) + (match skills::skill_for(style, project, value, files) {
            Some(skill) => seq![skill],
            None => Seq::empty(),
        }),
        skills::skills_for(style, project, Seq::empty(), files) == Seq::<Skill>::empty(),
        skills::skill_name(value) is None ==> skills::skill_for(style, project, value, files) is None,
{
    assert(requested.push(value).drop_last() =~= requested);
    let before = skills::skills_for(style, project, requested, files);
    assert(before + Seq::<Skill>::empty() =~= before);
    match skills::skill_for(style, project, value, files) {
        Some(skill) => {
            assert(before.push(skill) =~= before + seq![skill]);
        },
        None => {},
    }
}

/// White space around the name of a skill does not count, and a name that leads elsewhere, or that
/// a file may not have everywhere, is not looked for.
pub proof fn lemma_skill_name(a: Seq<char>, name: Seq<char>, b: Seq<char>)
    requires
        text_laws::all_in(a, CharSet::WhiteSpace),
        text_laws::all_in(b, CharSet::WhiteSpace),
        name.len() > 0 ==> !text::white_space(name[0]) && !text::white_space(name.last()),
    ensures
        skills::skill_name(a + name + b) matches Some(found) ==> found == name,
        skills::skill_name(a + name + b) is Some <==> name.len() > 0 && !name.contains('/')
            && !name.contains('\\') && !text::contains_text(name, ".."@) && skills::is_portable(
            name,
        ),
        (exists|i: int|
            0 <= i < name.len() && (#[trigger] name[i] == ':' || name[i] == '*' || name[i] == '?'
                || name[i] == '"' || name[i] == '<' || name[i] == '>' || name[i] == '|'
                || name[i] as int <= 0x1f)) ==> !skills::is_portable(name),
{
    text_laws::lemma_trimmed_around(a, name, b, CharSet::WhiteSpace);
    if exists|i: int|
        0 <= i < name.len() && (#[trigger] name[i] == ':' || name[i] == '*' || name[i] == '?'
            || name[i] == '"' || name[i] == '<' || name[i] == '>' || name[i] == '|' || name[i] as int
            <= 0x1f) {
        let i = choose|i: int|
            0 <= i < name.len() && (#[trigger] name[i] == ':' || name[i] == '*' || name[i] == '?'
                || name[i] == '"' || name[i] == '<' || name[i] == '>' || name[i] == '|'
                || name[i] as int <= 0x1f);
        assert(skills::is_unportable(name[i]));
    }
}

/// The name of a device is no name of a skill, in capitals or not, and with anything behind a dot.
pub proof fn lemma_device_names(device: Seq<char>, rest: Seq<char>)
    requires
        !device.contains('.'),
        device.len() > 0,
        device.last() != ' ',
    ensures
        skills::device_part(device) == skills::upper(device),
        skills::device_part(device + seq!['.'] + rest) == skills::upper(device),
        skills::is_reserved(skills::upper(device)) ==> !skills::is_portable(device)
            && !skills::is_portable(device + seq!['.'] + rest),
        forall|i: int|
            0 <= i < device.len() ==> #[trigger] skills::upper(device)[i] == if 'a' <= device[i]
                <= 'z' {
                (device[i] as int - 32) as char
            } else {
                device[i]
            },
        skills::is_reserved("CON"@) && skills::is_reserved("PRN"@) && skills::is_reserved("AUX"@)
            && skills::is_reserved("NUL"@) && skills::is_reserved("COM1"@) && skills::is_reserved(
            "LPT9"@,
        ),
{
    text::lemma_pieces_single(device, '.');
    text::lemma_pieces_concat(device, rest, '.');
    text::lemma_pieces_not_empty(rest, CharSet::Only('.'));
    assert(text::trimmed_end(device, CharSet::Only(' ')) == device);
}

} // verus!
