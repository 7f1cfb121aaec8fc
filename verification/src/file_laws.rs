//! What holds of the paths, the versions and the names of files, whatever the request.

use crate::files;
use crate::files::EntryKind;
use crate::files::FileError;
use crate::files::FileMetadata;
use crate::files::Lookup;
use crate::files::NameStep;
use crate::path_laws;
use crate::paths;
use crate::text;
use crate::text::CharSet;
use crate::text_laws;
use vstd::prelude::*;

verus! {

// ---------------------------------------------------------------------------------------
// Paths
// ---------------------------------------------------------------------------------------

/// Whether a text neither starts nor ends with white space.
pub open spec fn is_tight(s: Seq<char>) -> bool {
    s.len() > 0 ==> !text::white_space(s[0]) && !text::white_space(s.last())
}

/// The text of a path is that of its first names, a slash, and that of the others.
pub proof fn lemma_joined_parts(a: Seq<Seq<char>>, b: Seq<Seq<char>>)
    requires
        a.len() > 0,
        b.len() > 0,
    ensures
        paths::path_text(a + b) == paths::path_text(a) + seq!['/'] + paths::path_text(b),
    decreases b.len(),
{
    reveal_strlit("/");
    assert("/"@ =~= seq!['/']);
    let rest = b.drop_last();
    let last = b.last();
    assert((a + rest).push(last) =~= a + b);
    assert(rest.push(last) =~= b);
    text_laws::lemma_joined(a + rest, last, "/"@);
    text_laws::lemma_joined(rest, last, "/"@);
    if rest.len() == 0 {
        assert(a + rest =~= a);
        assert(paths::path_text(b) == last);
    } else {
        lemma_joined_parts(a, rest);
        assert(paths::path_text(a) + seq!['/'] + paths::path_text(rest) + seq!['/'] + last
            =~= paths::path_text(a) + seq!['/'] + (paths::path_text(rest) + seq!['/'] + last));
    }
}

/// A path is shown with slashes between its names.
pub proof fn lemma_shown_path(names: Seq<Seq<char>>)
    requires
        forall|i: int| 0 <= i < names.len() ==> !(#[trigger] names[i]).contains('\\'),
    ensures
        paths::shown_path(names) == paths::path_text(names),
{
    reveal_strlit("/");
    files::lemma_joined_without(names, "/"@, '\\');
    files::lemma_with_char_absent(paths::path_text(names), '\\', '/');
}

/// White space around a path does not count.
pub proof fn lemma_white_space_around_path(
    a: Seq<char>,
    path: Seq<char>,
    b: Seq<char>,
    allow_empty: bool,
)
    requires
        text_laws::all_in(a, CharSet::WhiteSpace),
        text_laws::all_in(b, CharSet::WhiteSpace),
        is_tight(path),
    ensures
        files::cleaned(a + path + b, allow_empty) == files::cleaned(path, allow_empty),
{
    text_laws::lemma_trimmed_around(a, path, b, CharSet::WhiteSpace);
    text_laws::lemma_trimmed_around(Seq::empty(), path, Seq::empty(), CharSet::WhiteSpace);
    assert(Seq::<char>::empty() + path + Seq::<char>::empty() =~= path);
}

/// A backslash in a path counts as a slash.
pub proof fn lemma_backslash_counts_as_slash(a: Seq<char>, b: Seq<char>, allow_empty: bool)
    requires
        is_tight(a + seq!['/'] + b),
    ensures
        files::cleaned(a + seq!['\\'] + b, allow_empty) == files::cleaned(
            a + seq!['/'] + b,
            allow_empty,
        ),
{
    let (p, q) = (a + seq!['/'] + b, a + seq!['\\'] + b);
    let none = Seq::<char>::empty();
    text_laws::lemma_white_space('\\');
    assert(text::ascii_punctuation('\\'));
    assert(p[0] == q[0] || q[0] == '\\');
    assert(p.last() == q.last() || q.last() == '\\');
    text_laws::lemma_trimmed_around(none, p, none, CharSet::WhiteSpace);
    text_laws::lemma_trimmed_around(none, q, none, CharSet::WhiteSpace);
    assert(none + p + none =~= p);
    assert(none + q + none =~= q);
    assert(files::normalized(p) =~= files::normalized(q));
}

/// What a path made of the given names is taken as.
proof fn lemma_normalized_names(names: Seq<Seq<char>>)
    requires
        forall|i: int|
            0 <= i < names.len() ==> path_laws::is_name(#[trigger] names[i]) && !names[i].contains(
                '\\',
            ),
        is_tight(paths::path_text(names)),
    ensures
        files::normalized(paths::path_text(names)) == paths::path_text(names),
        paths::names(paths::path_text(names)) == names,
        names.len() > 0 ==> paths::path_text(names).len() > 0 && paths::path_text(names)[0] != '/',
{
    let path = paths::path_text(names);
    let none = Seq::<char>::empty();
    text_laws::lemma_trimmed_around(none, path, none, CharSet::WhiteSpace);
    assert(none + path + none =~= path);
    lemma_shown_path(names);
    path_laws::lemma_path_text(names);
    if names.len() > 0 {
        let (a, b) = (names.take(1), names.skip(1));
        let one = names[0];
        text_laws::lemma_joined(Seq::empty(), one, "/"@);
        assert(Seq::<Seq<char>>::empty().push(one) =~= a);
        assert(path_laws::is_name(one));
        assert(one.contains(one[0]));
        if b.len() > 0 {
            assert(a + b =~= names);
            lemma_joined_parts(a, b);
        } else {
            assert(a =~= names);
        }
    }
}

/// A path of plain names is accepted, and its names are those that it was made of.
pub proof fn lemma_plain_path_is_accepted(names: Seq<Seq<char>>, allow_empty: bool)
    requires
        names.len() > 0,
        forall|i: int| 0 <= i < names.len() ==> files::is_plain_name(#[trigger] names[i]),
        is_tight(paths::path_text(names)),
    ensures
        files::cleaned(paths::path_text(names), allow_empty) == Ok::<Seq<Seq<char>>, FileError>(
            names,
        ),
{
    let path = paths::path_text(names);
    assert forall|i: int| 0 <= i < names.len() implies path_laws::is_name(#[trigger] names[i])
        && !names[i].contains('\\') && !names[i].contains('\0') by {
        assert(files::is_plain_name(names[i]));
    }
    lemma_normalized_names(names);
    reveal_strlit("/");
    files::lemma_joined_without(names, "/"@, '\0');
    if files::has_drive(names) {
        let i = choose|i: int| 0 <= i < names.len() && files::is_drive(#[trigger] names[i]);
        assert(files::is_plain_name(names[i]));
    }
    if names.contains(".."@) {
        let i = choose|i: int| 0 <= i < names.len() && names[i] == ".."@;
        assert(files::is_plain_name(names[i]));
    }
}

/// A path that leads out of the project is refused: one with the name of a parent directory among
/// its names, one that starts with a slash, and one with the name of a drive among its names. So is
/// one that holds a null character.
pub proof fn lemma_path_out_of_the_project(
    before: Seq<Seq<char>>,
    name: Seq<char>,
    after: Seq<Seq<char>>,
    path: Seq<char>,
    allow_empty: bool,
)
    requires
        ({
            let names = before.push(name) + after;
            &&& forall|i: int|
                0 <= i < names.len() ==> path_laws::is_name(#[trigger] names[i])
                    && !names[i].contains('\\')
            &&& is_tight(paths::path_text(names))
        }),
        is_tight(path),
    ensures
        name == ".."@ ==> files::cleaned(
            paths::path_text(before.push(name) + after),
            allow_empty,
        ) is Err,
        name.len() >= 2 && name[1] == ':' && text::ascii_letter(name[0]) ==> files::cleaned(
            paths::path_text(before.push(name) + after),
            allow_empty,
        ) is Err,
        path.len() > 0 && (path[0] == '/' || path[0] == '\\') ==> files::cleaned(path, allow_empty)
            == Err::<Seq<Seq<char>>, FileError>(
            FileError::InvalidInput("Project-relative path must not be absolute"@),
        ) || path.contains('\0'),
        path.contains('\0') ==> files::cleaned(path, allow_empty) == Err::<
            Seq<Seq<char>>,
            FileError,
        >(FileError::InvalidInput("Project-relative path is invalid"@)),
{
    let names = before.push(name) + after;
    lemma_normalized_names(names);
    assert(names[before.len() as int] == name);
    let none = Seq::<char>::empty();
    text_laws::lemma_trimmed_around(none, path, none, CharSet::WhiteSpace);
    assert(none + path + none =~= path);
    let n = files::normalized(path);
    if path.contains('\0') {
        let k = choose|k: int| 0 <= k < path.len() && path[k] == '\0';
        assert(n[k] == '\0');
    }
}

/// A path without names is that of the project itself, where that may be asked for.
pub proof fn lemma_path_of_the_project(white: Seq<char>)
    requires
        text_laws::all_in(white, CharSet::WhiteSpace),
    ensures
        files::cleaned(white, true) == Ok::<Seq<Seq<char>>, FileError>(Seq::empty()),
        files::cleaned(white, false) == Err::<Seq<Seq<char>>, FileError>(
            FileError::InvalidInput("Project-relative path is required"@),
        ),
{
    let none = Seq::<char>::empty();
    text_laws::lemma_trimmed_around(white, none, none, CharSet::WhiteSpace);
    assert(white + none + none =~= white);
    assert(files::normalized(white) =~= none);
    path_laws::lemma_names(none, none);
}

/// Uploads are accepted for the directory of the sources and for every directory in it, and for no
/// other.
pub proof fn lemma_upload_directories(names: Seq<Seq<char>>)
    requires
        names.len() > 0,
        forall|i: int| 0 <= i < names.len() ==> files::is_plain_name(#[trigger] names[i]),
        is_tight(paths::path_text(names)),
    ensures
        names.len() >= 2 && names[0] == "raw"@ && names[1] == "sources"@ ==> files::upload_target(
            Some(paths::path_text(names)),
        ) == Ok::<Seq<Seq<char>>, FileError>(names),
        !(names.len() >= 2 && names[0] == "raw"@ && names[1] == "sources"@)
            ==> files::upload_target(Some(paths::path_text(names))) == Err::<
            Seq<Seq<char>>,
            FileError,
        >(FileError::InvalidInput("Uploads must land under raw/sources"@)),
{
    let path = paths::path_text(names);
    lemma_plain_path_is_accepted(names, false);
    files::lemma_uploads_land_in_sources(Some(path));
    assert forall|i: int| 0 <= i < names.len() implies !(#[trigger] names[i]).contains('\\') by {
        assert(files::is_plain_name(names[i]));
    }
    lemma_shown_path(names);
    if names.len() >= 2 && names[0] == "raw"@ && names[1] == "sources"@ {
        lemma_sources_text(names);
    }
}

/// Where the request does not say, uploads go to the directory of the sources.
pub proof fn lemma_default_upload_directory()
    ensures
        files::upload_target(None) == Ok::<Seq<Seq<char>>, FileError>(
            seq!["raw"@, "sources"@],
        ),
{
    let names = seq!["raw"@, "sources"@];
    reveal_strlit("raw");
    reveal_strlit("sources");
    reveal_strlit(".");
    reveal_strlit("..");
    assert(!"raw"@.contains('/') && !"raw"@.contains('\\') && !"raw"@.contains('\0'));
    assert(!"sources"@.contains('/') && !"sources"@.contains('\\') && !"sources"@.contains('\0'));
    assert("raw"@.len() == 3 && "sources"@.len() == 7);
    assert("raw"@[1] == 'a' && "sources"@[1] == 'o');
    assert(files::is_plain_name("raw"@) && files::is_plain_name("sources"@));
    lemma_sources_text(names);
    reveal_strlit("raw/sources");
    text_laws::lemma_white_space('r');
    text_laws::lemma_white_space('s');
    lemma_upload_directories(names);
}

/// The text of a path that starts with the directory of the sources.
proof fn lemma_sources_text(names: Seq<Seq<char>>)
    requires
        names.len() >= 2,
        names[0] == "raw"@,
        names[1] == "sources"@,
    ensures
        names.len() == 2 ==> paths::path_text(names) == "raw/sources"@,
        names.len() > 2 ==> text::starts_with(paths::path_text(names), "raw/sources/"@),
{
    let (a, b) = (names.take(2), names.skip(2));
    reveal_strlit("/");
    reveal_strlit("raw");
    reveal_strlit("sources");
    reveal_strlit("raw/sources");
    reveal_strlit("raw/sources/");
    text_laws::lemma_joined(Seq::empty(), "raw"@, "/"@);
    text_laws::lemma_joined(Seq::empty().push("raw"@), "sources"@, "/"@);
    assert(a =~= Seq::empty().push("raw"@).push("sources"@));
    assert("raw"@ + "/"@ + "sources"@ =~= "raw/sources"@);
    assert(paths::path_text(a) == "raw/sources"@);
    if b.len() > 0 {
        assert(a + b =~= names);
        lemma_joined_parts(a, b);
        assert("raw/sources"@ + seq!['/'] =~= "raw/sources/"@);
        text_laws::lemma_starts_and_ends("raw/sources/"@, paths::path_text(b));
    } else {
        assert(a =~= names);
    }
}

// ---------------------------------------------------------------------------------------
// Looking for a path
// ---------------------------------------------------------------------------------------

/// What stands at a path is decided by the first of its names that is no directory, or by the last
/// one. What stands under the last name is found, unless it is a symlink.
pub proof fn lemma_path_found(
    path: Seq<Seq<char>>,
    lookups: Seq<Lookup>,
    k: int,
    m: FileMetadata,
    require_exists: bool,
)
    requires
        0 <= k < path.len(),
        k < lookups.len(),
        forall|i: int|
            0 <= i < k ==> ((#[trigger] lookups[i]) matches Lookup::Found(d) && d.kind
                == EntryKind::Directory),
    ensures
        ({
            let found = files::path_found(path, lookups, require_exists);
            &&& lookups[k] == Lookup::Found(m) && m.kind != EntryKind::Symlink && k == path.len() - 1
                ==> found == Ok::<Option<FileMetadata>, FileError>(Some(m))
            &&& lookups[k] == Lookup::Found(m) && m.kind == EntryKind::Symlink ==> found == Err::<
                Option<FileMetadata>,
                FileError,
            >(FileError::InvalidInput("Project content symlinks are not allowed"@))
            &&& lookups[k] == Lookup::Found(m) && k < path.len() - 1 && m.kind
                != EntryKind::Directory ==> found is Err && found->Err_0 is InvalidInput
            &&& lookups[k] is Missing && require_exists ==> found == Err::<
                Option<FileMetadata>,
                FileError,
            >(FileError::NotFound("File path was not found"@))
            &&& lookups[k] is Missing && !require_exists ==> found == Ok::<
                Option<FileMetadata>,
                FileError,
            >(None)
            &&& lookups[k] is Failed ==> found is Err && found->Err_0 is Internal
        }),
{
    lemma_inspected_from(path.len(), lookups, 0, k, require_exists);
}

proof fn lemma_inspected_from(names: nat, lookups: Seq<Lookup>, i: int, k: int, require: bool)
    requires
        0 <= i <= k < names,
        k < lookups.len(),
        forall|i: int|
            0 <= i < k ==> ((#[trigger] lookups[i]) matches Lookup::Found(d) && d.kind
                == EntryKind::Directory),
    ensures
        files::inspected(names, lookups, i, require) == files::inspected(
            names,
            lookups,
            k,
            require,
        ),
    decreases k - i,
{
    if i < k {
        assert(lookups[i] is Found);
        lemma_inspected_from(names, lookups, i + 1, k, require);
    }
}

// ---------------------------------------------------------------------------------------
// Versions
// ---------------------------------------------------------------------------------------

/// Two files have one version only where they were changed last at the same time and have as many
/// bytes. So a file that was changed at another time, or to another size, has another version.
pub proof fn lemma_versions_differ(a: FileMetadata, b: FileMetadata)
    requires
        a.kind != EntryKind::Directory,
        b.kind != EntryKind::Directory,
    ensures
        files::version(a) == files::version(b) <==> a.modified_at_ms == b.modified_at_ms && a.size
            == b.size,
{
    let (x, y) = (text::decimal(a.modified_at_ms as nat), text::decimal(b.modified_at_ms as nat));
    let (p, q) = (text::decimal(a.size as nat), text::decimal(b.size as nat));
    reveal_strlit(":");
    text::lemma_decimal(a.modified_at_ms as nat);
    text::lemma_decimal(b.modified_at_ms as nat);
    text_laws::lemma_decimal_value(a.modified_at_ms as nat);
    text_laws::lemma_decimal_value(b.modified_at_ms as nat);
    text_laws::lemma_decimal_value(a.size as nat);
    text_laws::lemma_decimal_value(b.size as nat);
    let (v, w) = (files::version(a), files::version(b));
    if v == w {
        assert(v[x.len() as int] == ':' && w[y.len() as int] == ':');
        if x.len() < y.len() {
            assert(w[x.len() as int] == y[x.len() as int]);
        }
        if y.len() < x.len() {
            assert(v[y.len() as int] == x[y.len() as int]);
        }
        assert(v.subrange(0, x.len() as int) =~= x);
        assert(w.subrange(0, y.len() as int) =~= y);
        assert(v.subrange(x.len() as int + 1, v.len() as int) =~= p);
        assert(w.subrange(y.len() as int + 1, w.len() as int) =~= q);
    }
}

/// A version has white space neither before it nor behind it.
proof fn lemma_version_is_tight(m: FileMetadata)
    ensures
        files::version(m).len() > 0,
        is_tight(files::version(m)),
{
    let x = text::decimal(m.modified_at_ms as nat);
    let size = if m.kind == EntryKind::Directory {
        0
    } else {
        m.size as nat
    };
    let p = text::decimal(size);
    reveal_strlit(":");
    text::lemma_decimal(m.modified_at_ms as nat);
    text::lemma_decimal(size);
    assert(files::version(m)[0] == x[0]);
    assert(files::version(m).last() == p.last());
    assert(text::ascii_letter_or_digit(x[0]) && text::ascii_letter_or_digit(p.last()));
    text_laws::lemma_white_space(x[0]);
    text_laws::lemma_white_space(p.last());
}

/// What is answered about a file: its path, its size and its version, and for a directory neither
/// a size nor the type of its contents.
pub proof fn lemma_file_facts(path: Seq<Seq<char>>, m: FileMetadata)
    requires
        forall|i: int| 0 <= i < path.len() ==> !(#[trigger] path[i]).contains('\\'),
    ensures
        ({
            let facts = files::file_facts(path, m);
            &&& facts.path == paths::path_text(path)
            &&& facts.is_dir <==> m.kind == EntryKind::Directory
            &&& facts.size == if facts.is_dir {
                None
            } else {
                Some(m.size)
            }
            &&& facts.mime_type is None <==> facts.is_dir
            &&& facts.modified_at_ms == m.modified_at_ms
            &&& facts.version == files::version(m)
        }),
{
    lemma_shown_path(path);
}

/// A file that is there is written over by a request that names its version, with or without white
/// space around it, and by no other. A request that names none is told to, and one that names
/// another is told that the file has changed.
pub proof fn lemma_writing_over(m: FileMetadata, a: Seq<char>, v: Seq<char>, b: Seq<char>)
    requires
        m.kind != EntryKind::Directory,
        text_laws::all_in(a, CharSet::WhiteSpace),
        text_laws::all_in(b, CharSet::WhiteSpace),
        is_tight(v),
    ensures
        v == files::version(m) ==> files::write_error(Some(m), Some(a + v + b)) is None,
        v.len() > 0 && v != files::version(m) ==> files::write_error(Some(m), Some(a + v + b))
            == Some(FileError::PreconditionFailed("File changed since it was read"@)),
        v.len() == 0 ==> (files::write_error(Some(m), Some(a + v + b)) matches Some(e)
            && e is PreconditionRequired),
        files::write_error(Some(m), None) matches Some(e) && e is PreconditionRequired,
{
    lemma_version_is_tight(m);
    text_laws::lemma_trimmed_around(a, v, b, CharSet::WhiteSpace);
}

/// A file that is not there is written by a request that names no version, and a request that names
/// one is refused. A directory is never written over.
pub proof fn lemma_writing_anew(m: FileMetadata, expected: Option<Seq<char>>)
    ensures
        m.kind == EntryKind::Directory ==> (files::write_error(Some(m), expected) matches Some(e)
            && e is InvalidInput),
        files::write_error(None, expected) is None <==> expected is None || text_laws::all_in(
            expected->0,
            CharSet::WhiteSpace,
        ),
        files::write_error(None, expected) matches Some(e) ==> e is PreconditionFailed,
{
    if let Some(v) = expected {
        lemma_blank(v);
    }
}

/// A text is blank where nothing is left of it without the white space around it.
proof fn lemma_blank(v: Seq<char>)
    ensures
        text::trimmed(v).len() == 0 <==> text_laws::all_in(v, CharSet::WhiteSpace),
{
    let set = CharSet::WhiteSpace;
    let none = Seq::<char>::empty();
    if text_laws::all_in(v, set) {
        text_laws::lemma_trimmed_around(v, none, none, set);
        assert(v + none + none =~= v);
    }
    text_laws::lemma_trimmed_parts(v, set);
    if text::trimmed(v).len() == 0 {
        let (a, b) = choose|a: Seq<char>, b: Seq<char>|
            #![trigger text_laws::all_in(a, set), text_laws::all_in(b, set)]
            text_laws::all_in(a, set) && text_laws::all_in(b, set) && v == a + text::trimmed_of(
                v,
                set,
            ) + b;
        assert forall|k: int| 0 <= k < v.len() implies set.holds(#[trigger] v[k]) by {
            if k < a.len() {
                assert(v[k] == a[k]);
            } else {
                assert(v[k] == b[k - a.len()]);
            }
        }
    }
}

/// A file is deleted by a request that names its version or none, and a request that names another
/// is told that the file has changed. A directory with a symlink in it is never deleted, and the
/// request is told which one.
pub proof fn lemma_deleting(
    m: FileMetadata,
    link: Seq<char>,
    a: Seq<char>,
    v: Seq<char>,
    b: Seq<char>,
    expected: Option<Seq<char>>,
)
    requires
        text_laws::all_in(a, CharSet::WhiteSpace),
        text_laws::all_in(b, CharSet::WhiteSpace),
        is_tight(v),
    ensures
        files::delete_error(m, None, None) is None,
        v.len() == 0 || v == files::version(m) ==> files::delete_error(m, None, Some(a + v + b)) is None,
        v.len() > 0 && v != files::version(m) ==> files::delete_error(m, None, Some(a + v + b))
            == Some(FileError::PreconditionFailed("File changed since it was read"@)),
        files::delete_error(m, Some(link), expected) == Some(
            FileError::InvalidInput("Project content symlinks are not allowed: "@ + link),
        ),
{
    lemma_version_is_tight(m);
    text_laws::lemma_trimmed_around(a, v, b, CharSet::WhiteSpace);
}

/// The trash of a project and what stands in it is refused, and every other plain path is accepted.
pub proof fn lemma_deletable(names: Seq<Seq<char>>)
    requires
        names.len() > 0,
        forall|i: int| 0 <= i < names.len() ==> files::is_plain_name(#[trigger] names[i]),
        is_tight(paths::path_text(names)),
    ensures
        names.len() >= 2 && names[0] == ".llm-wiki"@ && names[1] == "trash"@
            ==> files::delete_target(paths::path_text(names)) is Err,
        !(names.len() >= 2 && names[0] == ".llm-wiki"@ && names[1] == "trash"@)
            ==> files::delete_target(paths::path_text(names)) == Ok::<Seq<Seq<char>>, FileError>(
            names,
        ),
{
    let path = paths::path_text(names);
    lemma_plain_path_is_accepted(names, false);
    assert forall|i: int| 0 <= i < names.len() implies !(#[trigger] names[i]).contains('\\')
        && path_laws::is_name(names[i]) by {
        assert(files::is_plain_name(names[i]));
    }
    lemma_shown_path(names);
    path_laws::lemma_path_text(names);
    let (r, s, t) = (".llm-wiki"@, "trash"@, ".llm-wiki/trash"@);
    reveal_strlit("/");
    reveal_strlit(".");
    reveal_strlit(".llm-wiki");
    reveal_strlit("trash");
    reveal_strlit(".llm-wiki/trash");
    reveal_strlit(".llm-wiki/trash/");
    assert(r + seq!['/'] + s =~= t);
    assert(t + seq!['/'] =~= ".llm-wiki/trash/"@);
    path_laws::lemma_names(r, s);
    path_laws::lemma_names(s, s);
    assert(!r.contains('/') && !s.contains('/'));
    assert(r.len() == 9 && s.len() == 5);
    assert(path_laws::is_name(r) && path_laws::is_name(s));
    assert(paths::names(t) =~= seq![r, s]);
    if names.len() >= 2 && names[0] == r && names[1] == s {
        let (a, b) = (names.take(2), names.skip(2));
        text_laws::lemma_joined(Seq::empty(), r, "/"@);
        text_laws::lemma_joined(Seq::empty().push(r), s, "/"@);
        assert(a =~= Seq::empty().push(r).push(s));
        assert(paths::path_text(a) =~= t);
        if b.len() > 0 {
            assert(a + b =~= names);
            lemma_joined_parts(a, b);
            text_laws::lemma_starts_and_ends(".llm-wiki/trash/"@, paths::path_text(b));
        } else {
            assert(a =~= names);
        }
    } else if path == t {
        assert(names == seq![r, s]);
    } else if text::starts_with(path, ".llm-wiki/trash/"@) {
        let rest = path.subrange(16, path.len() as int);
        assert(path =~= t + seq!['/'] + rest);
        path_laws::lemma_names(t, rest);
        assert(names[0] == r && names[1] == s);
    }
}

// ---------------------------------------------------------------------------------------
// Names
// ---------------------------------------------------------------------------------------

/// A file is written first beside its place, under a hidden name that holds its own and ends with
/// `.tmp`, and that differs with the time.
pub proof fn lemma_temporary(directory: Seq<Seq<char>>, name: Seq<char>, now: u64, later: u64)
    ensures
        files::temporary(directory.push(name), now) == directory.push(
            "."@ + name + "."@ + text::decimal(now as nat) + ".tmp"@,
        ),
        files::temporary(directory.push(name), now) != directory.push(name),
        now != later ==> files::temporary(directory.push(name), now) != files::temporary(
            directory.push(name),
            later,
        ),
{
    assert(directory.push(name).drop_last() =~= directory);
    assert(directory.push(name).last() == name);
    reveal_strlit(".");
    reveal_strlit(".tmp");
    let (x, y) = (text::decimal(now as nat), text::decimal(later as nat));
    let (p, q) = ("."@ + name + "."@ + x + ".tmp"@, "."@ + name + "."@ + y + ".tmp"@);
    assert(p.len() > name.len());
    assert(files::temporary(directory.push(name), now).last() == p);
    assert(files::temporary(directory.push(name), later).last() == q);
    text_laws::lemma_decimal_value(now as nat);
    text_laws::lemma_decimal_value(later as nat);
    if p == q {
        assert(p.subrange(name.len() as int + 2, p.len() - 4) =~= x);
        assert(q.subrange(name.len() as int + 2, q.len() - 4) =~= y);
    }
}

/// No two tries name the same place in the trash.
pub proof fn lemma_trash_places_differ(path: Seq<Seq<char>>, stamp: u64, i: nat, j: nat)
    requires
        i != j,
    ensures
        files::trash_place(path, stamp, i) != files::trash_place(path, stamp, j),
{
    reveal_strlit("-");
    let d = text::decimal(stamp as nat);
    let (x, y) = (files::trash_place(path, stamp, i)[2], files::trash_place(path, stamp, j)[2]);
    text_laws::lemma_decimal_value(i);
    text_laws::lemma_decimal_value(j);
    if x == y {
        assert(i > 0 ==> x.subrange(d.len() as int + 1, x.len() as int) =~= text::decimal(i));
        assert(j > 0 ==> y.subrange(d.len() as int + 1, y.len() as int) =~= text::decimal(j));
        assert(x.len() == d.len() <==> i == 0);
    }
}

/// A name that is free is taken, and one that is not is followed by the next, until ten thousand
/// have been tried.
pub proof fn lemma_next_name(index: usize)
    ensures
        files::next_name(index, false) == NameStep::Take(index),
        index < 9_999 ==> files::next_name(index, true) == NameStep::Try((index + 1) as usize),
        index >= 9_999 ==> files::next_name(index, true) == NameStep::GiveUp,
{
}

/// An uploaded file is first given its own name, and at a later try the number of the try behind
/// its stem.
pub proof fn lemma_upload_name(stem: Seq<char>, extension: Seq<char>, index: nat)
    requires
        !extension.contains('.'),
        index > 0,
    ensures
        files::upload_name(stem, 0) == stem,
        stem.len() > 0 && extension.len() > 0 ==> files::upload_name(
            stem + seq!['.'] + extension,
            index,
        ) == stem + seq!['-'] + text::decimal(index) + seq!['.'] + extension,
        files::upload_name(extension, index) == extension + seq!['-'] + text::decimal(index),
{
    path_laws::lemma_stem(stem, extension);
    reveal_strlit("-");
    reveal_strlit(".");
    assert("-"@ =~= seq!['-']);
    assert("."@ =~= seq!['.']);
}

/// An uploaded file is accepted where its name is a single name, its contents can be read and it has
/// at most 1 GB, and it keeps its name and its bytes. What is wrong first is what the request is
/// told.
pub proof fn lemma_upload(a: Seq<char>, name: Seq<char>, b: Seq<char>, bytes: Seq<u8>)
    requires
        text_laws::all_in(a, CharSet::WhiteSpace),
        text_laws::all_in(b, CharSet::WhiteSpace),
        is_tight(name),
    ensures
        files::is_single_name(name) && bytes.len() <= 1_073_741_824 ==> (files::upload_of(
            a + name + b,
            Some(bytes),
        ) matches Ok(upload) && upload.file_name == name && upload.bytes == bytes && upload.sha256
            == files::digest_text(bytes)),
        files::is_single_name(name) && bytes.len() > 1_073_741_824 ==> (files::upload_of(
            a + name + b,
            Some(bytes),
        ) matches Err(e) && e is PayloadTooLarge),
        files::is_single_name(name) ==> (files::upload_of(a + name + b, None) matches Err(e)
            && e is InvalidInput),
        !files::is_single_name(name) ==> files::upload_of(a + name + b, Some(bytes)) is Err
            && files::upload_of(a + name + b, None) is Err,
        name.len() == 0 || name == "."@ || name == ".."@ || name.contains('/') || name.contains('\\')
            || name.contains('\0') <==> !files::is_single_name(name),
{
    text_laws::lemma_trimmed_around(a, name, b, CharSet::WhiteSpace);
}

/// What is answered about an uploaded file says where it is, what it is called there, and whether it
/// was there already.
pub proof fn lemma_upload_answer(
    upload: files::UploadFacts,
    directory: Seq<Seq<char>>,
    name: Seq<char>,
    m: FileMetadata,
    skipped: bool,
)
    requires
        !name.contains('\\'),
        forall|i: int| 0 <= i < directory.len() ==> !(#[trigger] directory[i]).contains('\\'),
    ensures
        ({
            let answer = files::upload_answer(upload, directory.push(name), m, skipped);
            &&& directory.len() > 0 ==> answer.path == paths::path_text(directory) + seq!['/'] + name
            &&& answer.file_name == upload.file_name
            &&& answer.sha256 == upload.sha256
            &&& answer.size == m.size
            &&& answer.skipped == skipped
            &&& answer.reason == if skipped {
                Some("same_hash"@)
            } else {
                None
            }
        }),
{
    let path = directory.push(name);
    assert forall|i: int| 0 <= i < path.len() implies !(#[trigger] path[i]).contains('\\') by {
        if i < directory.len() {
            assert(path[i] == directory[i]);
        }
    }
    lemma_shown_path(path);
    text_laws::lemma_joined(directory, name, "/"@);
    reveal_strlit("/");
    assert("/"@ =~= seq!['/']);
}

} // verus!
