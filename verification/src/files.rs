//! The files of a project: which paths are accepted, what is answered about a file, and what is
//! done step by step to read, write, upload and delete one.

use crate::order;
use crate::order::{Ordered, Ranked};
use crate::outside;
use crate::paths;
use crate::paths::{PathStyle, RelativePath};
use crate::text;
use crate::text::CharSet;
use vstd::prelude::*;

verus! {

// ---------------------------------------------------------------------------------------
// Errors
// ---------------------------------------------------------------------------------------

/// Why a request for the files of a project is refused.
#[derive(Debug)]
pub enum FileServiceError {
    /// The server is not set up.
    SetupRequired,
    /// There is no such project.
    ProjectNotFound,
    /// The request is not acceptable.
    InvalidInput(String),
    /// There is no such file.
    NotFound(String),
    /// The request does not go with the files that are there.
    Conflict(String),
    /// The request must say which version it is about.
    PreconditionRequired(String),
    /// The request is about another version.
    PreconditionFailed(String),
    /// The request is too large.
    PayloadTooLarge(String),
    /// Something failed that the request does not answer for.
    Internal(String),
}

/// What an error stands for.
pub enum FileError {
    SetupRequired,
    ProjectNotFound,
    InvalidInput(Seq<char>),
    NotFound(Seq<char>),
    Conflict(Seq<char>),
    PreconditionRequired(Seq<char>),
    PreconditionFailed(Seq<char>),
    PayloadTooLarge(Seq<char>),
    Internal(Seq<char>),
}

impl View for FileServiceError {
    type V = FileError;

    open spec fn view(&self) -> FileError {
        match self {
            FileServiceError::SetupRequired => FileError::SetupRequired,
            FileServiceError::ProjectNotFound => FileError::ProjectNotFound,
            FileServiceError::InvalidInput(m) => FileError::InvalidInput(m@),
            FileServiceError::NotFound(m) => FileError::NotFound(m@),
            FileServiceError::Conflict(m) => FileError::Conflict(m@),
            FileServiceError::PreconditionRequired(m) => FileError::PreconditionRequired(m@),
            FileServiceError::PreconditionFailed(m) => FileError::PreconditionFailed(m@),
            FileServiceError::PayloadTooLarge(m) => FileError::PayloadTooLarge(m@),
            FileServiceError::Internal(m) => FileError::Internal(m@),
        }
    }
}

impl FileServiceError {
    /// The error of a request that is not acceptable.
    pub fn invalid_input(message: &str) -> (r: FileServiceError)
        ensures
            r@ == FileError::InvalidInput(message@),
    {
        FileServiceError::InvalidInput(message.to_string())
    }

    /// The error of a request for a file that is not there.
    pub fn not_found(message: &str) -> (r: FileServiceError)
        ensures
            r@ == FileError::NotFound(message@),
    {
        FileServiceError::NotFound(message.to_string())
    }

    /// The error of a request that does not go with the files that are there.
    pub fn conflict(message: &str) -> (r: FileServiceError)
        ensures
            r@ == FileError::Conflict(message@),
    {
        FileServiceError::Conflict(message.to_string())
    }

    /// The error of a request that does not say which version it is about.
    pub fn precondition_required(message: &str) -> (r: FileServiceError)
        ensures
            r@ == FileError::PreconditionRequired(message@),
    {
        FileServiceError::PreconditionRequired(message.to_string())
    }

    /// The error of a request that is about another version.
    pub fn precondition_failed(message: &str) -> (r: FileServiceError)
        ensures
            r@ == FileError::PreconditionFailed(message@),
    {
        FileServiceError::PreconditionFailed(message.to_string())
    }
}

// ---------------------------------------------------------------------------------------
// What stands at a path
// ---------------------------------------------------------------------------------------

/// What stands at a path in the file system.
#[derive(Debug, Clone, Copy, PartialEq, Eq, Structural)]
pub enum EntryKind {
    Symlink,
    Directory,
    File,
    Other,
}

/// What is known of a file or a directory.
#[derive(Debug, Clone, Copy)]
pub struct FileMetadata {
    /// What it is.
    pub kind: EntryKind,
    /// How many bytes it has.
    pub size: u64,
    /// When it was changed last, in milliseconds.
    pub modified_at_ms: u64,
}

/// The version of a file: when it was changed last and how many bytes it has. A directory counts
/// as having none.
pub open spec fn version(m: FileMetadata) -> Seq<char> {
    text::decimal(m.modified_at_ms as nat) + ":"@ + text::decimal(
        if m.kind == EntryKind::Directory {
            0
        } else {
            m.size as nat
        },
    )
}

/// How many bytes a file has. A directory has no such number.
pub open spec fn shown_size(m: FileMetadata) -> Option<u64> {
    if m.kind == EntryKind::Directory {
        None
    } else {
        Some(m.size)
    }
}

/// Whether a file or a directory is a directory.
pub fn is_directory(kind: EntryKind) -> (r: bool)
    ensures
        r == (kind == EntryKind::Directory),
{
    match kind {
        EntryKind::Directory => true,
        _ => false,
    }
}

/// The version of a file.
pub fn metadata_version(m: &FileMetadata) -> (r: String)
    ensures
        r@ == version(*m),
{
    let mut out = text::decimal_text(m.modified_at_ms);
    out.append(":");
    let size: u64 = if is_directory(m.kind) {
        0
    } else {
        m.size
    };
    out.append(text::decimal_text(size).as_str());
    out
}

/// How many bytes a file has. A directory has no such number.
pub fn size_of(m: &FileMetadata) -> (r: Option<u64>)
    ensures
        r == shown_size(*m),
{
    if is_directory(m.kind) {
        None
    } else {
        Some(m.size)
    }
}

// ---------------------------------------------------------------------------------------
// Paths
// ---------------------------------------------------------------------------------------

/// A path as it was asked for, without white space around it and with slashes for backslashes.
pub open spec fn normalized(raw: Seq<char>) -> Seq<char> {
    text::with_char(text::trimmed(raw), '\\', '/')
}

/// Whether a name starts with a letter and a colon, as a drive is named.
pub open spec fn is_drive(name: Seq<char>) -> bool {
    name.len() >= 2 && text::ascii_letter(name[0]) && name[1] == ':'
}

/// Whether one of the names is that of a drive.
pub open spec fn has_drive(names: Seq<Seq<char>>) -> bool {
    exists|i: int| 0 <= i < names.len() && is_drive(#[trigger] names[i])
}

/// The names in the path that is asked for, or why it is refused.
///
/// A path that holds a null character is refused, and so are a path that starts with a slash or
/// has the name of a drive in it, and a path with the name of a parent directory in it. A path
/// without names is refused unless `allow_empty` holds.
pub open spec fn cleaned(raw: Seq<char>, allow_empty: bool) -> Result<Seq<Seq<char>>, FileError> {
    let path = normalized(raw);
    let names = paths::names(path);
    if path.contains('\0') {
        Err(FileError::InvalidInput("Project-relative path is invalid"@))
    } else if path.len() > 0 && path[0] == '/' {
        Err(FileError::InvalidInput("Project-relative path must not be absolute"@))
    } else if has_drive(names) {
        Err(FileError::InvalidInput("Project-relative path must not be absolute"@))
    } else if names.contains(".."@) {
        Err(FileError::InvalidInput("Project-relative path must not contain parent traversal"@))
    } else if names.len() == 0 && !allow_empty {
        Err(FileError::InvalidInput("Project-relative path is required"@))
    } else {
        Ok(names)
    }
}

/// Whether a name stays in the directory that it is looked for in: it is not empty, names neither
/// that directory nor its parent nor a drive, and holds no slash, backslash or null character.
pub open spec fn is_plain_name(name: Seq<char>) -> bool {
    &&& name.len() > 0
    &&& name != "."@
    &&& name != ".."@
    &&& !is_drive(name)
    &&& !name.contains('/')
    &&& !name.contains('\\')
    &&& !name.contains('\0')
}

/// What a result of cleaning a path stands for.
pub open spec fn path_result(r: Result<RelativePath, FileServiceError>) -> Result<
    Seq<Seq<char>>,
    FileError,
> {
    match r {
        Ok(path) => Ok(path@),
        Err(e) => Err(e@),
    }
}

/// Whether a name starts with a letter and a colon, as a drive is named.
fn names_drive(name: &Vec<char>) -> (r: bool)
    ensures
        r == is_drive(name@),
{
    name.len() >= 2 && text::is_ascii_letter(name[0]) && name[1] == ':'
}

/// The names in the path that is asked for, or why it is refused.
pub fn clean_relative_path(raw: &str, allow_empty: bool) -> (r: Result<
    RelativePath,
    FileServiceError,
>)
    ensures
        path_result(r) == cleaned(raw@, allow_empty),
{
    let chars = text::to_chars(raw);
    let path = text::replace_char(text::trim(chars.as_slice()), '\\', '/');
    if text::has_char(path.as_slice(), '\0') {
        return Err(FileServiceError::invalid_input("Project-relative path is invalid"));
    }
    if path.len() > 0 && path[0] == '/' {
        return Err(FileServiceError::invalid_input("Project-relative path must not be absolute"));
    }
    let parts = paths::split_path(path.as_slice());
    let ghost all = text::texts(parts@);
    let mut i: usize = 0;
    while i < parts.len()
        invariant
            i <= parts@.len(),
            all == text::texts(parts@),
            all == paths::names(path@),
            path@ == normalized(raw@),
            !path@.contains('\0'),
            !(path@.len() > 0 && path@[0] == '/'),
            forall|k: int| 0 <= k < i ==> !is_drive(#[trigger] all[k]),
        decreases parts@.len() - i,
    {
        assert(all[i as int] == parts@[i as int]@);
        if names_drive(&parts[i]) {
            return Err(
                FileServiceError::invalid_input("Project-relative path must not be absolute"),
            );
        }
        i += 1;
    }
    let mut out = RelativePath::new();
    i = 0;
    assert(out@ =~= all.take(0));
    while i < parts.len()
        invariant
            i <= parts@.len(),
            all == text::texts(parts@),
            all == paths::names(path@),
            path@ == normalized(raw@),
            !path@.contains('\0'),
            !(path@.len() > 0 && path@[0] == '/'),
            !has_drive(all),
            out@ == all.take(i as int),
            forall|k: int| 0 <= k < i ==> #[trigger] all[k] != ".."@,
        decreases parts@.len() - i,
    {
        assert(all[i as int] == parts@[i as int]@);
        if text::is_text(parts[i].as_slice(), "..") {
            assert(all.contains(".."@));
            return Err(
                FileServiceError::invalid_input(
                    "Project-relative path must not contain parent traversal",
                ),
            );
        }
        out.push(text::to_text(parts[i].as_slice()));
        assert(all.take(i + 1) =~= all.take(i as int).push(all[i as int]));
        i += 1;
    }
    assert(all.take(all.len() as int) =~= all);
    assert(!all.contains(".."@));
    if parts.len() == 0 && !allow_empty {
        assert(all.len() == 0);
        return Err(FileServiceError::invalid_input("Project-relative path is required"));
    }
    assert(all.len() == parts@.len());
    Ok(out)
}

/// A path that is accepted stays inside the directory that it is relative to: each of its names
/// does.
pub proof fn lemma_clean_paths_stay_inside(raw: Seq<char>, allow_empty: bool)
    ensures
        cleaned(raw, allow_empty) matches Ok(names) ==> forall|i: int|
            0 <= i < names.len() ==> is_plain_name(#[trigger] names[i]),
{
    if let Ok(names) = cleaned(raw, allow_empty) {
        let path = normalized(raw);
        let set = CharSet::Only('/');
        let pieces = text::pieces(path, set);
        let keep = |p: Seq<char>| paths::counts(p);
        text::lemma_pieces_hold_no_separator(path, set);
        assert forall|i: int| 0 <= i < names.len() implies is_plain_name(#[trigger] names[i]) by {
            let name = names[i];
            assert(pieces.filter(keep).contains(name));
            pieces.lemma_filter_contains_rev(keep, name);
            pieces.lemma_filter_pred(keep, i);
            let k = choose|k: int| 0 <= k < pieces.len() && pieces[k] == name;
            assert(!is_drive(name));
            assert(name != ".."@) by {
                assert(!names.contains(".."@));
            }
            assert forall|j: int| 0 <= j < name.len() implies name[j] != '/' && name[j] != '\\'
                && name[j] != '\0' by {
                assert(!set.holds(pieces[k][j]));
                assert(path.contains(pieces[k][j]));
                let at = choose|at: int| 0 <= at < path.len() && path[at] == name[j];
                assert(path[at] != '\\');
            }
        }
    }
}

/// The directory that uploads go to where the request does not say.
pub open spec fn default_upload_dir() -> Seq<char> {
    "raw/sources"@
}

/// The directory that uploads go to, or why it is refused: it must be the directory for sources
/// or stand in it.
pub open spec fn upload_target(directory: Option<Seq<char>>) -> Result<Seq<Seq<char>>, FileError> {
    let raw = match directory {
        Some(d) => d,
        None => default_upload_dir(),
    };
    match cleaned(raw, false) {
        Err(e) => Err(e),
        Ok(names) => {
            let path = paths::shown_path(names);
            if path == default_upload_dir() || text::starts_with(path, "raw/sources/"@) {
                Ok(names)
            } else {
                Err(FileError::InvalidInput("Uploads must land under raw/sources"@))
            }
        },
    }
}

/// The directory that uploads go to, or why it is refused.
pub fn upload_directory(directory: Option<&str>) -> (r: Result<RelativePath, FileServiceError>)
    ensures
        path_result(r) == upload_target(text::optional_str(directory)),
{
    let raw = match directory {
        Some(d) => d,
        None => "raw/sources",
    };
    let path = match clean_relative_path(raw, false) {
        Ok(path) => path,
        Err(e) => {
            return Err(e);
        },
    };
    let shown = path.browser_relative_path();
    let chars = text::to_chars(shown.as_str());
    if text::is_text(chars.as_slice(), "raw/sources") || text::has_prefix(
        chars.as_slice(),
        text::to_chars("raw/sources/").as_slice(),
    ) {
        Ok(path)
    } else {
        Err(FileServiceError::invalid_input("Uploads must land under raw/sources"))
    }
}

/// Replacing a character that is not there changes nothing.
pub proof fn lemma_with_char_absent(s: Seq<char>, from: char, to: char)
    requires
        !s.contains(from),
    ensures
        text::with_char(s, from, to) == s,
{
    assert forall|i: int| 0 <= i < s.len() implies text::with_char(s, from, to)[i] == s[i] by {
        assert(s.contains(s[i]));
    }
    assert(text::with_char(s, from, to) =~= s);
}

/// A character of a joined text other than that between the parts is one of a part.
pub proof fn lemma_joined_without(parts: Seq<Seq<char>>, between: Seq<char>, c: char)
    requires
        !between.contains(c),
        forall|i: int| 0 <= i < parts.len() ==> !(#[trigger] parts[i]).contains(c),
    ensures
        !text::joined(parts, between).contains(c),
    decreases parts.len(),
{
    if parts.len() > 1 {
        let rest = parts.drop_last();
        assert forall|i: int| 0 <= i < rest.len() implies !(#[trigger] rest[i]).contains(c) by {
            assert(rest[i] == parts[i]);
        }
        lemma_joined_without(rest, between, c);
        let (a, b) = (text::joined(rest, between), parts.last());
        let whole = a + between + b;
        assert(parts.last() == parts[parts.len() - 1]);
        assert forall|k: int| 0 <= k < whole.len() implies whole[k] != c by {
            if k < a.len() {
                assert(a.contains(a[k]));
            } else if k < a.len() + between.len() {
                assert(between.contains(between[k - a.len()]));
            } else {
                assert(b.contains(b[k - a.len() - between.len()]));
            }
        }
    } else if parts.len() == 1 {
        assert(text::joined(parts, between) == parts[0]);
    }
}

/// Uploads land in the directory for sources: the first two names of the directory that they go
/// to are `raw` and `sources`.
pub proof fn lemma_uploads_land_in_sources(directory: Option<Seq<char>>)
    ensures
        upload_target(directory) matches Ok(names) ==> names.len() >= 2 && names[0] == "raw"@
            && names[1] == "sources"@,
{
    if let Ok(names) = upload_target(directory) {
        let raw = match directory {
            Some(d) => d,
            None => default_upload_dir(),
        };
        lemma_clean_paths_stay_inside(raw, false);
        reveal_strlit("/");
        reveal_strlit("raw/sources");
        reveal_strlit("raw/sources/");
        reveal_strlit("raw");
        reveal_strlit("sources");
        assert("/"@ =~= seq!['/']);
        let plain = paths::path_text(names);
        assert forall|i: int| 0 <= i < names.len() implies !(#[trigger] names[i]).contains('\\')
            && !names[i].contains('/') by {
            assert(is_plain_name(names[i]));
        }
        lemma_joined_without(names, "/"@, '\\');
        lemma_with_char_absent(plain, '\\', '/');
        text::lemma_joined_pieces(names, '/');
        let (r, s) = ("raw"@, "sources"@);
        text::lemma_pieces_single(r, '/');
        text::lemma_pieces_single(s, '/');
        text::lemma_pieces_concat(r, s, '/');
        assert(default_upload_dir() =~= r + seq!['/'] + s);
        if plain == default_upload_dir() {
            assert(names =~= seq![r, s]);
        } else {
            let rest = plain.subrange(12, plain.len() as int);
            assert(plain.subrange(0, 12) == "raw/sources/"@);
            assert(plain =~= plain.subrange(0, 12) + rest);
            assert("raw/sources/"@ =~= default_upload_dir() + seq!['/']);
            assert(plain =~= default_upload_dir() + seq!['/'] + rest);
            text::lemma_pieces_concat(default_upload_dir(), rest, '/');
            assert(names =~= seq![r, s] + text::pieces(rest, CharSet::Only('/')));
        }
    }
}

// ---------------------------------------------------------------------------------------
// Looking for a path
// ---------------------------------------------------------------------------------------

/// What looking for a name in a directory comes to.
pub enum Lookup {
    /// Something stands there.
    Found(FileMetadata),
    /// Nothing stands there.
    Missing,
    /// It cannot be said, for the given reason.
    Failed(String),
}

/// Whether the next name of a path is looked for after one was: only in a directory.
pub open spec fn goes_on(lookup: Lookup) -> bool {
    lookup matches Lookup::Found(m) && m.kind == EntryKind::Directory
}

/// Whether the next name of a path is looked for after one was.
pub fn look_on(lookup: &Lookup) -> (r: bool)
    ensures
        r == goes_on(*lookup),
{
    match lookup {
        Lookup::Found(m) => is_directory(m.kind),
        _ => false,
    }
}

/// What the names of a path from `i` on come to, where `lookups` holds what looking for the names
/// one after the other came to.
///
/// A symlink is refused, and so is a name before the last that is no directory. A name that is
/// not there is refused where the path must be there.
pub open spec fn inspected(
    names: nat,
    lookups: Seq<Lookup>,
    i: int,
    require_exists: bool,
) -> Result<Option<FileMetadata>, FileError>
    decreases names - i,
{
    if i < 0 || i >= names || i >= lookups.len() {
        Err(FileError::Internal("a name of the path was not looked for"@))
    } else {
        match lookups[i] {
            Lookup::Failed(reason) => Err(FileError::Internal(reason@)),
            Lookup::Missing => if require_exists {
                Err(FileError::NotFound("File path was not found"@))
            } else {
                Ok(None)
            },
            Lookup::Found(m) => if m.kind == EntryKind::Symlink {
                Err(FileError::InvalidInput("Project content symlinks are not allowed"@))
            } else if i + 1 == names {
                Ok(Some(m))
            } else if m.kind != EntryKind::Directory {
                Err(FileError::InvalidInput("Path parent is not a directory"@))
            } else {
                inspected(names, lookups, i + 1, require_exists)
            },
        }
    }
}

/// What stands at a path of a project, or why that cannot be said. The path without names is that
/// of the project itself, for which the first of `lookups` is taken.
pub open spec fn path_found(path: Seq<Seq<char>>, lookups: Seq<Lookup>, require_exists: bool) -> Result<
    Option<FileMetadata>,
    FileError,
> {
    if path.len() > 0 {
        inspected(path.len(), lookups, 0, require_exists)
    } else if lookups.len() == 0 {
        Err(FileError::Internal("a name of the path was not looked for"@))
    } else {
        match lookups[0] {
            Lookup::Found(m) => Ok(Some(m)),
            Lookup::Missing => Err(FileError::Internal("failed to inspect project root"@)),
            Lookup::Failed(reason) => Err(FileError::Internal(reason@)),
        }
    }
}

/// What the result of looking for a path stands for.
pub open spec fn found_result(r: Result<Option<FileMetadata>, FileServiceError>) -> Result<
    Option<FileMetadata>,
    FileError,
> {
    match r {
        Ok(found) => Ok(found),
        Err(e) => Err(e@),
    }
}

/// What stands at a path of a project, given what looking for its names one after the other came
/// to.
pub fn inspect_project_path(path: &RelativePath, lookups: &Vec<Lookup>, require_exists: bool) -> (r:
    Result<Option<FileMetadata>, FileServiceError>)
    ensures
        found_result(r) == path_found(path@, lookups@, require_exists),
{
    let n: usize = path.parts.len();
    assert(path@.len() == n);
    if n == 0 {
        if lookups.len() == 0 {
            return Err(
                FileServiceError::Internal("a name of the path was not looked for".to_string()),
            );
        }
        return match &lookups[0] {
            Lookup::Found(m) => Ok(Some(*m)),
            Lookup::Missing => Err(
                FileServiceError::Internal("failed to inspect project root".to_string()),
            ),
            Lookup::Failed(reason) => Err(FileServiceError::Internal(reason.as_str().to_string())),
        };
    }
    let mut i: usize = 0;
    while i < n && i < lookups.len()
        invariant
            i <= n,
            n == path@.len(),
            n > 0,
            inspected(n as nat, lookups@, i as int, require_exists) == inspected(
                n as nat,
                lookups@,
                0,
                require_exists,
            ),
        decreases n - i,
    {
        match &lookups[i] {
            Lookup::Failed(reason) => {
                return Err(FileServiceError::Internal(reason.as_str().to_string()));
            },
            Lookup::Missing => {
                return if require_exists {
                    Err(FileServiceError::not_found("File path was not found"))
                } else {
                    Ok(None)
                };
            },
            Lookup::Found(m) => match m.kind {
                EntryKind::Symlink => {
                    return Err(
                        FileServiceError::invalid_input("Project content symlinks are not allowed"),
                    );
                },
                EntryKind::Directory => {
                    if i + 1 == n {
                        return Ok(Some(*m));
                    }
                },
                _ => {
                    return if i + 1 == n {
                        Ok(Some(*m))
                    } else {
                        Err(FileServiceError::invalid_input("Path parent is not a directory"))
                    };
                },
            },
        }
        i += 1;
    }
    Err(FileServiceError::Internal("a name of the path was not looked for".to_string()))
}

/// A path that is found was reached without following a symlink: every name before the last is a
/// directory, and the last is no symlink.
pub proof fn lemma_inspection_follows_no_symlink(
    path: Seq<Seq<char>>,
    lookups: Seq<Lookup>,
    require_exists: bool,
    found: FileMetadata,
)
    requires
        path.len() > 0,
        path_found(path, lookups, require_exists) == Ok::<Option<FileMetadata>, FileError>(
            Some(found),
        ),
    ensures
        path.len() <= lookups.len(),
        forall|i: int| 0 <= i < path.len() - 1 ==> goes_on(#[trigger] lookups[i]),
        lookups[path.len() - 1] == Lookup::Found(found),
        found.kind != EntryKind::Symlink,
{
    lemma_inspected(path.len(), lookups, 0, require_exists, found);
}

/// From name `i` on, a path that is found was reached without following a symlink.
proof fn lemma_inspected(
    names: nat,
    lookups: Seq<Lookup>,
    i: int,
    require_exists: bool,
    found: FileMetadata,
)
    requires
        0 <= i < names,
        inspected(names, lookups, i, require_exists) == Ok::<Option<FileMetadata>, FileError>(
            Some(found),
        ),
    ensures
        names <= lookups.len(),
        forall|k: int| i <= k < names - 1 ==> goes_on(#[trigger] lookups[k]),
        lookups[names - 1] == Lookup::Found(found),
        found.kind != EntryKind::Symlink,
    decreases names - i,
{
    if i + 1 < names {
        lemma_inspected(names, lookups, i + 1, require_exists, found);
    }
}

/// Refuses what should be a directory and is not, with the given message.
pub fn require_directory(found: &FileMetadata, message: &str) -> (r: Result<(), FileServiceError>)
    ensures
        match r {
            Ok(_) => found.kind == EntryKind::Directory,
            Err(e) => found.kind != EntryKind::Directory && e@ == FileError::InvalidInput(message@),
        },
{
    if is_directory(found.kind) {
        Ok(())
    } else {
        Err(FileServiceError::invalid_input(message))
    }
}

/// Refuses what should be a file and is a directory, with the given message.
pub fn refuse_directory(found: &FileMetadata, message: &str) -> (r: Result<(), FileServiceError>)
    ensures
        match r {
            Ok(_) => found.kind != EntryKind::Directory,
            Err(e) => found.kind == EntryKind::Directory && e@ == FileError::InvalidInput(message@),
        },
{
    if is_directory(found.kind) {
        Err(FileServiceError::invalid_input(message))
    } else {
        Ok(())
    }
}

// ---------------------------------------------------------------------------------------
// Project roots
// ---------------------------------------------------------------------------------------

/// The directory of a project below the data root, given the path in its registry entry. A
/// project that is not registered is not found.
pub fn project_directory(registered: Option<&str>) -> (r: Result<RelativePath, FileServiceError>)
    ensures
        path_result(r) == (match registered {
            Some(path) => cleaned(path@, false),
            None => Err(FileError::ProjectNotFound),
        }),
{
    match registered {
        Some(path) => clean_relative_path(path, false),
        None => Err(FileServiceError::ProjectNotFound),
    }
}

/// Refuses the directory of a project that is not there, or is a symlink or no directory.
pub fn check_project_directory(kind: Option<EntryKind>) -> (r: Result<(), FileServiceError>)
    ensures
        match kind {
            None => r matches Err(e) && e@ == FileError::ProjectNotFound,
            Some(EntryKind::Directory) => r is Ok,
            Some(_) => r matches Err(e) && e@ == FileError::InvalidInput(
                "Project registry entry does not point to a valid project directory"@,
            ),
        },
{
    match kind {
        None => Err(FileServiceError::ProjectNotFound),
        Some(EntryKind::Directory) => Ok(()),
        Some(_) => Err(
            FileServiceError::invalid_input(
                "Project registry entry does not point to a valid project directory",
            ),
        ),
    }
}

/// Refuses a project that resolves to a place outside the data root.
pub fn check_project_inside(style: PathStyle, resolved: &str, data_root: &str) -> (r: Result<
    (),
    FileServiceError,
>)
    ensures
        match r {
            Ok(_) => paths::stands_in(style, resolved@, data_root@),
            Err(e) => !paths::stands_in(style, resolved@, data_root@) && e@ == FileError::InvalidInput(
                "Project path escapes the configured Data Root"@,
            ),
        },
{
    if paths::path_stands_in(style, resolved, data_root) {
        Ok(())
    } else {
        Err(FileServiceError::invalid_input("Project path escapes the configured Data Root"))
    }
}

// ---------------------------------------------------------------------------------------
// What is asked and answered
// ---------------------------------------------------------------------------------------

/// A request for the tree of files.
#[derive(Debug)]
pub struct FileTreeRequest {
    pub path: Option<String>,
    pub include_hidden: Option<bool>,
    pub max_depth: Option<usize>,
}

/// A request to write a file.
#[derive(Debug)]
pub struct WriteFileRequest {
    pub path: String,
    pub contents: String,
    pub expected_version: Option<String>,
}

/// A request to upload files.
#[derive(Debug)]
pub struct UploadFilesRequest {
    pub directory: Option<String>,
    pub files: Vec<UploadFileRequest>,
}

/// A file to upload.
#[derive(Debug)]
pub struct UploadFileRequest {
    pub file_name: String,
    pub content_base64: String,
}

/// The answer to a request for the tree of files.
#[derive(Debug)]
pub struct FileTreeResponse {
    pub ok: bool,
    pub path: String,
    pub nodes: Vec<FileNode>,
    pub skipped_symlinks: Vec<String>,
}

/// The answer to a request to read a file.
#[derive(Debug)]
pub struct FileReadResponse {
    pub ok: bool,
    pub file: FileInfo,
    pub contents: String,
}

/// The answer to a request to write a file.
#[derive(Debug)]
pub struct FileWriteResponse {
    pub ok: bool,
    pub file: FileInfo,
}

/// The answer to a request to delete a file.
#[derive(Debug)]
pub struct FileDeleteResponse {
    pub ok: bool,
    pub path: String,
    pub trash_path: String,
}

/// The answer to a request to upload files.
#[derive(Debug)]
pub struct UploadFilesResponse {
    pub ok: bool,
    pub files: Vec<UploadFileResponse>,
}

/// The answer to a request to preview a file.
pub struct FilePreviewResponse {
    pub bytes: Vec<u8>,
    pub mime_type: String,
    pub version: String,
    pub size: u64,
}

/// A file or a directory in a tree.
#[derive(Debug)]
pub struct FileNode {
    pub name: String,
    pub path: String,
    pub is_dir: bool,
    pub size: Option<u64>,
    pub modified_at_ms: u64,
    pub version: String,
    pub children: Option<Vec<FileNode>>,
}

/// What is answered about a file.
#[derive(Debug)]
pub struct FileInfo {
    pub path: String,
    pub is_dir: bool,
    pub size: Option<u64>,
    pub modified_at_ms: u64,
    pub version: String,
    pub mime_type: Option<String>,
}

/// What is answered about a file that was uploaded.
#[derive(Debug)]
pub struct UploadFileResponse {
    pub file_name: String,
    pub path: String,
    pub size: u64,
    pub sha256: String,
    pub skipped: bool,
    pub reason: Option<String>,
}

/// What the answer about a file stands for.
pub struct FileFacts {
    pub path: Seq<char>,
    pub is_dir: bool,
    pub size: Option<u64>,
    pub modified_at_ms: u64,
    pub version: Seq<char>,
    pub mime_type: Option<Seq<char>>,
}

impl View for FileInfo {
    type V = FileFacts;

    open spec fn view(&self) -> FileFacts {
        FileFacts {
            path: self.path@,
            is_dir: self.is_dir,
            size: self.size,
            modified_at_ms: self.modified_at_ms,
            version: self.version@,
            mime_type: text::optional(self.mime_type),
        }
    }
}

/// What is answered about the file at a path.
pub open spec fn file_facts(path: Seq<Seq<char>>, m: FileMetadata) -> FileFacts {
    FileFacts {
        path: paths::shown_path(path),
        is_dir: m.kind == EntryKind::Directory,
        size: shown_size(m),
        modified_at_ms: m.modified_at_ms,
        version: version(m),
        mime_type: if m.kind == EntryKind::Directory {
            None
        } else {
            Some(outside::mime_essence(paths::path_text(path)))
        },
    }
}

/// The type of the contents of the file at a path.
pub fn mime_type_for_path(path: &RelativePath) -> (r: String)
    ensures
        r@ == outside::mime_essence(paths::path_text(path@)),
{
    outside::guess_mime(path.to_text().as_str())
}

/// What is answered about the file at a path, given the type of its contents.
pub fn describe_file(path: &RelativePath, m: &FileMetadata, mime_type: String) -> (r: FileInfo)
    ensures
        r@ == (FileFacts {
            path: paths::shown_path(path@),
            is_dir: m.kind == EntryKind::Directory,
            size: shown_size(*m),
            modified_at_ms: m.modified_at_ms,
            version: version(*m),
            mime_type: if m.kind == EntryKind::Directory {
                None
            } else {
                Some(mime_type@)
            },
        }),
{
    let is_dir = is_directory(m.kind);
    FileInfo {
        path: path.browser_relative_path(),
        is_dir,
        size: size_of(m),
        modified_at_ms: m.modified_at_ms,
        version: metadata_version(m),
        mime_type: if is_dir {
            None
        } else {
            Some(mime_type)
        },
    }
}

/// What is answered about the file at a path.
pub fn file_info(path: &RelativePath, m: &FileMetadata) -> (r: FileInfo)
    ensures
        r@ == file_facts(path@, *m),
{
    describe_file(path, m, mime_type_for_path(path))
}

/// What the answer to a request to read a file stands for.
pub struct ReadAnswer {
    pub ok: bool,
    pub file: FileFacts,
    pub contents: Seq<char>,
}

impl View for FileReadResponse {
    type V = ReadAnswer;

    open spec fn view(&self) -> ReadAnswer {
        ReadAnswer { ok: self.ok, file: self.file@, contents: self.contents@ }
    }
}

/// What a request to read the file at `path` comes to, given its bytes. Bytes that are no text in
/// UTF-8 are refused.
pub open spec fn read_answer(path: Seq<Seq<char>>, m: FileMetadata, bytes: Seq<u8>) -> Result<
    ReadAnswer,
    FileError,
> {
    if vstd::utf8::valid_utf8(bytes) {
        Ok(
            ReadAnswer {
                ok: true,
                file: file_facts(path, m),
                contents: vstd::utf8::decode_utf8(bytes),
            },
        )
    } else {
        Err(FileError::InvalidInput("File is not valid UTF-8; use the preview route"@))
    }
}

/// What the result of reading a file stands for.
pub open spec fn read_result(r: Result<FileReadResponse, FileServiceError>) -> Result<
    ReadAnswer,
    FileError,
> {
    match r {
        Ok(answer) => Ok(answer@),
        Err(e) => Err(e@),
    }
}

/// The answer to a request to read the file at `path`, given its bytes.
pub fn answer_read(path: &RelativePath, m: &FileMetadata, bytes: Vec<u8>) -> (r: Result<
    FileReadResponse,
    FileServiceError,
>)
    ensures
        read_result(r) == read_answer(path@, *m, bytes@),
{
    match outside::text_of_bytes(bytes) {
        Some(contents) => Ok(FileReadResponse { ok: true, file: file_info(path, m), contents }),
        None => Err(
            FileServiceError::invalid_input("File is not valid UTF-8; use the preview route"),
        ),
    }
}

/// The answer to a request to preview the file at `path`, given its bytes.
pub fn answer_preview(path: &RelativePath, m: &FileMetadata, bytes: Vec<u8>) -> (r:
    FilePreviewResponse)
    ensures
        r.bytes == bytes,
        r.mime_type@ == outside::mime_essence(paths::path_text(path@)),
        r.version@ == version(*m),
        r.size == m.size,
{
    FilePreviewResponse {
        bytes,
        mime_type: mime_type_for_path(path),
        version: metadata_version(m),
        size: m.size,
    }
}

// ---------------------------------------------------------------------------------------
// Writing
// ---------------------------------------------------------------------------------------

/// The version that a request expects: without white space around it, and none where it is
/// blank.
pub open spec fn expected(value: Option<Seq<char>>) -> Option<Seq<char>> {
    match value {
        None => None,
        Some(v) => if text::trimmed(v).len() == 0 {
            None
        } else {
            Some(text::trimmed(v))
        },
    }
}

/// The version that a request expects.
pub fn normalized_expected_version(value: Option<&str>) -> (r: Option<String>)
    ensures
        text::optional(r) == expected(text::optional_str(value)),
{
    match value {
        None => None,
        Some(v) => {
            let chars = text::to_chars(v);
            let trimmed: &[char] = text::trim(chars.as_slice());
            if trimmed.len() == 0 {
                None
            } else {
                Some(text::to_text(trimmed))
            }
        },
    }
}

/// Why a file may not be written, where it may not. A file that is there is written over only by
/// a request that expects its very version. One that is not there is written only by a request
/// that expects none.
pub open spec fn write_error(
    existing: Option<FileMetadata>,
    expected_version: Option<Seq<char>>,
) -> Option<FileError> {
    match existing {
        Some(m) => if m.kind == EntryKind::Directory {
            Some(FileError::InvalidInput("File write path must be a file"@))
        } else {
            match expected(expected_version) {
                None => Some(
                    FileError::PreconditionRequired(
                        "expectedVersion is required when overwriting an existing file"@,
                    ),
                ),
                Some(v) => if v != version(m) {
                    Some(FileError::PreconditionFailed("File changed since it was read"@))
                } else {
                    None
                },
            }
        },
        None => match expected(expected_version) {
            Some(_) => Some(
                FileError::PreconditionFailed(
                    "File does not exist for the supplied expectedVersion"@,
                ),
            ),
            None => None,
        },
    }
}

/// Refuses to write a file that the request does not know.
pub fn check_write(existing: Option<FileMetadata>, expected_version: Option<&str>) -> (r: Result<
    (),
    FileServiceError,
>)
    ensures
        match r {
            Ok(_) => write_error(existing, text::optional_str(expected_version)) is None,
            Err(e) => write_error(existing, text::optional_str(expected_version)) == Some(e@),
        },
{
    match existing {
        Some(m) => {
            if is_directory(m.kind) {
                return Err(FileServiceError::invalid_input("File write path must be a file"));
            }
            match normalized_expected_version(expected_version) {
                None => Err(
                    FileServiceError::precondition_required(
                        "expectedVersion is required when overwriting an existing file",
                    ),
                ),
                Some(v) => {
                    let current = metadata_version(&m);
                    if !text::same_text(v.as_str(), current.as_str()) {
                        Err(FileServiceError::precondition_failed("File changed since it was read"))
                    } else {
                        Ok(())
                    }
                },
            }
        },
        None => match normalized_expected_version(expected_version) {
            Some(_) => Err(
                FileServiceError::precondition_failed(
                    "File does not exist for the supplied expectedVersion",
                ),
            ),
            None => Ok(()),
        },
    }
}

/// No file is written over that has changed since it was read: a request that expects the version
/// of a file is accepted only while the file has that version.
pub proof fn lemma_no_lost_update(read: FileMetadata, now: FileMetadata)
    requires
        read.kind != EntryKind::Directory,
        now.kind != EntryKind::Directory,
    ensures
        write_error(Some(now), Some(version(read))) is None <==> version(now) == version(read),
{
    let v = version(read);
    let (a, b) = (text::decimal(read.modified_at_ms as nat), text::decimal(read.size as nat));
    text::lemma_decimal(read.modified_at_ms as nat);
    text::lemma_decimal(read.size as nat);
    assert(v[0] == a[0]);
    assert(v.last() == b[b.len() - 1]);
    text::lemma_trimmed_same(v);
}

/// The path of the file that is written first in place of the file at `path`, at the time
/// `millis`.
pub open spec fn temporary(path: Seq<Seq<char>>, millis: u64) -> Seq<Seq<char>> {
    let name = if path.len() > 0 {
        path.last()
    } else {
        "llm-wiki-file"@
    };
    paths::parent(path).push("."@ + name + "."@ + text::decimal(millis as nat) + ".tmp"@)
}

/// The path of the file that is written first in place of the file at `path`.
pub fn temporary_path(path: &RelativePath, millis: u64) -> (r: RelativePath)
    ensures
        r@ == temporary(path@, millis),
{
    let n: usize = path.parts.len();
    let mut name = ".".to_string();
    if n > 0 {
        assert(path@[n - 1] == path.parts@[n - 1]@);
        name.append(path.parts[n - 1].as_str());
    } else {
        assert(path@.len() == 0);
        name.append("llm-wiki-file");
    }
    name.append(".");
    name.append(text::decimal_text(millis).as_str());
    name.append(".tmp");
    path.parent().join(name.as_str())
}

/// What the answer to a request to write a file stands for.
pub struct WriteAnswer {
    pub ok: bool,
    pub file: FileFacts,
}

impl View for FileWriteResponse {
    type V = WriteAnswer;

    open spec fn view(&self) -> WriteAnswer {
        WriteAnswer { ok: self.ok, file: self.file@ }
    }
}

/// What is answered about the file at `path` that was written.
pub open spec fn write_answer(path: Seq<Seq<char>>, m: FileMetadata) -> WriteAnswer {
    WriteAnswer { ok: true, file: file_facts(path, m) }
}

/// The answer to a request to write a file.
pub fn answer_write(path: &RelativePath, m: &FileMetadata) -> (r: FileWriteResponse)
    ensures
        r@ == write_answer(path@, *m),
{
    FileWriteResponse { ok: true, file: file_info(path, m) }
}

// ---------------------------------------------------------------------------------------
// Deleting
// ---------------------------------------------------------------------------------------

/// Whether a path is that of the trash of a project or stands in it.
pub open spec fn is_trash(path: Seq<Seq<char>>) -> bool {
    let shown = paths::shown_path(path);
    shown == ".llm-wiki/trash"@ || text::starts_with(shown, ".llm-wiki/trash/"@)
}

/// Whether a path is that of the trash of a project or stands in it.
pub fn is_trash_path(path: &RelativePath) -> (r: bool)
    ensures
        r == is_trash(path@),
{
    let shown = path.browser_relative_path();
    let chars = text::to_chars(shown.as_str());
    text::is_text(chars.as_slice(), ".llm-wiki/trash") || text::has_prefix(
        chars.as_slice(),
        text::to_chars(".llm-wiki/trash/").as_slice(),
    )
}

/// The path of the file that is to be deleted, or why it is refused.
pub open spec fn delete_target(raw: Seq<char>) -> Result<Seq<Seq<char>>, FileError> {
    match cleaned(raw, false) {
        Err(e) => Err(e),
        Ok(names) => if is_trash(names) {
            Err(
                FileError::InvalidInput(
                    "Project trash paths cannot be deleted through this endpoint"@,
                ),
            )
        } else {
            Ok(names)
        },
    }
}

/// The path of the file that is to be deleted, or why it is refused.
pub fn deletable_path(raw: &str) -> (r: Result<RelativePath, FileServiceError>)
    ensures
        path_result(r) == delete_target(raw@),
{
    match clean_relative_path(raw, false) {
        Err(e) => Err(e),
        Ok(path) => if is_trash_path(&path) {
            Err(
                FileServiceError::invalid_input(
                    "Project trash paths cannot be deleted through this endpoint",
                ),
            )
        } else {
            Ok(path)
        },
    }
}

/// Why a file may not be deleted, where it may not: there is a symlink in it, or the request
/// expects another version of it.
pub open spec fn delete_error(
    m: FileMetadata,
    symlink: Option<Seq<char>>,
    expected_version: Option<Seq<char>>,
) -> Option<FileError> {
    match symlink {
        Some(path) => Some(
            FileError::InvalidInput("Project content symlinks are not allowed: "@ + path),
        ),
        None => match expected(expected_version) {
            Some(v) => if v != version(m) {
                Some(FileError::PreconditionFailed("File changed since it was read"@))
            } else {
                None
            },
            None => None,
        },
    }
}

/// Refuses to delete a directory with a symlink in it, and a file that the request does not know.
pub fn check_delete(
    m: &FileMetadata,
    symlink: Option<&str>,
    expected_version: Option<&str>,
) -> (r: Result<(), FileServiceError>)
    ensures
        match r {
            Ok(_) => delete_error(
                *m,
                text::optional_str(symlink),
                text::optional_str(expected_version),
            ) is None,
            Err(e) => delete_error(
                *m,
                text::optional_str(symlink),
                text::optional_str(expected_version),
            ) == Some(e@),
        },
{
    match symlink {
        Some(path) => {
            let mut message = "Project content symlinks are not allowed: ".to_string();
            message.append(path);
            Err(FileServiceError::InvalidInput(message))
        },
        None => match normalized_expected_version(expected_version) {
            Some(v) => {
                let current = metadata_version(m);
                if !text::same_text(v.as_str(), current.as_str()) {
                    Err(FileServiceError::precondition_failed("File changed since it was read"))
                } else {
                    Ok(())
                }
            },
            None => Ok(()),
        },
    }
}

/// The place in the trash that is tried at try `index` for the file at `path`, at the time
/// `stamp`.
pub open spec fn trash_place(path: Seq<Seq<char>>, stamp: u64, index: nat) -> Seq<Seq<char>> {
    let container = if index == 0 {
        text::decimal(stamp as nat)
    } else {
        text::decimal(stamp as nat) + "-"@ + text::decimal(index)
    };
    seq![".llm-wiki"@, "trash"@, container] + path
}

/// The place in the trash that is tried at try `index` for the file at `path`.
pub fn trash_candidate(path: &RelativePath, stamp: u64, index: usize) -> (r: RelativePath)
    ensures
        r@ == trash_place(path@, stamp, index as nat),
{
    let mut container = text::decimal_text(stamp);
    if index > 0 {
        container.append("-");
        container.append(text::decimal_text(index as u64).as_str());
    }
    let ghost name = container@;
    let mut place = RelativePath::new();
    place.push(".llm-wiki".to_string());
    place.push("trash".to_string());
    place.push(container);
    assert(place@ =~= seq![".llm-wiki"@, "trash"@, name]);
    place.join_path(path)
}

/// What is deleted goes to the trash of its project, and keeps its path there.
pub proof fn lemma_trash_keeps_path(path: Seq<Seq<char>>, stamp: u64, index: nat)
    ensures
        trash_place(path, stamp, index)[0] == ".llm-wiki"@,
        trash_place(path, stamp, index)[1] == "trash"@,
        trash_place(path, stamp, index).skip(3) == path,
{
    assert(trash_place(path, stamp, index).skip(3) =~= path);
}

/// What the answer to a request to delete a file stands for.
pub struct DeleteAnswer {
    pub ok: bool,
    pub path: Seq<char>,
    pub trash_path: Seq<char>,
}

impl View for FileDeleteResponse {
    type V = DeleteAnswer;

    open spec fn view(&self) -> DeleteAnswer {
        DeleteAnswer { ok: self.ok, path: self.path@, trash_path: self.trash_path@ }
    }
}

/// What is answered about the file at `path` that was moved to `trash`.
pub open spec fn delete_answer(path: Seq<Seq<char>>, trash: Seq<Seq<char>>) -> DeleteAnswer {
    DeleteAnswer {
        ok: true,
        path: paths::shown_path(path),
        trash_path: paths::shown_path(trash),
    }
}

/// The answer to a request to delete a file.
pub fn answer_delete(path: &RelativePath, trash: &RelativePath) -> (r: FileDeleteResponse)
    ensures
        r@ == delete_answer(path@, trash@),
{
    FileDeleteResponse {
        ok: true,
        path: path.browser_relative_path(),
        trash_path: trash.browser_relative_path(),
    }
}

// ---------------------------------------------------------------------------------------
// Free names
// ---------------------------------------------------------------------------------------

/// How many names are tried before giving up.
pub const MAX_TRIES: usize = 10_000;

/// What is done after a name was tried.
#[derive(Debug, Clone, Copy, PartialEq, Eq, Structural)]
pub enum NameStep {
    /// The name of this try is taken.
    Take(usize),
    /// This try is made next.
    Try(usize),
    /// No name is free.
    GiveUp,
}

/// What is done after the name of try `index` was tried. `occupied` says whether something stands
/// there.
pub open spec fn next_name(index: usize, occupied: bool) -> NameStep {
    if !occupied {
        NameStep::Take(index)
    } else if index + 1 < MAX_TRIES {
        NameStep::Try((index + 1) as usize)
    } else {
        NameStep::GiveUp
    }
}

/// What is done after a name was tried.
pub fn after_try(index: usize, occupied: bool) -> (r: NameStep)
    ensures
        r == next_name(index, occupied),
{
    if !occupied {
        NameStep::Take(index)
    } else if index < MAX_TRIES - 1 {
        NameStep::Try(index + 1)
    } else {
        NameStep::GiveUp
    }
}

/// What trying names from try `from` on comes to, where `occupied` says which are taken.
pub open spec fn free_name(occupied: spec_fn(int) -> bool, from: usize) -> NameStep
    decreases MAX_TRIES - from,
{
    match next_name(from, occupied(from as int)) {
        NameStep::Try(next) => free_name(occupied, next),
        step => step,
    }
}

/// Trying names takes the first that is free, and gives up only where all of them are taken.
pub proof fn lemma_free_name(occupied: spec_fn(int) -> bool, from: usize)
    requires
        from < MAX_TRIES,
    ensures
        match free_name(occupied, from) {
            NameStep::Take(i) => from <= i < MAX_TRIES && !occupied(i as int) && forall|k: int|
                from <= k < i ==> #[trigger] occupied(k),
            NameStep::GiveUp => forall|k: int| from <= k < MAX_TRIES ==> #[trigger] occupied(k),
            NameStep::Try(_) => false,
        },
    decreases MAX_TRIES - from,
{
    if occupied(from as int) && from + 1 < MAX_TRIES {
        lemma_free_name(occupied, (from + 1) as usize);
    }
}

/// The error of a request to delete a file for which no place in the trash is free.
pub fn no_trash_place() -> (r: FileServiceError)
    ensures
        r@ == FileError::Conflict("Could not find an available project trash path"@),
{
    FileServiceError::conflict("Could not find an available project trash path")
}

/// The error of a request to upload a file for which no name is free.
pub fn no_upload_name() -> (r: FileServiceError)
    ensures
        r@ == FileError::Conflict("Could not find an available upload filename"@),
{
    FileServiceError::conflict("Could not find an available upload filename")
}

/// Refuses to write a file first under a name that is taken.
pub fn check_temporary(occupied: bool) -> (r: Result<(), FileServiceError>)
    ensures
        match r {
            Ok(_) => !occupied,
            Err(e) => occupied && e@ == FileError::Conflict(
                "Could not find an available temporary filename"@,
            ),
        },
{
    if occupied {
        Err(FileServiceError::conflict("Could not find an available temporary filename"))
    } else {
        Ok(())
    }
}

// ---------------------------------------------------------------------------------------
// Uploading
// ---------------------------------------------------------------------------------------

/// How many bytes an uploaded file may have.
pub const UPLOAD_LIMIT_BYTES: usize = 1_073_741_824;

/// The SHA-256 digest of bytes in hexadecimal digits.
pub open spec fn digest_text(bytes: Seq<u8>) -> Seq<char> {
    outside::hex_text(outside::sha256(bytes))
}

/// The SHA-256 digest of bytes in hexadecimal digits.
pub fn sha256_hex(bytes: &[u8]) -> (r: String)
    ensures
        r@ == digest_text(bytes@),
        r@.len() == 64,
{
    let digest = outside::sha256_digest(bytes);
    outside::hex_encode(digest.as_slice())
}

/// Refuses a request to upload no files.
pub fn check_upload_count(count: usize) -> (r: Result<(), FileServiceError>)
    ensures
        match r {
            Ok(_) => count > 0,
            Err(e) => count == 0 && e@ == FileError::InvalidInput("At least one file is required"@),
        },
{
    if count == 0 {
        Err(FileServiceError::invalid_input("At least one file is required"))
    } else {
        Ok(())
    }
}

/// Whether a text is a single file name: it is not empty, names no directory, and holds no slash,
/// backslash or null character.
pub open spec fn is_single_name(name: Seq<char>) -> bool {
    &&& name.len() > 0
    &&& name != "."@
    &&& name != ".."@
    &&& !name.contains('/')
    &&& !name.contains('\\')
    &&& !name.contains('\0')
}

/// The name of an uploaded file without white space around it. What is no single file name is
/// refused.
pub fn safe_upload_file_name(file_name: &str) -> (r: Result<String, FileServiceError>)
    ensures
        match r {
            Ok(name) => name@ == text::trimmed(file_name@) && is_single_name(name@),
            Err(e) => !is_single_name(text::trimmed(file_name@)) && e@ == FileError::InvalidInput(
                "Upload fileName must be a single filename"@,
            ),
        },
{
    let chars = text::to_chars(file_name);
    let name: &[char] = text::trim(chars.as_slice());
    if name.len() == 0 || text::is_text(name, ".") || text::is_text(name, "..") || text::has_char(
        name,
        '/',
    ) || text::has_char(name, '\\') || text::has_char(name, '\0') {
        return Err(FileServiceError::invalid_input("Upload fileName must be a single filename"));
    }
    Ok(text::to_text(name))
}

/// An uploaded file that was read.
#[derive(Debug)]
pub struct Upload {
    pub file_name: String,
    pub bytes: Vec<u8>,
    pub sha256: String,
}

/// What an uploaded file stands for.
pub struct UploadFacts {
    pub file_name: Seq<char>,
    pub bytes: Seq<u8>,
    pub sha256: Seq<char>,
}

impl View for Upload {
    type V = UploadFacts;

    open spec fn view(&self) -> UploadFacts {
        UploadFacts { file_name: self.file_name@, bytes: self.bytes@, sha256: self.sha256@ }
    }
}

/// What reading an uploaded file comes to, given the bytes that its contents stand for.
pub open spec fn upload_of(file_name: Seq<char>, decoded: Option<Seq<u8>>) -> Result<
    UploadFacts,
    FileError,
> {
    let name = text::trimmed(file_name);
    if !is_single_name(name) {
        Err(FileError::InvalidInput("Upload fileName must be a single filename"@))
    } else {
        match decoded {
            None => Err(FileError::InvalidInput("Upload contentBase64 is not valid base64"@)),
            Some(bytes) => if bytes.len() > UPLOAD_LIMIT_BYTES {
                Err(FileError::PayloadTooLarge("Upload exceeds the 1 GB limit"@))
            } else {
                Ok(UploadFacts { file_name: name, bytes, sha256: digest_text(bytes) })
            },
        }
    }
}

/// What the result of reading an uploaded file stands for.
pub open spec fn upload_result(r: Result<Upload, FileServiceError>) -> Result<
    UploadFacts,
    FileError,
> {
    match r {
        Ok(upload) => Ok(upload@),
        Err(e) => Err(e@),
    }
}

/// The bytes of an optional vector.
pub open spec fn optional_bytes(v: Option<Vec<u8>>) -> Option<Seq<u8>> {
    match v {
        Some(bytes) => Some(bytes@),
        None => None,
    }
}

/// An uploaded file, given the bytes that its contents stand for.
pub fn accept_upload(file_name: &str, decoded: Option<Vec<u8>>) -> (r: Result<
    Upload,
    FileServiceError,
>)
    ensures
        upload_result(r) == upload_of(file_name@, optional_bytes(decoded)),
{
    let name = match safe_upload_file_name(file_name) {
        Ok(name) => name,
        Err(e) => {
            return Err(e);
        },
    };
    match decoded {
        None => Err(FileServiceError::invalid_input("Upload contentBase64 is not valid base64")),
        Some(bytes) => {
            if bytes.len() > UPLOAD_LIMIT_BYTES {
                return Err(
                    FileServiceError::PayloadTooLarge("Upload exceeds the 1 GB limit".to_string()),
                );
            }
            let sha256 = sha256_hex(bytes.as_slice());
            Ok(Upload { file_name: name, bytes, sha256 })
        },
    }
}

/// What reading an uploaded file comes to.
pub open spec fn upload_in(file: UploadFileRequest) -> Result<UploadFacts, FileError> {
    upload_of(file.file_name@, outside::base64_bytes(text::trimmed(file.content_base64@)))
}

/// Reads an uploaded file.
pub fn read_upload(file: &UploadFileRequest) -> (r: Result<Upload, FileServiceError>)
    ensures
        upload_result(r) == upload_in(*file),
{
    let chars = text::to_chars(file.content_base64.as_str());
    let trimmed = text::to_text(text::trim(chars.as_slice()));
    accept_upload(file.file_name.as_str(), outside::base64_decode(trimmed.as_str()))
}

/// The name that is tried at try `index` for an uploaded file: at first its own, and then its
/// stem with the number of the try behind it.
pub open spec fn upload_name(file_name: Seq<char>, index: nat) -> Seq<char> {
    if index == 0 {
        file_name
    } else {
        let base = paths::stem(file_name) + "-"@ + text::decimal(index);
        match paths::extension(file_name) {
            Some(e) => if e.len() > 0 {
                base + "."@ + e
            } else {
                base
            },
            None => base,
        }
    }
}

/// The path that is tried at try `index` for an uploaded file.
pub fn upload_candidate(directory: &RelativePath, file_name: &str, index: usize) -> (r:
    RelativePath)
    ensures
        r@ == directory@.push(upload_name(file_name@, index as nat)),
{
    if index == 0 {
        return directory.join(file_name);
    }
    let chars = text::to_chars(file_name);
    let mut name = text::to_text(paths::stem_of(chars.as_slice()));
    name.append("-");
    name.append(text::decimal_text(index as u64).as_str());
    match paths::extension_of(chars.as_slice()) {
        Some(extension) => {
            if extension.len() > 0 {
                name.append(".");
                name.append(text::to_text(extension).as_str());
            }
        },
        None => {},
    }
    directory.join(name.as_str())
}

/// Whether the file that has the name of an uploaded file already must be compared with it.
pub fn must_compare(existing: Option<FileMetadata>) -> (r: bool)
    ensures
        r == (existing matches Some(m) && m.kind == EntryKind::File),
{
    match existing {
        Some(m) => match m.kind {
            EntryKind::File => true,
            _ => false,
        },
        None => false,
    }
}

/// What the answer about an uploaded file stands for.
pub struct UploadAnswer {
    pub file_name: Seq<char>,
    pub path: Seq<char>,
    pub size: u64,
    pub sha256: Seq<char>,
    pub skipped: bool,
    pub reason: Option<Seq<char>>,
}

impl View for UploadFileResponse {
    type V = UploadAnswer;

    open spec fn view(&self) -> UploadAnswer {
        UploadAnswer {
            file_name: self.file_name@,
            path: self.path@,
            size: self.size,
            sha256: self.sha256@,
            skipped: self.skipped,
            reason: text::optional(self.reason),
        }
    }
}

/// What is answered about an uploaded file that is at `path`, and was there already where
/// `skipped` holds.
pub open spec fn upload_answer(
    upload: UploadFacts,
    path: Seq<Seq<char>>,
    m: FileMetadata,
    skipped: bool,
) -> UploadAnswer {
    UploadAnswer {
        file_name: upload.file_name,
        path: paths::shown_path(path),
        size: m.size,
        sha256: upload.sha256,
        skipped,
        reason: if skipped {
            Some("same_hash"@)
        } else {
            None
        },
    }
}

/// The answer about an uploaded file that is there already, where the file at its path has the
/// digest `existing_sha256`.
pub fn same_upload(
    upload: &Upload,
    path: &RelativePath,
    m: &FileMetadata,
    existing_sha256: &str,
) -> (r: Option<UploadFileResponse>)
    ensures
        match r {
            Some(answer) => existing_sha256@ == upload.sha256@ && answer@ == upload_answer(
                upload@,
                path@,
                *m,
                true,
            ),
            None => existing_sha256@ != upload.sha256@,
        },
{
    if text::same_text(existing_sha256, upload.sha256.as_str()) {
        Some(
            UploadFileResponse {
                file_name: upload.file_name.as_str().to_string(),
                path: path.browser_relative_path(),
                size: m.size,
                sha256: upload.sha256.as_str().to_string(),
                skipped: true,
                reason: Some("same_hash".to_string()),
            },
        )
    } else {
        None
    }
}

/// The answer about an uploaded file that was written.
pub fn answer_upload(upload: &Upload, path: &RelativePath, m: &FileMetadata) -> (r:
    UploadFileResponse)
    ensures
        r@ == upload_answer(upload@, path@, *m, false),
{
    UploadFileResponse {
        file_name: upload.file_name.as_str().to_string(),
        path: path.browser_relative_path(),
        size: m.size,
        sha256: upload.sha256.as_str().to_string(),
        skipped: false,
        reason: None,
    }
}

/// An uploaded file that is read has a single file name, so it lands in the directory that it goes
/// to, and no more bytes than may be uploaded.
pub proof fn lemma_upload_lands_in_directory(file_name: Seq<char>, decoded: Option<Seq<u8>>)
    ensures
        upload_of(file_name, decoded) matches Ok(upload) ==> is_single_name(upload.file_name)
            && upload.bytes.len() <= UPLOAD_LIMIT_BYTES && decoded == Some(upload.bytes),
{
}

// ---------------------------------------------------------------------------------------
// Trees
// ---------------------------------------------------------------------------------------

/// How deep a tree reaches at most.
pub const MAX_TREE_DEPTH: usize = 30;

/// How deep the tree reaches that a request asks for: one level at least, and no deeper than may be.
pub open spec fn depth_of(max_depth: Option<usize>) -> nat {
    match max_depth {
        None => MAX_TREE_DEPTH as nat,
        Some(d) => if d < 1 {
            1
        } else if d > MAX_TREE_DEPTH {
            MAX_TREE_DEPTH as nat
        } else {
            d as nat
        },
    }
}

/// How deep the tree reaches that a request asks for.
pub fn tree_depth(max_depth: Option<usize>) -> (r: usize)
    ensures
        r == depth_of(max_depth),
        1 <= r <= MAX_TREE_DEPTH,
{
    match max_depth {
        None => MAX_TREE_DEPTH,
        Some(d) => if d < 1 {
            1
        } else if d > MAX_TREE_DEPTH {
            MAX_TREE_DEPTH
        } else {
            d
        },
    }
}

/// Whether an entry of a directory is shown: it does not start with a dot, unless hidden entries
/// are asked for.
pub open spec fn is_visible(name: Seq<char>, include_hidden: bool) -> bool {
    include_hidden || !(name.len() > 0 && name[0] == '.')
}

/// Whether an entry of a directory is shown.
pub fn entry_is_visible(name: &str, include_hidden: bool) -> (r: bool)
    ensures
        r == is_visible(name@, include_hidden),
{
    let chars = text::to_chars(name);
    include_hidden || !(chars.len() > 0 && chars[0] == '.')
}

/// An entry of a directory as it was read, with the entries in it where it is a directory that
/// was entered.
pub struct RawEntry {
    pub name: String,
    pub metadata: FileMetadata,
    pub entries: Vec<RawEntry>,
}

/// What an entry of a directory stands for.
pub struct Entry {
    pub name: Seq<char>,
    pub metadata: FileMetadata,
    pub entries: Seq<Entry>,
}

/// What an entry of a directory as it was read stands for.
pub open spec fn entry_model(e: RawEntry) -> Entry
    decreases e,
{
    Entry { name: e.name@, metadata: e.metadata, entries: entry_models(e.entries@) }
}

/// What the entries of a directory as they were read stand for.
pub open spec fn entry_models(v: Seq<RawEntry>) -> Seq<Entry>
    decreases v,
{
    if v.len() == 0 {
        Seq::empty()
    } else {
        entry_models(v.drop_last()).push(entry_model(v.last()))
    }
}

/// What a node of a tree stands for.
pub struct TreeNode {
    pub name: Seq<char>,
    pub path: Seq<char>,
    pub is_dir: bool,
    pub size: Option<u64>,
    pub modified_at_ms: u64,
    pub version: Seq<char>,
    pub children: Option<Seq<TreeNode>>,
}

/// What a node of a tree stands for.
pub open spec fn node_model(n: FileNode) -> TreeNode
    decreases n,
{
    TreeNode {
        name: n.name@,
        path: n.path@,
        is_dir: n.is_dir,
        size: n.size,
        modified_at_ms: n.modified_at_ms,
        version: n.version@,
        children: match n.children {
            Some(children) => Some(node_models(children@)),
            None => None,
        },
    }
}

/// What the nodes of a tree stand for.
pub open spec fn node_models(v: Seq<FileNode>) -> Seq<TreeNode>
    decreases v,
{
    if v.len() == 0 {
        Seq::empty()
    } else {
        node_models(v.drop_last()).push(node_model(v.last()))
    }
}

/// The nodes stand for what each of them stands for.
pub proof fn lemma_node_models(v: Seq<FileNode>)
    ensures
        node_models(v).len() == v.len(),
        forall|i: int| 0 <= i < v.len() ==> #[trigger] node_models(v)[i] == node_model(v[i]),
    decreases v.len(),
{
    if v.len() > 0 {
        lemma_node_models(v.drop_last());
        assert forall|i: int| 0 <= i < v.len() implies #[trigger] node_models(v)[i] == node_model(
            v[i],
        ) by {
            if i < v.len() - 1 {
                assert(node_models(v)[i] == node_models(v.drop_last())[i]);
                assert(v.drop_last()[i] == v[i]);
            }
        }
    }
}

/// The entries stand for what each of them stands for.
pub proof fn lemma_entry_models(v: Seq<RawEntry>)
    ensures
        entry_models(v).len() == v.len(),
        forall|i: int| 0 <= i < v.len() ==> #[trigger] entry_models(v)[i] == entry_model(v[i]),
    decreases v.len(),
{
    if v.len() > 0 {
        lemma_entry_models(v.drop_last());
        assert forall|i: int| 0 <= i < v.len() implies #[trigger] entry_models(v)[i] == entry_model(
            v[i],
        ) by {
            if i < v.len() - 1 {
                assert(entry_models(v)[i] == entry_models(v.drop_last())[i]);
                assert(v.drop_last()[i] == v[i]);
            }
        }
    }
}

/// Whether a node stands before another or beside it, given their names in lower case:
/// directories come first, then the names in lower case decide, and then the names.
pub open spec fn node_le(
    a_dir: bool,
    a_lower: Seq<char>,
    a_name: Seq<char>,
    b_dir: bool,
    b_lower: Seq<char>,
    b_name: Seq<char>,
) -> bool {
    if a_dir != b_dir {
        a_dir
    } else if a_lower == b_lower {
        text::text_le(a_name, b_name)
    } else {
        text::text_le(a_lower, b_lower)
    }
}

impl Ranked for TreeNode {
    open spec fn le(self, other: Self) -> bool {
        node_le(
            self.is_dir,
            outside::lowercase(self.name),
            self.name,
            other.is_dir,
            outside::lowercase(other.name),
            other.name,
        )
    }

    proof fn le_total(self, other: Self) {
        text::lemma_text_total(self.name, other.name);
        text::lemma_text_total(outside::lowercase(self.name), outside::lowercase(other.name));
    }

    proof fn le_transitive(self, middle: Self, other: Self) {
        let (a, b, c) = (
            outside::lowercase(self.name),
            outside::lowercase(middle.name),
            outside::lowercase(other.name),
        );
        if self.is_dir == middle.is_dir && middle.is_dir == other.is_dir {
            if a == b && b == c {
                text::lemma_text_transitive(self.name, middle.name, other.name);
            } else if a != b && b != c {
                text::lemma_text_transitive(a, b, c);
                if a == c {
                    text::lemma_text_antisymmetric(a, b);
                }
            }
        }
    }
}

/// Whether a node stands before another or beside it, given their names in lower case.
pub fn node_at_most(
    a_dir: bool,
    a_lower: &str,
    a_name: &str,
    b_dir: bool,
    b_lower: &str,
    b_name: &str,
) -> (r: bool)
    ensures
        r == node_le(a_dir, a_lower@, a_name@, b_dir, b_lower@, b_name@),
{
    if a_dir != b_dir {
        a_dir
    } else if text::same_text(a_lower, b_lower) {
        text::string_at_most(a_name, b_name)
    } else {
        text::string_at_most(a_lower, b_lower)
    }
}

impl Ordered for FileNode {
    type Model = TreeNode;

    open spec fn model(&self) -> TreeNode {
        node_model(*self)
    }

    fn is_le(&self, other: &Self) -> (r: bool) {
        let (a, b) = (self.name.as_str().to_lowercase(), other.name.as_str().to_lowercase());
        node_at_most(
            self.is_dir,
            a.as_str(),
            self.name.as_str(),
            other.is_dir,
            b.as_str(),
            other.name.as_str(),
        )
    }
}

/// The tree of the entries of a directory at depth `depth`, whose path is `prefix`: directories
/// first, and by name. Entries that are not visible and symlinks are left out.
pub open spec fn tree(
    entries: Seq<Entry>,
    prefix: Seq<Seq<char>>,
    depth: nat,
    max_depth: nat,
    include_hidden: bool,
) -> Seq<TreeNode>
    decreases entries, 1nat,
{
    order::sorted_list(tree_nodes(entries, prefix, depth, max_depth, include_hidden))
}

/// The nodes of the entries of a directory, in the order of the entries.
pub open spec fn tree_nodes(
    entries: Seq<Entry>,
    prefix: Seq<Seq<char>>,
    depth: nat,
    max_depth: nat,
    include_hidden: bool,
) -> Seq<TreeNode>
    decreases entries, 0nat,
{
    if entries.len() == 0 {
        Seq::empty()
    } else {
        let before = tree_nodes(entries.drop_last(), prefix, depth, max_depth, include_hidden);
        let e = entries.last();
        if !is_visible(e.name, include_hidden) || e.metadata.kind == EntryKind::Symlink {
            before
        } else {
            before.push(tree_node(e, prefix, depth, max_depth, include_hidden))
        }
    }
}

/// Whether the tree goes on into a directory at depth `depth`.
pub open spec fn goes_into(m: FileMetadata, depth: nat, max_depth: nat) -> bool {
    m.kind == EntryKind::Directory && depth + 1 < max_depth
}

/// The node of an entry of a directory. A directory in which nothing is shown has no children,
/// and neither has one below the greatest depth.
pub open spec fn tree_node(
    e: Entry,
    prefix: Seq<Seq<char>>,
    depth: nat,
    max_depth: nat,
    include_hidden: bool,
) -> TreeNode
    decreases e, 0nat,
{
    let path = prefix.push(e.name);
    TreeNode {
        name: e.name,
        path: paths::shown_path(path),
        is_dir: e.metadata.kind == EntryKind::Directory,
        size: shown_size(e.metadata),
        modified_at_ms: e.metadata.modified_at_ms,
        version: version(e.metadata),
        children: if goes_into(e.metadata, depth, max_depth) {
            let inner = tree(e.entries, path, depth + 1, max_depth, include_hidden);
            if inner.len() == 0 {
                None
            } else {
                Some(inner)
            }
        } else {
            None
        },
    }
}

/// The paths of the symlinks that a tree leaves out, in the order of the entries.
pub open spec fn left_out(
    entries: Seq<Entry>,
    prefix: Seq<Seq<char>>,
    depth: nat,
    max_depth: nat,
    include_hidden: bool,
) -> Seq<Seq<char>>
    decreases entries,
{
    if entries.len() == 0 {
        Seq::empty()
    } else {
        let before = left_out(entries.drop_last(), prefix, depth, max_depth, include_hidden);
        let e = entries.last();
        let path = prefix.push(e.name);
        if !is_visible(e.name, include_hidden) {
            before
        } else if e.metadata.kind == EntryKind::Symlink {
            before.push(paths::shown_path(path))
        } else if goes_into(e.metadata, depth, max_depth) {
            before + left_out(e.entries, path, depth + 1, max_depth, include_hidden)
        } else {
            before
        }
    }
}

/// Whether the entries in an entry of a directory are needed for the tree.
pub fn enters(
    name: &str,
    m: &FileMetadata,
    depth: usize,
    max_depth: usize,
    include_hidden: bool,
) -> (r: bool)
    requires
        depth < max_depth,
    ensures
        r == (is_visible(name@, include_hidden) && goes_into(*m, depth as nat, max_depth as nat)),
{
    entry_is_visible(name, include_hidden) && is_directory(m.kind) && depth + 1 < max_depth
}

/// The tree of the entries of a directory at depth `depth`, whose path is `prefix`. The paths of
/// the symlinks that it leaves out are appended to `skipped`.
pub fn build_tree(
    entries: &Vec<RawEntry>,
    prefix: &RelativePath,
    depth: usize,
    max_depth: usize,
    include_hidden: bool,
    skipped: &mut Vec<String>,
) -> (r: Vec<FileNode>)
    requires
        depth < max_depth,
    ensures
        node_models(r@) == tree(
            entry_models(entries@),
            prefix@,
            depth as nat,
            max_depth as nat,
            include_hidden,
        ),
        text::strings(final(skipped)@) == text::strings(old(skipped)@) + left_out(
            entry_models(entries@),
            prefix@,
            depth as nat,
            max_depth as nat,
            include_hidden,
        ),
    decreases max_depth - depth,
{
    let ghost all = entry_models(entries@);
    let ghost before_all = text::strings(skipped@);
    let (d, m): (usize, usize) = (depth, max_depth);
    proof {
        lemma_entry_models(entries@);
    }
    let mut nodes: Vec<FileNode> = Vec::new();
    let mut i: usize = 0;
    assert(before_all + left_out(all.take(0), prefix@, d as nat, m as nat, include_hidden)
        =~= before_all);
    while i < entries.len()
        invariant
            i <= entries@.len(),
            d == depth,
            m == max_depth,
            d < m,
            all == entry_models(entries@),
            all.len() == entries@.len(),
            forall|k: int| 0 <= k < all.len() ==> #[trigger] all[k] == entry_model(entries@[k]),
            order::models(nodes@) == tree_nodes(
                all.take(i as int),
                prefix@,
                d as nat,
                m as nat,
                include_hidden,
            ),
            text::strings(skipped@) == before_all + left_out(
                all.take(i as int),
                prefix@,
                d as nat,
                m as nat,
                include_hidden,
            ),
        decreases entries@.len() - i,
    {
        let entry: &RawEntry = &entries[i];
        let ghost e = all[i as int];
        let ghost models0 = order::models(nodes@);
        let ghost skipped0 = text::strings(skipped@);
        let ghost listed0 = left_out(
            all.take(i as int),
            prefix@,
            d as nat,
            m as nat,
            include_hidden,
        );
        proof {
            assert(e == entry_model(*entry));
            assert(all.take(i + 1).drop_last() =~= all.take(i as int));
            assert(all.take(i + 1).last() == e);
        }
        if entry_is_visible(entry.name.as_str(), include_hidden) {
            let path = prefix.join(entry.name.as_str());
            match entry.metadata.kind {
                EntryKind::Symlink => {
                    let shown = path.browser_relative_path();
                    let ghost text_of = shown@;
                    skipped.push(shown);
                    assert(text::strings(skipped@) =~= skipped0.push(text_of));
                    assert(skipped0.push(text_of) =~= before_all + listed0.push(text_of));
                },
                _ => {
                    let is_dir = is_directory(entry.metadata.kind);
                    let children: Option<Vec<FileNode>> = if is_dir && d + 1 < m {
                        let inner = build_tree(
                            &entry.entries,
                            &path,
                            d + 1,
                            m,
                            include_hidden,
                            skipped,
                        );
                        proof {
                            lemma_node_models(inner@);
                            assert(text::strings(skipped@) =~= before_all + (listed0 + left_out(
                                e.entries,
                                path@,
                                (d + 1) as nat,
                                m as nat,
                                include_hidden,
                            )));
                        }
                        if inner.len() == 0 {
                            None
                        } else {
                            Some(inner)
                        }
                    } else {
                        None
                    };
                    let node = FileNode {
                        name: entry.name.as_str().to_string(),
                        path: path.browser_relative_path(),
                        is_dir,
                        size: size_of(&entry.metadata),
                        modified_at_ms: entry.metadata.modified_at_ms,
                        version: metadata_version(&entry.metadata),
                        children,
                    };
                    let ghost model = node.model();
                    assert(model == tree_node(e, prefix@, d as nat, m as nat, include_hidden));
                    nodes.push(node);
                    assert(order::models(nodes@) =~= models0.push(model));
                },
            }
        }
        i += 1;
    }
    assert(all.take(all.len() as int) =~= all);
    let r = order::sort(nodes);
    proof {
        lemma_node_models(r@);
        assert(order::models(r@) =~= node_models(r@));
    }
    r
}

/// The answer to a request for the tree of files.
pub fn answer_tree(path: &RelativePath, nodes: Vec<FileNode>, skipped_symlinks: Vec<String>) -> (r:
    FileTreeResponse)
    ensures
        r.ok,
        r.path@ == paths::shown_path(path@),
        r.nodes == nodes,
        r.skipped_symlinks == skipped_symlinks,
{
    FileTreeResponse { ok: true, path: path.browser_relative_path(), nodes, skipped_symlinks }
}

/// No node of a tree is a symlink: every node stands for an entry that is none.
pub proof fn lemma_tree_shows_no_symlink(
    entries: Seq<Entry>,
    prefix: Seq<Seq<char>>,
    depth: nat,
    max_depth: nat,
    include_hidden: bool,
)
    ensures
        forall|k: int|
            0 <= k < tree(entries, prefix, depth, max_depth, include_hidden).len() ==> exists|
                i: int,
            |
                0 <= i < entries.len() && (#[trigger] entries[i]).metadata.kind
                    != EntryKind::Symlink && is_visible(entries[i].name, include_hidden)
                    && (#[trigger] tree(entries, prefix, depth, max_depth, include_hidden)[k])
                    == tree_node(entries[i], prefix, depth, max_depth, include_hidden),
{
    let unsorted = tree_nodes(entries, prefix, depth, max_depth, include_hidden);
    let all = tree(entries, prefix, depth, max_depth, include_hidden);
    order::lemma_sorted_list_contains(unsorted);
    lemma_tree_nodes(entries, prefix, depth, max_depth, include_hidden);
    assert forall|k: int| 0 <= k < all.len() implies exists|i: int|
        0 <= i < entries.len() && (#[trigger] entries[i]).metadata.kind != EntryKind::Symlink
            && is_visible(entries[i].name, include_hidden) && (#[trigger] all[k]) == tree_node(
            entries[i],
            prefix,
            depth,
            max_depth,
            include_hidden,
        ) by {
        assert(order::sorted_list(unsorted).contains(all[k]));
        assert(unsorted.contains(all[k]));
        let j = choose|j: int| 0 <= j < unsorted.len() && unsorted[j] == all[k];
        assert(unsorted[j] == all[k]);
    }
}

/// Every node of a directory stands for an entry of it that is no symlink.
proof fn lemma_tree_nodes(
    entries: Seq<Entry>,
    prefix: Seq<Seq<char>>,
    depth: nat,
    max_depth: nat,
    include_hidden: bool,
)
    ensures
        forall|k: int|
            0 <= k < tree_nodes(entries, prefix, depth, max_depth, include_hidden).len() ==> exists|
                i: int,
            |
                0 <= i < entries.len() && (#[trigger] entries[i]).metadata.kind
                    != EntryKind::Symlink && is_visible(entries[i].name, include_hidden) && (
                #[trigger] tree_nodes(entries, prefix, depth, max_depth, include_hidden)[k])
                    == tree_node(entries[i], prefix, depth, max_depth, include_hidden),
    decreases entries.len(),
{
    if entries.len() > 0 {
        let rest = entries.drop_last();
        let all = tree_nodes(entries, prefix, depth, max_depth, include_hidden);
        let before = tree_nodes(rest, prefix, depth, max_depth, include_hidden);
        lemma_tree_nodes(rest, prefix, depth, max_depth, include_hidden);
        assert forall|k: int| 0 <= k < all.len() implies exists|i: int|
            0 <= i < entries.len() && (#[trigger] entries[i]).metadata.kind != EntryKind::Symlink
                && is_visible(entries[i].name, include_hidden) && (#[trigger] all[k]) == tree_node(
                entries[i],
                prefix,
                depth,
                max_depth,
                include_hidden,
            ) by {
            if k < before.len() {
                assert(all[k] == before[k]);
                let i = choose|i: int|
                    0 <= i < rest.len() && (#[trigger] rest[i]).metadata.kind != EntryKind::Symlink
                        && is_visible(rest[i].name, include_hidden) && before[k] == tree_node(
                        rest[i],
                        prefix,
                        depth,
                        max_depth,
                        include_hidden,
                    );
                assert(entries[i] == rest[i]);
            } else {
                assert(entries[entries.len() - 1] == entries.last());
            }
        }
    }
}

// ---------------------------------------------------------------------------------------
// Symlinks in a directory
// ---------------------------------------------------------------------------------------

/// Whether something of the given kind stands at a path below a directory with the given entries.
pub open spec fn stands_at(entries: Seq<Entry>, path: Seq<Seq<char>>, kind: EntryKind) -> bool
    decreases path.len(),
{
    path.len() > 0 && exists|i: int|
        0 <= i < entries.len() && (#[trigger] entries[i]).name == path[0] && if path.len() == 1 {
            entries[i].metadata.kind == kind
        } else {
            entries[i].metadata.kind == EntryKind::Directory && stands_at(
                entries[i].entries,
                path.subrange(1, path.len() as int),
                kind,
            )
        }
}

/// The paths of the symlinks below the directory with the path `prefix`, in the order of the
/// entries.
pub open spec fn symlinks(entries: Seq<Entry>, prefix: Seq<Seq<char>>) -> Seq<Seq<char>>
    decreases entries,
{
    if entries.len() == 0 {
        Seq::empty()
    } else {
        let before = symlinks(entries.drop_last(), prefix);
        let e = entries.last();
        let path = prefix.push(e.name);
        match e.metadata.kind {
            EntryKind::Symlink => before.push(paths::shown_path(path)),
            EntryKind::Directory => before + symlinks(e.entries, path),
            _ => before,
        }
    }
}

/// The path of the first symlink below the directory with the path `prefix`, where there is one.
pub fn first_symlink_in_tree(entries: &Vec<RawEntry>, prefix: &RelativePath) -> (r: Option<String>)
    ensures
        match r {
            Some(path) => symlinks(entry_models(entries@), prefix@).len() > 0 && path@ == symlinks(
                entry_models(entries@),
                prefix@,
            )[0],
            None => symlinks(entry_models(entries@), prefix@).len() == 0,
        },
    decreases entries@,
{
    let ghost all = entry_models(entries@);
    proof {
        lemma_entry_models(entries@);
    }
    let mut i: usize = 0;
    while i < entries.len()
        invariant
            i <= entries@.len(),
            all == entry_models(entries@),
            all.len() == entries@.len(),
            forall|k: int| 0 <= k < all.len() ==> #[trigger] all[k] == entry_model(entries@[k]),
            symlinks(all.take(i as int), prefix@).len() == 0,
        decreases entries@.len() - i,
    {
        let entry: &RawEntry = &entries[i];
        let path = prefix.join(entry.name.as_str());
        proof {
            assert(all[i as int] == entry_model(*entry));
            assert(all.take(i + 1).drop_last() =~= all.take(i as int));
            lemma_first_symlink(all, prefix@, i + 1);
            assert(decreases_to!(entries@ => entries@[i as int].entries@));
        }
        match entry.metadata.kind {
            EntryKind::Symlink => {
                return Some(path.browser_relative_path());
            },
            EntryKind::Directory => {
                match first_symlink_in_tree(&entry.entries, &path) {
                    Some(found) => {
                        return Some(found);
                    },
                    None => {},
                }
            },
            _ => {},
        }
        i += 1;
    }
    assert(all.take(all.len() as int) =~= all);
    None
}

/// The first symlink below some of the entries is the first one below all of them.
proof fn lemma_first_symlink(entries: Seq<Entry>, prefix: Seq<Seq<char>>, k: int)
    requires
        0 <= k <= entries.len(),
    ensures
        symlinks(entries.take(k), prefix).len() > 0 ==> symlinks(entries, prefix).len() > 0
            && symlinks(entries, prefix)[0] == symlinks(entries.take(k), prefix)[0],
    decreases entries.len() - k,
{
    if k == entries.len() {
        assert(entries.take(k) =~= entries);
    } else {
        assert(entries.take(k + 1).drop_last() =~= entries.take(k));
        lemma_first_symlink(entries, prefix, k + 1);
    }
}

/// The search for symlinks misses none: a directory below which nothing is found has no symlink
/// at any path below it.
pub proof fn lemma_symlinks_complete(
    entries: Seq<Entry>,
    prefix: Seq<Seq<char>>,
    path: Seq<Seq<char>>,
)
    requires
        stands_at(entries, path, EntryKind::Symlink),
    ensures
        symlinks(entries, prefix).contains(paths::shown_path(prefix + path)),
    decreases entries, path.len(),
{
    let i = choose|i: int|
        0 <= i < entries.len() && (#[trigger] entries[i]).name == path[0] && if path.len() == 1 {
            entries[i].metadata.kind == EntryKind::Symlink
        } else {
            entries[i].metadata.kind == EntryKind::Directory && stands_at(
                entries[i].entries,
                path.subrange(1, path.len() as int),
                EntryKind::Symlink,
            )
        };
    let before = symlinks(entries.drop_last(), prefix);
    let all = symlinks(entries, prefix);
    let wanted = paths::shown_path(prefix + path);
    if i == entries.len() - 1 {
        let e = entries.last();
        let at = prefix.push(e.name);
        if path.len() == 1 {
            assert(prefix + path =~= at);
            assert(all[before.len() as int] == wanted);
        } else {
            let rest = path.subrange(1, path.len() as int);
            lemma_symlinks_complete(e.entries, at, rest);
            assert(at + rest =~= prefix + path);
            let k = choose|k: int|
                0 <= k < symlinks(e.entries, at).len() && symlinks(e.entries, at)[k] == wanted;
            assert(all[before.len() + k] == wanted);
        }
    } else {
        assert(entries.drop_last()[i] == entries[i]);
        lemma_symlinks_complete(entries.drop_last(), prefix, path);
        let k = choose|k: int| 0 <= k < before.len() && before[k] == wanted;
        assert(all[k] == wanted);
    }
}

} // verus!
