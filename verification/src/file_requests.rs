//! Requests about the files of a project, step by step.
//!
//! A request that changes files takes several steps at the file system, and each depends on what
//! came of the ones before. A request in progress says what is to be done next, [`FileWork`], and
//! is told what came of it, [`FileEvent`].

use crate::files;
use crate::files::{
    EntryKind, FileDeleteResponse, FileMetadata, FileServiceError, FileWriteResponse, Lookup,
    NameStep, RawEntry, Upload, UploadFileRequest, UploadFileResponse, WriteFileRequest,
};
use crate::paths;
use crate::paths::RelativePath;
use crate::text;
use vstd::prelude::*;

verus! {

/// What is to be done next. The paths are those of the project.
#[derive(Debug, Clone, PartialEq, Eq)]
pub enum FileWork<P> {
    /// The names of the path are looked for one after the other.
    Look(P),
    /// The directory at the path is made, and those above it.
    MakeDirectory(P),
    /// The time is read.
    ReadClock,
    /// A new file is made at the path and filled.
    Create(P),
    /// What stands at the first path is moved to the second one.
    Move(P, P),
    /// The file at the path is removed, whatever comes of it.
    Discard(P),
    /// The directory at the path is read, and so are those in it.
    ReadTree(P),
    /// The digest of the file at the path is computed.
    Digest(P),
    /// Nothing, for the request is answered.
    Nothing,
}

impl View for FileWork<RelativePath> {
    type V = FileWork<Seq<Seq<char>>>;

    open spec fn view(&self) -> FileWork<Seq<Seq<char>>> {
        match self {
            FileWork::Look(path) => FileWork::Look(path@),
            FileWork::MakeDirectory(path) => FileWork::MakeDirectory(path@),
            FileWork::ReadClock => FileWork::ReadClock,
            FileWork::Create(path) => FileWork::Create(path@),
            FileWork::Move(from, to) => FileWork::Move(from@, to@),
            FileWork::Discard(path) => FileWork::Discard(path@),
            FileWork::ReadTree(path) => FileWork::ReadTree(path@),
            FileWork::Digest(path) => FileWork::Digest(path@),
            FileWork::Nothing => FileWork::Nothing,
        }
    }
}

/// What came of a piece of work.
pub enum FileEvent {
    /// What looking for the names came to.
    Looked(Vec<Lookup>),
    /// It was done.
    Done,
    /// The time in milliseconds.
    Time(u64),
    /// The entries of the directory.
    Tree(Vec<RawEntry>),
    /// The digest.
    Digest(String),
    /// It failed.
    Failed(String),
}

/// The error of a request for which a piece of work did not come to what it should.
pub open spec fn event_error(event: FileEvent) -> files::FileError {
    match event {
        FileEvent::Failed(reason) => files::FileError::Internal(reason@),
        _ => files::FileError::Internal("a step of the request came to something else"@),
    }
}

/// The error of a request for which a piece of work did not come to what it should.
fn error_of(event: FileEvent) -> (r: FileServiceError)
    ensures
        r@ == event_error(event),
{
    match event {
        FileEvent::Failed(reason) => FileServiceError::Internal(reason),
        _ => FileServiceError::Internal(
            "a step of the request came to something else".to_string(),
        ),
    }
}

/// What stands at a path, where the event is that its names were looked for.
pub open spec fn looked(path: Seq<Seq<char>>, event: FileEvent, require_exists: bool) -> Result<
    Option<FileMetadata>,
    files::FileError,
> {
    match event {
        FileEvent::Looked(lookups) => files::path_found(path, lookups@, require_exists),
        _ => Err(event_error(event)),
    }
}

/// What stands at a path, where the event is that its names were looked for.
fn take_look(path: &RelativePath, event: FileEvent, require_exists: bool) -> (r: Result<
    Option<FileMetadata>,
    FileServiceError,
>)
    ensures
        files::found_result(r) == looked(path@, event, require_exists),
{
    match event {
        FileEvent::Looked(lookups) => files::inspect_project_path(path, &lookups, require_exists),
        event => Err(error_of(event)),
    }
}

/// What stands at a path that must be there.
pub open spec fn looked_present(path: Seq<Seq<char>>, event: FileEvent) -> Result<
    FileMetadata,
    files::FileError,
> {
    match looked(path, event, true) {
        Err(e) => Err(e),
        Ok(None) => Err(files::FileError::NotFound("File path was not found"@)),
        Ok(Some(m)) => Ok(m),
    }
}

/// What the result of looking for a path that must be there stands for.
pub open spec fn present_result(r: Result<FileMetadata, FileServiceError>) -> Result<
    FileMetadata,
    files::FileError,
> {
    match r {
        Ok(m) => Ok(m),
        Err(e) => Err(e@),
    }
}

/// What stands at a path that must be there.
fn take_present(path: &RelativePath, event: FileEvent) -> (r: Result<
    FileMetadata,
    FileServiceError,
>)
    ensures
        present_result(r) == looked_present(path@, event),
{
    match take_look(path, event, true) {
        Err(e) => Err(e),
        Ok(None) => Err(FileServiceError::not_found("File path was not found")),
        Ok(Some(m)) => Ok(m),
    }
}

/// Why a path is no directory that is there, where it is not.
pub open spec fn directory_error(
    path: Seq<Seq<char>>,
    event: FileEvent,
    message: Seq<char>,
) -> Option<files::FileError> {
    match looked_present(path, event) {
        Err(e) => Some(e),
        Ok(m) => if m.kind == EntryKind::Directory {
            None
        } else {
            Some(files::FileError::InvalidInput(message))
        },
    }
}

/// Why a path is no directory that is there, where it is not.
fn take_directory(path: &RelativePath, event: FileEvent, message: &str) -> (r: Option<
    FileServiceError,
>)
    ensures
        match r {
            Some(e) => directory_error(path@, event, message@) == Some(e@),
            None => directory_error(path@, event, message@) is None,
        },
{
    match take_present(path, event) {
        Err(e) => Some(e),
        Ok(m) => match files::require_directory(&m, message) {
            Ok(_) => None,
            Err(e) => Some(e),
        },
    }
}

// ---------------------------------------------------------------------------------------
// Reading
// ---------------------------------------------------------------------------------------

/// Finds the file at a path, which must be there and be no directory.
pub fn find_file(path: &RelativePath, lookups: &Vec<Lookup>, message: &str) -> (r: Result<
    FileMetadata,
    FileServiceError,
>)
    ensures
        present_result(r) == (match files::path_found(path@, lookups@, true) {
            Err(e) => Err(e),
            Ok(None) => Err(files::FileError::NotFound("File path was not found"@)),
            Ok(Some(m)) => if m.kind == EntryKind::Directory {
                Err(files::FileError::InvalidInput(message@))
            } else {
                Ok(m)
            },
        }),
{
    match files::inspect_project_path(path, lookups, true) {
        Err(e) => Err(e),
        Ok(None) => Err(FileServiceError::not_found("File path was not found")),
        Ok(Some(m)) => match files::refuse_directory(&m, message) {
            Ok(_) => Ok(m),
            Err(e) => Err(e),
        },
    }
}

/// Finds the directory at a path, which must be there and be one.
pub fn find_directory(path: &RelativePath, lookups: &Vec<Lookup>, message: &str) -> (r: Result<
    FileMetadata,
    FileServiceError,
>)
    ensures
        present_result(r) == (match files::path_found(path@, lookups@, true) {
            Err(e) => Err(e),
            Ok(None) => Err(files::FileError::NotFound("File path was not found"@)),
            Ok(Some(m)) => if m.kind == EntryKind::Directory {
                Ok(m)
            } else {
                Err(files::FileError::InvalidInput(message@))
            },
        }),
{
    match files::inspect_project_path(path, lookups, true) {
        Err(e) => Err(e),
        Ok(None) => Err(FileServiceError::not_found("File path was not found")),
        Ok(Some(m)) => match files::require_directory(&m, message) {
            Ok(_) => Ok(m),
            Err(e) => Err(e),
        },
    }
}

// ---------------------------------------------------------------------------------------
// Writing
// ---------------------------------------------------------------------------------------

/// How far a request to write a file is done.
pub enum WriteStage<P, E, A> {
    /// The directory of the file is looked for.
    LookParent,
    /// The directory of the file is made.
    MakeParent,
    /// The directory of the file is looked for again.
    LookParentAgain,
    /// The file is looked for.
    LookTarget,
    /// The time is read, for the name of the file that is written first.
    ReadClock,
    /// The file that is written first is looked for.
    LookTemporary(P),
    /// The file that is written first is made.
    Create(P),
    /// The file that is written first takes the place of the file.
    Replace(P),
    /// The file that was written first is removed because of the error.
    Discard(P, E),
    /// The file is looked for again.
    LookWritten,
    /// The file is written.
    Written(A),
    /// The file is not written because of the error.
    Failed(E),
}

/// A request to write a file.
pub struct WriteFile {
    pub path: RelativePath,
    pub contents: String,
    pub expected_version: Option<String>,
    pub stage: WriteStage<RelativePath, FileServiceError, FileWriteResponse>,
}

/// What a request to write a file stands for.
pub struct Writing {
    pub path: Seq<Seq<char>>,
    pub contents: Seq<char>,
    pub expected_version: Option<Seq<char>>,
    pub stage: WriteStage<Seq<Seq<char>>, files::FileError, files::WriteAnswer>,
}

impl View for WriteFile {
    type V = Writing;

    open spec fn view(&self) -> Writing {
        Writing {
            path: self.path@,
            contents: self.contents@,
            expected_version: text::optional(self.expected_version),
            stage: match self.stage {
                WriteStage::LookParent => WriteStage::LookParent,
                WriteStage::MakeParent => WriteStage::MakeParent,
                WriteStage::LookParentAgain => WriteStage::LookParentAgain,
                WriteStage::LookTarget => WriteStage::LookTarget,
                WriteStage::ReadClock => WriteStage::ReadClock,
                WriteStage::LookTemporary(path) => WriteStage::LookTemporary(path@),
                WriteStage::Create(path) => WriteStage::Create(path@),
                WriteStage::Replace(path) => WriteStage::Replace(path@),
                WriteStage::Discard(path, e) => WriteStage::Discard(path@, e@),
                WriteStage::LookWritten => WriteStage::LookWritten,
                WriteStage::Written(answer) => WriteStage::Written(answer@),
                WriteStage::Failed(e) => WriteStage::Failed(e@),
            },
        }
    }
}

/// The work of a request to write a file.
pub open spec fn write_work(w: Writing) -> FileWork<Seq<Seq<char>>> {
    match w.stage {
        WriteStage::LookParent | WriteStage::LookParentAgain => FileWork::Look(
            paths::parent(w.path),
        ),
        WriteStage::MakeParent => FileWork::MakeDirectory(paths::parent(w.path)),
        WriteStage::LookTarget | WriteStage::LookWritten => FileWork::Look(w.path),
        WriteStage::ReadClock => FileWork::ReadClock,
        WriteStage::LookTemporary(path) => FileWork::Look(path),
        WriteStage::Create(path) => FileWork::Create(path),
        WriteStage::Replace(path) => FileWork::Move(path, w.path),
        WriteStage::Discard(path, _) => FileWork::Discard(path),
        WriteStage::Written(_) | WriteStage::Failed(_) => FileWork::Nothing,
    }
}

/// The bytes of the file that is to be made, where one is: the contents of the request in UTF-8.
pub open spec fn write_bytes(w: Writing) -> Option<Seq<u8>> {
    match w.stage {
        WriteStage::Create(_) => Some(vstd::utf8::encode_utf8(w.contents)),
        _ => None,
    }
}

/// Where a request to write a file starts.
pub open spec fn write_start(
    path: Seq<Seq<char>>,
    contents: Seq<char>,
    expected_version: Option<Seq<char>>,
) -> Writing {
    Writing { path, contents, expected_version, stage: WriteStage::LookParent }
}

/// How far a request to write a file is done after a piece of work.
pub open spec fn write_next(w: Writing, event: FileEvent) -> WriteStage<
    Seq<Seq<char>>,
    files::FileError,
    files::WriteAnswer,
> {
    match w.stage {
        WriteStage::LookParent => match looked(paths::parent(w.path), event, false) {
            Err(e) => WriteStage::Failed(e),
            Ok(_) => WriteStage::MakeParent,
        },
        WriteStage::MakeParent => match event {
            FileEvent::Done => WriteStage::LookParentAgain,
            _ => WriteStage::Failed(event_error(event)),
        },
        WriteStage::LookParentAgain => match directory_error(
            paths::parent(w.path),
            event,
            "Path parent is not a directory"@,
        ) {
            Some(e) => WriteStage::Failed(e),
            None => WriteStage::LookTarget,
        },
        WriteStage::LookTarget => match looked(w.path, event, false) {
            Err(e) => WriteStage::Failed(e),
            Ok(existing) => match files::write_error(existing, w.expected_version) {
                Some(e) => WriteStage::Failed(e),
                None => WriteStage::ReadClock,
            },
        },
        WriteStage::ReadClock => match event {
            FileEvent::Time(millis) => WriteStage::LookTemporary(files::temporary(w.path, millis)),
            _ => WriteStage::Failed(event_error(event)),
        },
        WriteStage::LookTemporary(path) => match looked(path, event, false) {
            Err(e) => WriteStage::Failed(e),
            Ok(Some(_)) => WriteStage::Failed(
                files::FileError::Conflict("Could not find an available temporary filename"@),
            ),
            Ok(None) => WriteStage::Create(path),
        },
        WriteStage::Create(path) => match event {
            FileEvent::Done => WriteStage::Replace(path),
            _ => WriteStage::Discard(path, event_error(event)),
        },
        WriteStage::Replace(path) => match event {
            FileEvent::Done => WriteStage::LookWritten,
            _ => WriteStage::Discard(path, event_error(event)),
        },
        WriteStage::Discard(_, e) => WriteStage::Failed(e),
        WriteStage::LookWritten => match looked_present(w.path, event) {
            Err(e) => WriteStage::Failed(e),
            Ok(m) => WriteStage::Written(files::write_answer(w.path, m)),
        },
        WriteStage::Written(_) | WriteStage::Failed(_) => w.stage,
    }
}

impl WriteFile {
    /// Begins to answer a request to write a file. A path that leads out of the project is
    /// refused.
    pub fn begin(request: WriteFileRequest) -> (r: Result<WriteFile, FileServiceError>)
        ensures
            match files::cleaned(request.path@, false) {
                Ok(names) => r matches Ok(w) && w@ == write_start(
                    names,
                    request.contents@,
                    text::optional(request.expected_version),
                ),
                Err(e) => r matches Err(f) && f@ == e,
            },
    {
        match files::clean_relative_path(request.path.as_str(), false) {
            Ok(path) => Ok(
                WriteFile {
                    path,
                    contents: request.contents,
                    expected_version: request.expected_version,
                    stage: WriteStage::LookParent,
                },
            ),
            Err(e) => Err(e),
        }
    }

    /// The bytes of the file that is to be made: the contents of the request.
    pub fn bytes(&self) -> (r: Option<&[u8]>)
        ensures
            match write_bytes(self@) {
                Some(bytes) => r matches Some(given) && given@ == bytes,
                None => r is None,
            },
    {
        match &self.stage {
            WriteStage::Create(_) => Some(self.contents.as_str().as_bytes()),
            _ => None,
        }
    }

    /// What is to be done next.
    pub fn work(&self) -> (r: FileWork<RelativePath>)
        ensures
            r@ == write_work(self@),
    {
        match &self.stage {
            WriteStage::LookParent => FileWork::Look(self.path.parent()),
            WriteStage::LookParentAgain => FileWork::Look(self.path.parent()),
            WriteStage::MakeParent => FileWork::MakeDirectory(self.path.parent()),
            WriteStage::LookTarget => FileWork::Look(self.path.copy()),
            WriteStage::LookWritten => FileWork::Look(self.path.copy()),
            WriteStage::ReadClock => FileWork::ReadClock,
            WriteStage::LookTemporary(path) => FileWork::Look(path.copy()),
            WriteStage::Create(path) => FileWork::Create(path.copy()),
            WriteStage::Replace(path) => FileWork::Move(path.copy(), self.path.copy()),
            WriteStage::Discard(path, _) => FileWork::Discard(path.copy()),
            WriteStage::Written(_) => FileWork::Nothing,
            WriteStage::Failed(_) => FileWork::Nothing,
        }
    }

    /// Goes on after a piece of work.
    pub fn advance(self, event: FileEvent) -> (r: WriteFile)
        ensures
            r@ == (Writing { stage: write_next(self@, event), ..self@ }),
    {
        let WriteFile { path, contents, expected_version, stage } = self;
        let stage = match stage {
            WriteStage::LookParent => match take_look(&path.parent(), event, false) {
                Err(e) => WriteStage::Failed(e),
                Ok(_) => WriteStage::MakeParent,
            },
            WriteStage::MakeParent => match event {
                FileEvent::Done => WriteStage::LookParentAgain,
                event => WriteStage::Failed(error_of(event)),
            },
            WriteStage::LookParentAgain => match take_directory(
                &path.parent(),
                event,
                "Path parent is not a directory",
            ) {
                Some(e) => WriteStage::Failed(e),
                None => WriteStage::LookTarget,
            },
            WriteStage::LookTarget => match take_look(&path, event, false) {
                Err(e) => WriteStage::Failed(e),
                Ok(existing) => {
                    let expected: Option<&str> = match &expected_version {
                        Some(version) => Some(version.as_str()),
                        None => None,
                    };
                    match files::check_write(existing, expected) {
                        Err(e) => WriteStage::Failed(e),
                        Ok(_) => WriteStage::ReadClock,
                    }
                },
            },
            WriteStage::ReadClock => match event {
                FileEvent::Time(millis) => WriteStage::LookTemporary(
                    files::temporary_path(&path, millis),
                ),
                event => WriteStage::Failed(error_of(event)),
            },
            WriteStage::LookTemporary(temporary) => match take_look(&temporary, event, false) {
                Err(e) => WriteStage::Failed(e),
                Ok(found) => match files::check_temporary(found.is_some()) {
                    Err(e) => WriteStage::Failed(e),
                    Ok(_) => WriteStage::Create(temporary),
                },
            },
            WriteStage::Create(temporary) => match event {
                FileEvent::Done => WriteStage::Replace(temporary),
                event => WriteStage::Discard(temporary, error_of(event)),
            },
            WriteStage::Replace(temporary) => match event {
                FileEvent::Done => WriteStage::LookWritten,
                event => WriteStage::Discard(temporary, error_of(event)),
            },
            WriteStage::Discard(_, e) => WriteStage::Failed(e),
            WriteStage::LookWritten => match take_present(&path, event) {
                Err(e) => WriteStage::Failed(e),
                Ok(m) => WriteStage::Written(files::answer_write(&path, &m)),
            },
            WriteStage::Written(answer) => WriteStage::Written(answer),
            WriteStage::Failed(e) => WriteStage::Failed(e),
        };
        WriteFile { path, contents, expected_version, stage }
    }
}

/// How far a request to write a file is done after the given events.
pub open spec fn write_run(
    path: Seq<Seq<char>>,
    contents: Seq<char>,
    expected_version: Option<Seq<char>>,
    events: Seq<FileEvent>,
) -> Writing
    decreases events.len(),
{
    if events.len() == 0 {
        write_start(path, contents, expected_version)
    } else {
        let before = write_run(path, contents, expected_version, events.drop_last());
        Writing { stage: write_next(before, events.last()), ..before }
    }
}

/// How many pieces of work have been done before a stage that is not one of failure.
spec fn write_steps(
    stage: WriteStage<Seq<Seq<char>>, files::FileError, files::WriteAnswer>,
) -> nat {
    match stage {
        WriteStage::LookParent => 0,
        WriteStage::MakeParent => 1,
        WriteStage::LookParentAgain => 2,
        WriteStage::LookTarget => 3,
        WriteStage::ReadClock => 4,
        WriteStage::LookTemporary(_) => 5,
        WriteStage::Create(_) => 6,
        WriteStage::Replace(_) => 7,
        WriteStage::LookWritten => 8,
        _ => 9,
    }
}

/// Before a stage that is not one of failure, the file was looked for and may be written, and the
/// file that is written first was not there.
proof fn lemma_write_run(
    path: Seq<Seq<char>>,
    contents: Seq<char>,
    expected_version: Option<Seq<char>>,
    events: Seq<FileEvent>,
)
    ensures
        ({
            let w = write_run(path, contents, expected_version, events);
            let n = write_steps(w.stage);
            &&& w.path == path
            &&& w.contents == contents
            &&& w.expected_version == expected_version
            &&& n < 9 ==> events.len() == n
            &&& 4 <= n < 9 ==> may_write(path, expected_version, events[3])
            &&& (w.stage matches WriteStage::LookTemporary(t) ==> events[4] matches FileEvent::Time(
                millis,
            ) && t == files::temporary(path, millis))
            &&& (w.stage matches WriteStage::Create(t) ==> is_free(t, events[5]) && (
            events[4] matches FileEvent::Time(millis) && t == files::temporary(path, millis)))
            &&& (w.stage matches WriteStage::Replace(t) ==> is_free(t, events[5]) && (
            events[4] matches FileEvent::Time(millis) && t == files::temporary(path, millis)))
        }),
    decreases events.len(),
{
    if events.len() > 0 {
        lemma_write_run(path, contents, expected_version, events.drop_last());
    }
}

/// Whether the event is that the file was looked for and may be written.
pub open spec fn may_write(
    path: Seq<Seq<char>>,
    expected_version: Option<Seq<char>>,
    event: FileEvent,
) -> bool {
    looked(path, event, false) matches Ok(existing) && files::write_error(
        existing,
        expected_version,
    ) is None
}

/// Whether the event is that a path was looked for and nothing stands there.
pub open spec fn is_free(path: Seq<Seq<char>>, event: FileEvent) -> bool {
    looked(path, event, false) == Ok::<Option<FileMetadata>, files::FileError>(None)
}

/// A file is replaced only by a request that knows it: when the file that was written first takes
/// its place, the file was looked for without following a symlink and has the version that the
/// request expects, or was not there and the request expects none. And the file that was written
/// first stands beside it, where nothing stood before.
pub proof fn lemma_write_replaces_only_what_it_knows(
    path: Seq<Seq<char>>,
    contents: Seq<char>,
    expected_version: Option<Seq<char>>,
    events: Seq<FileEvent>,
    from: Seq<Seq<char>>,
    to: Seq<Seq<char>>,
)
    requires
        path.len() > 0,
        write_work(write_run(path, contents, expected_version, events)) == FileWork::Move(from, to),
    ensures
        to == path,
        events.len() == 7,
        may_write(path, expected_version, events[3]),
        is_free(from, events[5]),
        paths::parent(from) == paths::parent(path),
        from != path,
{
    lemma_write_run(path, contents, expected_version, events);
    let millis = events[4]->Time_0;
    let name = "."@ + path.last() + "."@ + text::decimal(millis as nat) + ".tmp"@;
    assert(from == paths::parent(path).push(name));
    assert(paths::parent(from) =~= paths::parent(path));
    reveal_strlit(".");
    assert(name.len() > path.last().len());
    assert(from.last() == name);
}

/// A request that does not write the file leaves no other file behind: once the file that is
/// written first may be there, the request fails only by way of removing it.
pub proof fn lemma_failed_write_leaves_nothing(w: Writing, event: FileEvent)
    requires
        w.stage is Create || w.stage is Replace,
    ensures
        !(write_next(w, event) is Failed),
        write_next(w, event) matches WriteStage::Discard(path, _) ==> write_work(
            Writing { stage: write_next(w, event), ..w },
        ) == FileWork::Discard(path) && (w.stage == WriteStage::<
            Seq<Seq<char>>,
            files::FileError,
            files::WriteAnswer,
        >::Create(path) || w.stage == WriteStage::<
            Seq<Seq<char>>,
            files::FileError,
            files::WriteAnswer,
        >::Replace(path)),
{
}

// ---------------------------------------------------------------------------------------
// What is written
// ---------------------------------------------------------------------------------------

/// The bytes that the files of a project hold, by the paths of the files.
pub type Disk = Map<Seq<Seq<char>>, Seq<u8>>;

/// Whether two states of the files are the same but for two paths.
pub open spec fn same_but_at(a: Disk, b: Disk, p: Seq<Seq<char>>, q: Seq<Seq<char>>) -> bool {
    forall|x: Seq<Seq<char>>|
        x != p && x != q ==> (#[trigger] a.contains_key(x) <==> b.contains_key(x)) && (
        a.contains_key(x) ==> a[x] == b[x])
}

/// Whether the files may come from one state to another by a piece of work with a file. Work that
/// was done did what it is: a new file holds the bytes that it is made with, and a file that is
/// moved keeps its bytes. Work that failed may have changed the files that it is about and no
/// others.
pub open spec fn leads_to(
    before: Disk,
    after: Disk,
    work: FileWork<Seq<Seq<char>>>,
    bytes: Option<Seq<u8>>,
    event: FileEvent,
) -> bool {
    match work {
        FileWork::Create(path) => if event is Done {
            bytes matches Some(bytes) && after == before.insert(path, bytes)
        } else {
            same_but_at(before, after, path, path)
        },
        FileWork::Move(from, to) => if event is Done {
            after == before.remove(from).insert(to, before[from])
        } else {
            same_but_at(before, after, from, to)
        },
        FileWork::Discard(path) => same_but_at(before, after, path, path),
        _ => after == before,
    }
}

/// Whether the files may have been in the given states, one after the other, while a request to
/// write a file was told the given events.
pub open spec fn write_history(
    path: Seq<Seq<char>>,
    contents: Seq<char>,
    expected_version: Option<Seq<char>>,
    events: Seq<FileEvent>,
    disks: Seq<Disk>,
) -> bool
    decreases events.len(),
{
    &&& disks.len() == events.len() + 1
    &&& events.len() > 0 ==> {
        let w = write_run(path, contents, expected_version, events.drop_last());
        &&& write_history(
            path,
            contents,
            expected_version,
            events.drop_last(),
            disks.drop_last(),
        )
        &&& leads_to(
            disks[disks.len() - 2],
            disks.last(),
            write_work(w),
            write_bytes(w),
            events.last(),
        )
    }
}

/// Whether a file holds the contents of a request to write it, and no other file has changed but
/// the one that was written first.
spec fn is_written(
    path: Seq<Seq<char>>,
    contents: Seq<char>,
    events: Seq<FileEvent>,
    first: Disk,
    last: Disk,
) -> bool {
    &&& last.contains_key(path)
    &&& last[path] == vstd::utf8::encode_utf8(contents)
    &&& events.len() >= 5
    &&& events[4] matches FileEvent::Time(millis)
    &&& same_but_at(first, last, path, files::temporary(path, millis))
}

/// What the files hold at each stage of a request to write one.
proof fn lemma_write_history(
    path: Seq<Seq<char>>,
    contents: Seq<char>,
    expected_version: Option<Seq<char>>,
    events: Seq<FileEvent>,
    disks: Seq<Disk>,
)
    requires
        write_history(path, contents, expected_version, events, disks),
    ensures
        ({
            let w = write_run(path, contents, expected_version, events);
            let (first, last) = (disks[0], disks.last());
            &&& write_steps(w.stage) <= 6 ==> last == first
            &&& (w.stage matches WriteStage::Replace(t) ==> last == first.insert(
                t,
                vstd::utf8::encode_utf8(contents),
            ))
            &&& w.stage is LookWritten ==> is_written(path, contents, events, first, last)
            &&& (w.stage matches WriteStage::Written(answer) ==> is_written(
                path,
                contents,
                events,
                first,
                last,
            ) && events.len() >= 9 && (looked_present(path, events[8]) matches Ok(m) && answer
                == files::write_answer(path, m)))
        }),
    decreases events.len(),
{
    lemma_write_run(path, contents, expected_version, events);
    if events.len() > 0 {
        let rest = events.drop_last();
        let (before, after) = (disks[disks.len() - 2], disks.last());
        lemma_write_history(path, contents, expected_version, rest, disks.drop_last());
        lemma_write_run(path, contents, expected_version, rest);
        let w = write_run(path, contents, expected_version, rest);
        assert(disks.drop_last()[0] == disks[0]);
        assert(disks.drop_last().last() == before);
        if rest.len() > 4 {
            assert(rest[4] == events[4]);
        }
        if rest.len() > 8 {
            assert(rest[8] == events[8]);
        }
        if let WriteStage::Replace(t) = w.stage {
            if events.last() is Done {
                let bytes = vstd::utf8::encode_utf8(contents);
                assert(before.remove(t).insert(path, before[t])[path] == bytes);
                assert(is_written(path, contents, events, disks[0], after));
            }
        }
    }
}

/// A file that was written holds exactly the contents of the request: when the request is answered
/// that it is, whatever happened on the way, the file holds them in UTF-8. And no other file has
/// changed but the one that was written first and took its place.
pub proof fn lemma_written_file_holds_the_contents(
    path: Seq<Seq<char>>,
    contents: Seq<char>,
    expected_version: Option<Seq<char>>,
    events: Seq<FileEvent>,
    disks: Seq<Disk>,
)
    requires
        write_history(path, contents, expected_version, events, disks),
        write_run(path, contents, expected_version, events).stage is Written,
    ensures
        disks.last().contains_key(path),
        disks.last()[path] == vstd::utf8::encode_utf8(contents),
        exists|millis: u64|
            same_but_at(
                disks[0],
                disks.last(),
                path,
                #[trigger] files::temporary(path, millis),
            ),
{
    lemma_write_history(path, contents, expected_version, events, disks);
    let millis = events[4]->Time_0;
    assert(same_but_at(disks[0], disks.last(), path, files::temporary(path, millis)));
}

/// A read gives back what a write wrote: the answer about a file that was written tells the same
/// path, version and size as the answer to reading it, which holds the contents that were written.
pub proof fn lemma_read_gives_back_what_was_written(
    path: Seq<Seq<char>>,
    contents: Seq<char>,
    expected_version: Option<Seq<char>>,
    events: Seq<FileEvent>,
    disks: Seq<Disk>,
    answer: files::WriteAnswer,
)
    requires
        write_history(path, contents, expected_version, events, disks),
        write_run(path, contents, expected_version, events).stage == WriteStage::<
            Seq<Seq<char>>,
            files::FileError,
            files::WriteAnswer,
        >::Written(answer),
    ensures
        answer.ok,
        events.len() >= 9,
        looked_present(path, events[8]) matches Ok(m) && files::read_answer(
            path,
            m,
            disks.last()[path],
        ) == Ok::<files::ReadAnswer, files::FileError>(
            files::ReadAnswer { ok: true, file: answer.file, contents },
        ) && (m.kind == EntryKind::File && m.size == vstd::utf8::encode_utf8(contents).len()
            ==> answer.file.size == Some(m.size)),
{
    lemma_write_history(path, contents, expected_version, events, disks);
    vstd::utf8::encode_utf8_valid_utf8(contents);
    vstd::utf8::encode_utf8_decode_utf8(contents);
}

/// A write that is refused changes nothing: where the file that is there is not one that the
/// request knows, the request fails, and the files hold what they held.
pub proof fn lemma_refused_write_changes_nothing(
    path: Seq<Seq<char>>,
    contents: Seq<char>,
    expected_version: Option<Seq<char>>,
    events: Seq<FileEvent>,
    disks: Seq<Disk>,
)
    requires
        write_history(path, contents, expected_version, events, disks),
        events.len() >= 4,
        !may_write(path, expected_version, events[3]),
    ensures
        write_run(path, contents, expected_version, events).stage is Failed,
        disks.last() == disks[0],
    decreases events.len(),
{
    let rest = events.drop_last();
    let w = write_run(path, contents, expected_version, rest);
    lemma_write_run(path, contents, expected_version, rest);
    assert(disks.drop_last()[0] == disks[0]);
    assert(disks.drop_last().last() == disks[disks.len() - 2]);
    if events.len() == 4 {
        lemma_unchanged_at_first(path, contents, expected_version, rest, disks.drop_last());
    } else {
        assert(rest[3] == events[3]);
        lemma_refused_write_changes_nothing(
            path,
            contents,
            expected_version,
            rest,
            disks.drop_last(),
        );
    }
}

/// The first three pieces of work of a request to write a file change no file.
proof fn lemma_unchanged_at_first(
    path: Seq<Seq<char>>,
    contents: Seq<char>,
    expected_version: Option<Seq<char>>,
    events: Seq<FileEvent>,
    disks: Seq<Disk>,
)
    requires
        write_history(path, contents, expected_version, events, disks),
        events.len() <= 3,
    ensures
        ({
            let w = write_run(path, contents, expected_version, events);
            write_steps(w.stage) <= 3 || w.stage is Failed
        }),
        disks.last() == disks[0],
    decreases events.len(),
{
    if events.len() > 0 {
        let rest = events.drop_last();
        lemma_unchanged_at_first(path, contents, expected_version, rest, disks.drop_last());
        lemma_write_run(path, contents, expected_version, rest);
        assert(disks.drop_last()[0] == disks[0]);
        assert(disks.drop_last().last() == disks[disks.len() - 2]);
    }
}

// ---------------------------------------------------------------------------------------
// Deleting
// ---------------------------------------------------------------------------------------

/// How far a request to delete a file is done.
pub enum DeleteStage<P, E, A> {
    /// The file is looked for.
    Look,
    /// The directory that was found is searched for a symlink.
    FindSymlink(FileMetadata),
    /// The time is read, for the place in the trash.
    ReadClock,
    /// The place in the trash is looked for that is tried now.
    LookPlace { stamp: u64, index: usize },
    /// The directory of the place in the trash is looked for.
    LookParent(P),
    /// The directory of the place in the trash is made.
    MakeParent(P),
    /// The directory of the place in the trash is looked for again.
    LookParentAgain(P),
    /// The file is moved to its place in the trash.
    Move(P),
    /// The file is in the trash.
    Deleted(A),
    /// The file is not deleted because of the error.
    Failed(E),
}

/// A request to delete a file.
pub struct DeleteFile {
    pub path: RelativePath,
    pub expected_version: Option<String>,
    pub stage: DeleteStage<RelativePath, FileServiceError, FileDeleteResponse>,
}

/// What a request to delete a file stands for.
pub struct Deleting {
    pub path: Seq<Seq<char>>,
    pub expected_version: Option<Seq<char>>,
    pub stage: DeleteStage<Seq<Seq<char>>, files::FileError, files::DeleteAnswer>,
}

impl View for DeleteFile {
    type V = Deleting;

    open spec fn view(&self) -> Deleting {
        Deleting {
            path: self.path@,
            expected_version: text::optional(self.expected_version),
            stage: match self.stage {
                DeleteStage::Look => DeleteStage::Look,
                DeleteStage::FindSymlink(m) => DeleteStage::FindSymlink(m),
                DeleteStage::ReadClock => DeleteStage::ReadClock,
                DeleteStage::LookPlace { stamp, index } => DeleteStage::LookPlace { stamp, index },
                DeleteStage::LookParent(place) => DeleteStage::LookParent(place@),
                DeleteStage::MakeParent(place) => DeleteStage::MakeParent(place@),
                DeleteStage::LookParentAgain(place) => DeleteStage::LookParentAgain(place@),
                DeleteStage::Move(place) => DeleteStage::Move(place@),
                DeleteStage::Deleted(answer) => DeleteStage::Deleted(answer@),
                DeleteStage::Failed(e) => DeleteStage::Failed(e@),
            },
        }
    }
}

/// The work of a request to delete a file.
pub open spec fn delete_work(d: Deleting) -> FileWork<Seq<Seq<char>>> {
    match d.stage {
        DeleteStage::Look => FileWork::Look(d.path),
        DeleteStage::FindSymlink(_) => FileWork::ReadTree(d.path),
        DeleteStage::ReadClock => FileWork::ReadClock,
        DeleteStage::LookPlace { stamp, index } => FileWork::Look(
            files::trash_place(d.path, stamp, index as nat),
        ),
        DeleteStage::LookParent(place) => FileWork::Look(paths::parent(place)),
        DeleteStage::MakeParent(place) => FileWork::MakeDirectory(paths::parent(place)),
        DeleteStage::LookParentAgain(place) => FileWork::Look(paths::parent(place)),
        DeleteStage::Move(place) => FileWork::Move(d.path, place),
        DeleteStage::Deleted(_) | DeleteStage::Failed(_) => FileWork::Nothing,
    }
}

/// The path of the first symlink in the directory at `path`, where there is one.
pub open spec fn first_symlink(path: Seq<Seq<char>>, entries: Seq<RawEntry>) -> Option<Seq<char>> {
    let found = files::symlinks(files::entry_models(entries), path);
    if found.len() > 0 {
        Some(found[0])
    } else {
        None
    }
}

/// What follows a file being found that has the symlink `symlink` in it, or none: it goes to the
/// trash where the request knows it.
pub open spec fn after_search(d: Deleting, m: FileMetadata, symlink: Option<Seq<char>>) -> DeleteStage<
    Seq<Seq<char>>,
    files::FileError,
    files::DeleteAnswer,
> {
    match files::delete_error(m, symlink, d.expected_version) {
        Some(e) => DeleteStage::Failed(e),
        None => DeleteStage::ReadClock,
    }
}

/// How far a request to delete a file is done after a piece of work.
pub open spec fn delete_next(d: Deleting, event: FileEvent) -> DeleteStage<
    Seq<Seq<char>>,
    files::FileError,
    files::DeleteAnswer,
> {
    match d.stage {
        DeleteStage::Look => match looked_present(d.path, event) {
            Err(e) => DeleteStage::Failed(e),
            Ok(m) => if m.kind == EntryKind::Directory {
                DeleteStage::FindSymlink(m)
            } else {
                after_search(d, m, None)
            },
        },
        DeleteStage::FindSymlink(m) => match event {
            FileEvent::Tree(entries) => after_search(d, m, first_symlink(d.path, entries@)),
            _ => DeleteStage::Failed(event_error(event)),
        },
        DeleteStage::ReadClock => match event {
            FileEvent::Time(stamp) => DeleteStage::LookPlace { stamp, index: 0 },
            _ => DeleteStage::Failed(event_error(event)),
        },
        DeleteStage::LookPlace { stamp, index } => {
            let place = files::trash_place(d.path, stamp, index as nat);
            match looked(place, event, false) {
                Err(e) => DeleteStage::Failed(e),
                Ok(found) => match files::next_name(index, found is Some) {
                    NameStep::Take(_) => DeleteStage::LookParent(place),
                    NameStep::Try(next) => DeleteStage::LookPlace { stamp, index: next },
                    NameStep::GiveUp => DeleteStage::Failed(
                        files::FileError::Conflict(
                            "Could not find an available project trash path"@,
                        ),
                    ),
                },
            }
        },
        DeleteStage::LookParent(place) => match looked(paths::parent(place), event, false) {
            Err(e) => DeleteStage::Failed(e),
            Ok(_) => DeleteStage::MakeParent(place),
        },
        DeleteStage::MakeParent(place) => match event {
            FileEvent::Done => DeleteStage::LookParentAgain(place),
            _ => DeleteStage::Failed(event_error(event)),
        },
        DeleteStage::LookParentAgain(place) => match directory_error(
            paths::parent(place),
            event,
            "Path parent is not a directory"@,
        ) {
            Some(e) => DeleteStage::Failed(e),
            None => DeleteStage::Move(place),
        },
        DeleteStage::Move(place) => match event {
            FileEvent::Done => DeleteStage::Deleted(files::delete_answer(d.path, place)),
            _ => DeleteStage::Failed(event_error(event)),
        },
        DeleteStage::Deleted(_) | DeleteStage::Failed(_) => d.stage,
    }
}

impl DeleteFile {
    /// Begins to delete the file at `path`. A path that leads out of the project or into its trash
    /// is refused.
    pub fn begin(path: &str, expected_version: Option<String>) -> (r: Result<
        DeleteFile,
        FileServiceError,
    >)
        ensures
            match files::delete_target(path@) {
                Ok(names) => r matches Ok(d) && d@ == (Deleting {
                    path: names,
                    expected_version: text::optional(expected_version),
                    stage: DeleteStage::Look,
                }),
                Err(e) => r matches Err(f) && f@ == e,
            },
    {
        match files::deletable_path(path) {
            Ok(path) => Ok(DeleteFile { path, expected_version, stage: DeleteStage::Look }),
            Err(e) => Err(e),
        }
    }

    /// What is to be done next.
    pub fn work(&self) -> (r: FileWork<RelativePath>)
        ensures
            r@ == delete_work(self@),
    {
        match &self.stage {
            DeleteStage::Look => FileWork::Look(self.path.copy()),
            DeleteStage::FindSymlink(_) => FileWork::ReadTree(self.path.copy()),
            DeleteStage::ReadClock => FileWork::ReadClock,
            DeleteStage::LookPlace { stamp, index } => FileWork::Look(
                files::trash_candidate(&self.path, *stamp, *index),
            ),
            DeleteStage::LookParent(place) => FileWork::Look(place.parent()),
            DeleteStage::MakeParent(place) => FileWork::MakeDirectory(place.parent()),
            DeleteStage::LookParentAgain(place) => FileWork::Look(place.parent()),
            DeleteStage::Move(place) => FileWork::Move(self.path.copy(), place.copy()),
            DeleteStage::Deleted(_) => FileWork::Nothing,
            DeleteStage::Failed(_) => FileWork::Nothing,
        }
    }

    /// Goes on after a piece of work.
    pub fn advance(self, event: FileEvent) -> (r: DeleteFile)
        ensures
            r@ == (Deleting { stage: delete_next(self@, event), ..self@ }),
    {
        let DeleteFile { path, expected_version, stage } = self;
        let stage = match stage {
            DeleteStage::Look => match take_present(&path, event) {
                Err(e) => DeleteStage::Failed(e),
                Ok(m) => if files::is_directory(m.kind) {
                    DeleteStage::FindSymlink(m)
                } else {
                    decide_delete(&m, None, &expected_version)
                },
            },
            DeleteStage::FindSymlink(m) => match event {
                FileEvent::Tree(entries) => {
                    let symlink = files::first_symlink_in_tree(&entries, &path);
                    decide_delete(&m, symlink, &expected_version)
                },
                event => DeleteStage::Failed(error_of(event)),
            },
            DeleteStage::ReadClock => match event {
                FileEvent::Time(stamp) => DeleteStage::LookPlace { stamp, index: 0 },
                event => DeleteStage::Failed(error_of(event)),
            },
            DeleteStage::LookPlace { stamp, index } => {
                let place = files::trash_candidate(&path, stamp, index);
                match take_look(&place, event, false) {
                    Err(e) => DeleteStage::Failed(e),
                    Ok(found) => match files::after_try(index, found.is_some()) {
                        NameStep::Take(_) => DeleteStage::LookParent(place),
                        NameStep::Try(next) => DeleteStage::LookPlace { stamp, index: next },
                        NameStep::GiveUp => DeleteStage::Failed(files::no_trash_place()),
                    },
                }
            },
            DeleteStage::LookParent(place) => match take_look(&place.parent(), event, false) {
                Err(e) => DeleteStage::Failed(e),
                Ok(_) => DeleteStage::MakeParent(place),
            },
            DeleteStage::MakeParent(place) => match event {
                FileEvent::Done => DeleteStage::LookParentAgain(place),
                event => DeleteStage::Failed(error_of(event)),
            },
            DeleteStage::LookParentAgain(place) => match take_directory(
                &place.parent(),
                event,
                "Path parent is not a directory",
            ) {
                Some(e) => DeleteStage::Failed(e),
                None => DeleteStage::Move(place),
            },
            DeleteStage::Move(place) => match event {
                FileEvent::Done => DeleteStage::Deleted(files::answer_delete(&path, &place)),
                event => DeleteStage::Failed(error_of(event)),
            },
            DeleteStage::Deleted(answer) => DeleteStage::Deleted(answer),
            DeleteStage::Failed(e) => DeleteStage::Failed(e),
        };
        DeleteFile { path, expected_version, stage }
    }
}

/// What follows a file being found that has a symlink in it, or none.
fn decide_delete(m: &FileMetadata, symlink: Option<String>, expected_version: &Option<String>) -> (r:
    DeleteStage<RelativePath, FileServiceError, FileDeleteResponse>)
    ensures
        match files::delete_error(*m, text::optional(symlink), text::optional(*expected_version)) {
            Some(e) => r matches DeleteStage::Failed(f) && f@ == e,
            None => r is ReadClock,
        },
{
    let found: Option<&str> = match &symlink {
        Some(path) => Some(path.as_str()),
        None => None,
    };
    let expected: Option<&str> = match expected_version {
        Some(version) => Some(version.as_str()),
        None => None,
    };
    match files::check_delete(m, found, expected) {
        Ok(_) => DeleteStage::ReadClock,
        Err(e) => DeleteStage::Failed(e),
    }
}

/// How far a request to delete a file is done after the given events.
pub open spec fn delete_run(
    path: Seq<Seq<char>>,
    expected_version: Option<Seq<char>>,
    events: Seq<FileEvent>,
) -> Deleting
    decreases events.len(),
{
    if events.len() == 0 {
        Deleting { path, expected_version, stage: DeleteStage::Look }
    } else {
        let before = delete_run(path, expected_version, events.drop_last());
        Deleting { stage: delete_next(before, events.last()), ..before }
    }
}

/// Whether the first of the events are that the file was found without following a symlink, has no
/// symlink in it where it is a directory, and is one that the request knows.
pub open spec fn may_delete(
    path: Seq<Seq<char>>,
    expected_version: Option<Seq<char>>,
    events: Seq<FileEvent>,
) -> bool {
    &&& events.len() > 0
    &&& looked_present(path, events[0]) matches Ok(m)
    &&& files::delete_error(m, None, expected_version) is None
    &&& m.kind == EntryKind::Directory ==> events.len() > 1 && (
    events[1] matches FileEvent::Tree(entries) && first_symlink(path, entries@) is None)
}

/// Whether a stage comes after the file was found and may be deleted.
spec fn is_cleared(stage: DeleteStage<Seq<Seq<char>>, files::FileError, files::DeleteAnswer>) -> bool {
    !(stage is Look) && !(stage is FindSymlink) && !(stage is Failed)
}

/// The place in the trash that a stage is about.
spec fn place_of(
    stage: DeleteStage<Seq<Seq<char>>, files::FileError, files::DeleteAnswer>,
) -> Option<Seq<Seq<char>>> {
    match stage {
        DeleteStage::LookParent(place)
        | DeleteStage::MakeParent(place)
        | DeleteStage::LookParentAgain(place)
        | DeleteStage::Move(place) => Some(place),
        _ => None,
    }
}

/// Before a stage that comes after the check, the file was found and may be deleted.
proof fn lemma_delete_run(
    path: Seq<Seq<char>>,
    expected_version: Option<Seq<char>>,
    events: Seq<FileEvent>,
)
    ensures
        ({
            let d = delete_run(path, expected_version, events);
            &&& d.path == path
            &&& d.expected_version == expected_version
            &&& d.stage is Look ==> events.len() == 0
            &&& (d.stage matches DeleteStage::FindSymlink(m) ==> events.len() == 1 && m.kind
                == EntryKind::Directory && looked_present(path, events[0]) == Ok::<
                FileMetadata,
                files::FileError,
            >(m))
            &&& is_cleared(d.stage) ==> may_delete(path, expected_version, events)
            &&& (place_of(d.stage) matches Some(place) ==> exists|stamp: u64, index: nat|
                place == #[trigger] files::trash_place(path, stamp, index))
        }),
    decreases events.len(),
{
    if events.len() > 0 {
        let rest = events.drop_last();
        let d = delete_run(path, expected_version, rest);
        lemma_delete_run(path, expected_version, rest);
        if rest.len() > 0 {
            assert(rest[0] == events[0]);
        }
        if rest.len() > 1 {
            assert(rest[1] == events[1]);
        }
        if let DeleteStage::LookPlace { stamp, index } = d.stage {
            assert(files::trash_place(path, stamp, index as nat) == files::trash_place(
                path,
                stamp,
                index as nat,
            ));
        }
    }
}

/// A file is deleted only by a request that knows it, and it is moved to the trash, where it keeps
/// its path: when it is moved, it was found without following a symlink, there is no symlink
/// at any path in it, and it has the version that the request expects, where it expects one.
pub proof fn lemma_delete_moves_to_trash(
    path: Seq<Seq<char>>,
    expected_version: Option<Seq<char>>,
    events: Seq<FileEvent>,
    from: Seq<Seq<char>>,
    to: Seq<Seq<char>>,
)
    requires
        delete_work(delete_run(path, expected_version, events)) == FileWork::Move(from, to),
    ensures
        from == path,
        may_delete(path, expected_version, events),
        (looked_present(path, events[0]) matches Ok(m) && m.kind == EntryKind::Directory) ==> (
        events[1] matches FileEvent::Tree(entries) && forall|below: Seq<Seq<char>>|
            !#[trigger] files::stands_at(
                files::entry_models(entries@),
                below,
                EntryKind::Symlink,
            )),
        to.len() == path.len() + 3,
        to[0] == ".llm-wiki"@,
        to[1] == "trash"@,
        to.skip(3) == path,
{
    lemma_delete_run(path, expected_version, events);
    let (stamp, index) = choose|stamp: u64, index: nat|
        to == #[trigger] files::trash_place(path, stamp, index);
    files::lemma_trash_keeps_path(path, stamp, index);
    if let Ok(m) = looked_present(path, events[0]) {
        if m.kind == EntryKind::Directory {
            if let FileEvent::Tree(entries) = events[1] {
                let all = files::entry_models(entries@);
                assert forall|below: Seq<Seq<char>>| !#[trigger] files::stands_at(
                    all,
                    below,
                    EntryKind::Symlink,
                ) by {
                    if files::stands_at(all, below, EntryKind::Symlink) {
                        files::lemma_symlinks_complete(all, path, below);
                    }
                }
            }
        }
    }
}

// ---------------------------------------------------------------------------------------
// Uploading
// ---------------------------------------------------------------------------------------

/// How far a request to upload files is done.
pub enum UploadStage<P, U, E> {
    /// The directory that the files go to is looked for.
    LookDirectory,
    /// The directory that the files go to is made.
    MakeDirectory,
    /// The directory that the files go to is looked for again.
    LookDirectoryAgain,
    /// It is looked for a file with the name of the uploaded one.
    LookSame(U),
    /// The digest of the file with the name of the uploaded one is computed.
    Digest(U, FileMetadata),
    /// The name is looked for that is tried now.
    LookName(U, usize),
    /// The file is made under a name that is free.
    Create(U, P),
    /// What was made is removed because of the error.
    Discard(P, E),
    /// The file is looked for.
    LookWritten(U, P),
    /// All files are there.
    Uploaded,
    /// The files behind those that are there are not uploaded because of the error.
    Failed(E),
}

/// A request to upload files.
pub struct UploadFiles {
    pub directory: RelativePath,
    pub files: Vec<UploadFileRequest>,
    /// What is answered about the files that are there.
    pub done: Vec<UploadFileResponse>,
    pub stage: UploadStage<RelativePath, Upload, FileServiceError>,
}

/// What a request to upload files stands for.
pub struct Uploading {
    pub directory: Seq<Seq<char>>,
    pub files: Seq<UploadFileRequest>,
    pub done: Seq<files::UploadAnswer>,
    pub stage: UploadStage<Seq<Seq<char>>, files::UploadFacts, files::FileError>,
}

/// What the answers about uploaded files stand for.
pub open spec fn upload_answers(v: Seq<UploadFileResponse>) -> Seq<files::UploadAnswer> {
    v.map_values(|r: UploadFileResponse| r@)
}

impl View for UploadFiles {
    type V = Uploading;

    open spec fn view(&self) -> Uploading {
        Uploading {
            directory: self.directory@,
            files: self.files@,
            done: upload_answers(self.done@),
            stage: match self.stage {
                UploadStage::LookDirectory => UploadStage::LookDirectory,
                UploadStage::MakeDirectory => UploadStage::MakeDirectory,
                UploadStage::LookDirectoryAgain => UploadStage::LookDirectoryAgain,
                UploadStage::LookSame(upload) => UploadStage::LookSame(upload@),
                UploadStage::Digest(upload, m) => UploadStage::Digest(upload@, m),
                UploadStage::LookName(upload, index) => UploadStage::LookName(upload@, index),
                UploadStage::Create(upload, place) => UploadStage::Create(upload@, place@),
                UploadStage::Discard(place, e) => UploadStage::Discard(place@, e@),
                UploadStage::LookWritten(upload, place) => UploadStage::LookWritten(
                    upload@,
                    place@,
                ),
                UploadStage::Uploaded => UploadStage::Uploaded,
                UploadStage::Failed(e) => UploadStage::Failed(e@),
            },
        }
    }
}

/// The path that is tried at try `index` for an uploaded file.
pub open spec fn upload_place(
    directory: Seq<Seq<char>>,
    upload: files::UploadFacts,
    index: nat,
) -> Seq<Seq<char>> {
    directory.push(files::upload_name(upload.file_name, index))
}

/// The work of a request to upload files.
pub open spec fn upload_work(u: Uploading) -> FileWork<Seq<Seq<char>>> {
    match u.stage {
        UploadStage::LookDirectory | UploadStage::LookDirectoryAgain => FileWork::Look(u.directory),
        UploadStage::MakeDirectory => FileWork::MakeDirectory(u.directory),
        UploadStage::LookSame(upload) => FileWork::Look(upload_place(u.directory, upload, 0)),
        UploadStage::Digest(upload, _) => FileWork::Digest(upload_place(u.directory, upload, 0)),
        UploadStage::LookName(upload, index) => FileWork::Look(
            upload_place(u.directory, upload, index as nat),
        ),
        UploadStage::Create(_, place) => FileWork::Create(place),
        UploadStage::Discard(place, _) => FileWork::Discard(place),
        UploadStage::LookWritten(_, place) => FileWork::Look(place),
        UploadStage::Uploaded | UploadStage::Failed(_) => FileWork::Nothing,
    }
}

/// How a request goes on with the file behind the first `k` ones.
pub open spec fn next_file(files: Seq<UploadFileRequest>, k: int) -> UploadStage<
    Seq<Seq<char>>,
    files::UploadFacts,
    files::FileError,
> {
    if k < 0 || k >= files.len() {
        UploadStage::Uploaded
    } else {
        match files::upload_in(files[k]) {
            Ok(upload) => UploadStage::LookSame(upload),
            Err(e) => UploadStage::Failed(e),
        }
    }
}

/// A request with one more file there.
pub open spec fn with_answer(u: Uploading, answer: files::UploadAnswer) -> Uploading {
    Uploading {
        done: u.done.push(answer),
        stage: next_file(u.files, (u.done.len() + 1) as int),
        ..u
    }
}

/// How far a request to upload files is done after a piece of work.
pub open spec fn upload_next(u: Uploading, event: FileEvent) -> Uploading {
    match u.stage {
        UploadStage::LookDirectory => Uploading {
            stage: match looked(u.directory, event, false) {
                Err(e) => UploadStage::Failed(e),
                Ok(_) => UploadStage::MakeDirectory,
            },
            ..u
        },
        UploadStage::MakeDirectory => Uploading {
            stage: match event {
                FileEvent::Done => UploadStage::LookDirectoryAgain,
                _ => UploadStage::Failed(event_error(event)),
            },
            ..u
        },
        UploadStage::LookDirectoryAgain => Uploading {
            stage: match directory_error(
                u.directory,
                event,
                "Upload directory path must be a directory"@,
            ) {
                Some(e) => UploadStage::Failed(e),
                None => next_file(u.files, u.done.len() as int),
            },
            ..u
        },
        UploadStage::LookSame(upload) => Uploading {
            stage: match looked(upload_place(u.directory, upload, 0), event, false) {
                Err(e) => UploadStage::Failed(e),
                Ok(found) => if found matches Some(m) && m.kind == EntryKind::File {
                    UploadStage::Digest(upload, found.unwrap())
                } else {
                    UploadStage::LookName(upload, 0)
                },
            },
            ..u
        },
        UploadStage::Digest(upload, m) => match event {
            FileEvent::Digest(digest) => if digest@ == upload.sha256 {
                with_answer(
                    u,
                    files::upload_answer(upload, upload_place(u.directory, upload, 0), m, true),
                )
            } else {
                Uploading { stage: UploadStage::LookName(upload, 0), ..u }
            },
            _ => Uploading { stage: UploadStage::Failed(event_error(event)), ..u },
        },
        UploadStage::LookName(upload, index) => {
            let place = upload_place(u.directory, upload, index as nat);
            Uploading {
                stage: match looked(place, event, false) {
                    Err(e) => UploadStage::Failed(e),
                    Ok(found) => match files::next_name(index, found is Some) {
                        NameStep::Take(_) => UploadStage::Create(upload, place),
                        NameStep::Try(next) => UploadStage::LookName(upload, next),
                        NameStep::GiveUp => UploadStage::Failed(
                            files::FileError::Conflict(
                                "Could not find an available upload filename"@,
                            ),
                        ),
                    },
                },
                ..u
            }
        },
        UploadStage::Create(upload, place) => Uploading {
            stage: match event {
                FileEvent::Done => UploadStage::LookWritten(upload, place),
                _ => UploadStage::Discard(place, event_error(event)),
            },
            ..u
        },
        UploadStage::Discard(_, e) => Uploading { stage: UploadStage::Failed(e), ..u },
        UploadStage::LookWritten(upload, place) => match looked_present(place, event) {
            Err(e) => Uploading { stage: UploadStage::Failed(e), ..u },
            Ok(m) => with_answer(u, files::upload_answer(upload, place, m, false)),
        },
        UploadStage::Uploaded | UploadStage::Failed(_) => u,
    }
}

/// How a request goes on with the file behind the first `k` ones.
fn begin_file(list: &Vec<UploadFileRequest>, k: usize) -> (r: UploadStage<
    RelativePath,
    Upload,
    FileServiceError,
>)
    ensures
        match next_file(list@, k as int) {
            UploadStage::Uploaded => r is Uploaded,
            UploadStage::LookSame(upload) => r matches UploadStage::LookSame(u) && u@ == upload,
            UploadStage::Failed(e) => r matches UploadStage::Failed(f) && f@ == e,
            _ => false,
        },
{
    if k >= list.len() {
        UploadStage::Uploaded
    } else {
        match files::read_upload(&list[k]) {
            Ok(upload) => UploadStage::LookSame(upload),
            Err(e) => UploadStage::Failed(e),
        }
    }
}

impl UploadFiles {
    /// Begins to upload files. A directory that is not for sources is refused.
    pub fn begin(directory: Option<&str>, files: Vec<UploadFileRequest>) -> (r: Result<
        UploadFiles,
        FileServiceError,
    >)
        ensures
            match files::upload_target(text::optional_str(directory)) {
                Ok(names) => r matches Ok(u) && u@ == (Uploading {
                    directory: names,
                    files: files@,
                    done: Seq::empty(),
                    stage: UploadStage::LookDirectory,
                }),
                Err(e) => r matches Err(f) && f@ == e,
            },
    {
        match files::upload_directory(directory) {
            Ok(directory) => {
                let done: Vec<UploadFileResponse> = Vec::new();
                assert(upload_answers(done@) =~= Seq::empty());
                Ok(UploadFiles { directory, files, done, stage: UploadStage::LookDirectory })
            },
            Err(e) => Err(e),
        }
    }

    /// What is to be done next.
    pub fn work(&self) -> (r: FileWork<RelativePath>)
        ensures
            r@ == upload_work(self@),
    {
        match &self.stage {
            UploadStage::LookDirectory => FileWork::Look(self.directory.copy()),
            UploadStage::LookDirectoryAgain => FileWork::Look(self.directory.copy()),
            UploadStage::MakeDirectory => FileWork::MakeDirectory(self.directory.copy()),
            UploadStage::LookSame(upload) => FileWork::Look(
                files::upload_candidate(&self.directory, upload.file_name.as_str(), 0),
            ),
            UploadStage::Digest(upload, _) => FileWork::Digest(
                files::upload_candidate(&self.directory, upload.file_name.as_str(), 0),
            ),
            UploadStage::LookName(upload, index) => FileWork::Look(
                files::upload_candidate(&self.directory, upload.file_name.as_str(), *index),
            ),
            UploadStage::Create(_, place) => FileWork::Create(place.copy()),
            UploadStage::Discard(place, _) => FileWork::Discard(place.copy()),
            UploadStage::LookWritten(_, place) => FileWork::Look(place.copy()),
            UploadStage::Uploaded => FileWork::Nothing,
            UploadStage::Failed(_) => FileWork::Nothing,
        }
    }

    /// The bytes of the file that is to be made.
    pub fn bytes(&self) -> (r: Option<&Vec<u8>>)
        ensures
            match self@.stage {
                UploadStage::Create(upload, _) => r matches Some(bytes) && bytes@ == upload.bytes,
                _ => r is None,
            },
    {
        match &self.stage {
            UploadStage::Create(upload, _) => Some(&upload.bytes),
            _ => None,
        }
    }

    /// Goes on after a piece of work.
    pub fn advance(self, event: FileEvent) -> (r: UploadFiles)
        ensures
            r@ == upload_next(self@, event),
    {
        let ghost before = self@;
        let UploadFiles { directory, files, done, stage } = self;
        let mut done: Vec<UploadFileResponse> = done;
        let stage = match stage {
            UploadStage::LookDirectory => match take_look(&directory, event, false) {
                Err(e) => UploadStage::Failed(e),
                Ok(_) => UploadStage::MakeDirectory,
            },
            UploadStage::MakeDirectory => match event {
                FileEvent::Done => UploadStage::LookDirectoryAgain,
                event => UploadStage::Failed(error_of(event)),
            },
            UploadStage::LookDirectoryAgain => match take_directory(
                &directory,
                event,
                "Upload directory path must be a directory",
            ) {
                Some(e) => UploadStage::Failed(e),
                None => begin_file(&files, done.len()),
            },
            UploadStage::LookSame(upload) => {
                let place = files::upload_candidate(&directory, upload.file_name.as_str(), 0);
                match take_look(&place, event, false) {
                    Err(e) => UploadStage::Failed(e),
                    Ok(found) => match found {
                        Some(m) => if files::must_compare(Some(m)) {
                            UploadStage::Digest(upload, m)
                        } else {
                            UploadStage::LookName(upload, 0)
                        },
                        None => UploadStage::LookName(upload, 0),
                    },
                }
            },
            UploadStage::Digest(upload, m) => match event {
                FileEvent::Digest(digest) => {
                    let place = files::upload_candidate(&directory, upload.file_name.as_str(), 0);
                    match files::same_upload(&upload, &place, &m, digest.as_str()) {
                        Some(answer) => {
                            let ghost known = answer@;
                            done.push(answer);
                            assert(upload_answers(done@) =~= before.done.push(known));
                            begin_file(&files, done.len())
                        },
                        None => UploadStage::LookName(upload, 0),
                    }
                },
                event => UploadStage::Failed(error_of(event)),
            },
            UploadStage::LookName(upload, index) => {
                let place = files::upload_candidate(
                    &directory,
                    upload.file_name.as_str(),
                    index,
                );
                match take_look(&place, event, false) {
                    Err(e) => UploadStage::Failed(e),
                    Ok(found) => match files::after_try(index, found.is_some()) {
                        NameStep::Take(_) => UploadStage::Create(upload, place),
                        NameStep::Try(next) => UploadStage::LookName(upload, next),
                        NameStep::GiveUp => UploadStage::Failed(files::no_upload_name()),
                    },
                }
            },
            UploadStage::Create(upload, place) => match event {
                FileEvent::Done => UploadStage::LookWritten(upload, place),
                event => UploadStage::Discard(place, error_of(event)),
            },
            UploadStage::Discard(_, e) => UploadStage::Failed(e),
            UploadStage::LookWritten(upload, place) => match take_present(&place, event) {
                Err(e) => UploadStage::Failed(e),
                Ok(m) => {
                    let answer = files::answer_upload(&upload, &place, &m);
                    let ghost known = answer@;
                    done.push(answer);
                    assert(upload_answers(done@) =~= before.done.push(known));
                    begin_file(&files, done.len())
                },
            },
            UploadStage::Uploaded => UploadStage::Uploaded,
            UploadStage::Failed(e) => UploadStage::Failed(e),
        };
        UploadFiles { directory, files, done, stage }
    }
}

/// How far a request to upload files is done after the given events.
pub open spec fn upload_run(
    directory: Seq<Seq<char>>,
    files: Seq<UploadFileRequest>,
    events: Seq<FileEvent>,
) -> Uploading
    decreases events.len(),
{
    if events.len() == 0 {
        Uploading { directory, files, done: Seq::empty(), stage: UploadStage::LookDirectory }
    } else {
        upload_next(upload_run(directory, files, events.drop_last()), events.last())
    }
}

/// Whether a request is at one of its files, of which the ones before are there.
spec fn is_at_file(u: Uploading) -> bool {
    match u.stage {
        UploadStage::LookSame(upload)
        | UploadStage::Digest(upload, _)
        | UploadStage::LookName(upload, _)
        | UploadStage::Create(upload, _)
        | UploadStage::LookWritten(upload, _) => u.done.len() < u.files.len()
            && files::upload_in(u.files[u.done.len() as int]) == Ok::<
            files::UploadFacts,
            files::FileError,
        >(upload),
        UploadStage::Uploaded => u.done.len() == u.files.len(),
        _ => u.done.len() <= u.files.len(),
    }
}

/// Every uploaded file is answered for, in the order of the request: at each step the files behind
/// those that are there are still to come, and where the request is done none is. What is made is
/// the file that the request gives next, with its very bytes.
pub proof fn lemma_uploads_in_order(
    directory: Seq<Seq<char>>,
    files: Seq<UploadFileRequest>,
    events: Seq<FileEvent>,
)
    ensures
        ({
            let u = upload_run(directory, files, events);
            &&& u.directory == directory
            &&& u.files == files
            &&& u.done.len() <= files.len()
            &&& u.stage is Uploaded ==> u.done.len() == files.len()
            &&& (u.stage matches UploadStage::Create(upload, _) ==> u.done.len() < files.len()
                && files::upload_in(files[u.done.len() as int]) == Ok::<
                files::UploadFacts,
                files::FileError,
            >(upload))
        }),
{
    lemma_upload_run(directory, files, events);
}

/// A request is always at one of its files, of which the ones before are there.
proof fn lemma_upload_run(
    directory: Seq<Seq<char>>,
    files: Seq<UploadFileRequest>,
    events: Seq<FileEvent>,
)
    ensures
        ({
            let u = upload_run(directory, files, events);
            &&& u.directory == directory
            &&& u.files == files
            &&& is_at_file(u)
        }),
    decreases events.len(),
{
    if events.len() > 0 {
        lemma_upload_run(directory, files, events.drop_last());
    }
}

/// No file is written over by an upload: what is made is made in the directory of the request,
/// under a name at which nothing stood when it was looked for without following a symlink.
pub proof fn lemma_upload_writes_over_nothing(u: Uploading, event: FileEvent, place: Seq<Seq<char>>)
    requires
        !(u.stage is Create),
        upload_work(upload_next(u, event)) == FileWork::Create(place),
    ensures
        is_free(place, event),
        paths::parent(place) == u.directory,
{
    assert(paths::parent(place) =~= u.directory);
}

} // verus!
