//! What comes of requests for files, whatever the files.

use crate::file_requests;
use crate::file_requests::DeleteStage;
use crate::file_requests::Deleting;
use crate::file_requests::FileEvent;
use crate::file_requests::FileWork;
use crate::file_requests::UploadStage;
use crate::file_requests::Uploading;
use crate::file_requests::WriteStage;
use crate::file_requests::Writing;
use crate::files;
use crate::files::EntryKind;
use crate::files::FileError;
use crate::files::FileMetadata;
use crate::files::UploadFileRequest;
use crate::paths;
use vstd::prelude::*;

verus! {

// ---------------------------------------------------------------------------------------
// Looking
// ---------------------------------------------------------------------------------------

/// Looking for a path comes to what stands there, and anything else that is told instead is a failure
/// of the server, for the reason that is given.
pub proof fn lemma_looked(path: Seq<Seq<char>>, event: FileEvent, require_exists: bool)
    ensures
        event matches FileEvent::Looked(lookups) ==> file_requests::looked(
            path,
            event,
            require_exists,
        ) == files::path_found(path, lookups@, require_exists),
        event matches FileEvent::Failed(reason) ==> file_requests::looked(
            path,
            event,
            require_exists,
        ) == Err::<Option<FileMetadata>, FileError>(FileError::Internal(reason@)),
        !(event is Looked) ==> (file_requests::looked(path, event, require_exists) matches Err(e)
            && e is Internal),
        file_requests::looked(path, event, true) matches Ok(Some(m))
            ==> file_requests::looked_present(path, event) == Ok::<FileMetadata, FileError>(m),
        file_requests::looked(path, event, true) matches Ok(None) ==> (
        file_requests::looked_present(path, event) matches Err(e) && e is NotFound),
        file_requests::looked(path, event, true) matches Err(e) ==> file_requests::looked_present(
            path,
            event,
        ) == Err::<FileMetadata, FileError>(e),
{
}

/// Whether the event is that a directory was found at the path.
pub open spec fn is_directory_at(path: Seq<Seq<char>>, event: FileEvent) -> bool {
    file_requests::looked_present(path, event) matches Ok(m) && m.kind == EntryKind::Directory
}

// ---------------------------------------------------------------------------------------
// Writing
// ---------------------------------------------------------------------------------------

/// A request to write a file that may be written is done: its directory is made, the file is written
/// first beside its place and then moved there, and the answer tells of the file as it was found
/// then.
pub proof fn lemma_write_is_done(
    path: Seq<Seq<char>>,
    contents: Seq<char>,
    expected: Option<Seq<char>>,
    events: Seq<FileEvent>,
    millis: u64,
    m: FileMetadata,
)
    requires
        events.len() == 9,
        file_requests::looked(paths::parent(path), events[0], false) is Ok,
        events[1] is Done,
        is_directory_at(paths::parent(path), events[2]),
        file_requests::looked(path, events[3], false) matches Ok(found) && files::write_error(
            found,
            expected,
        ) is None,
        events[4] == FileEvent::Time(millis),
        file_requests::looked(files::temporary(path, millis), events[5], false) == Ok::<
            Option<FileMetadata>,
            FileError,
        >(None),
        events[6] is Done,
        events[7] is Done,
        file_requests::looked_present(path, events[8]) == Ok::<FileMetadata, FileError>(m),
    ensures
        ({
            let work = |k: int|
                file_requests::write_work(
                    file_requests::write_run(path, contents, expected, events.take(k)),
                );
            let temporary = files::temporary(path, millis);
            &&& work(0) == FileWork::Look(paths::parent(path))
            &&& work(1) == FileWork::MakeDirectory(paths::parent(path))
            &&& work(2) == FileWork::Look(paths::parent(path))
            &&& work(3) == FileWork::Look(path)
            &&& work(4) is ReadClock
            &&& work(5) == FileWork::Look(temporary)
            &&& work(6) == FileWork::Create(temporary)
            &&& work(7) == FileWork::Move(temporary, path)
            &&& work(8) == FileWork::Look(path)
            &&& file_requests::write_bytes(
                file_requests::write_run(path, contents, expected, events.take(6)),
            ) == Some(vstd::utf8::encode_utf8(contents))
            &&& file_requests::write_run(path, contents, expected, events).stage matches WriteStage::Written(
                answer,
            ) && answer.ok && answer.file == files::file_facts(path, m)
        }),
{
    lemma_write_step(path, contents, expected, events, 1);
    lemma_write_step(path, contents, expected, events, 2);
    lemma_write_step(path, contents, expected, events, 3);
    lemma_write_step(path, contents, expected, events, 4);
    lemma_write_step(path, contents, expected, events, 5);
    lemma_write_step(path, contents, expected, events, 6);
    lemma_write_step(path, contents, expected, events, 7);
    lemma_write_step(path, contents, expected, events, 8);
    lemma_write_step(path, contents, expected, events, 9);
    assert(events.take(9) =~= events);
}

proof fn lemma_write_step(
    path: Seq<Seq<char>>,
    contents: Seq<char>,
    expected: Option<Seq<char>>,
    events: Seq<FileEvent>,
    k: int,
)
    requires
        0 < k <= events.len(),
    ensures
        ({
            let before = file_requests::write_run(path, contents, expected, events.take(k - 1));
            file_requests::write_run(path, contents, expected, events.take(k)) == (Writing {
                stage: file_requests::write_next(before, events[k - 1]),
                ..before
            })
        }),
{
    assert(events.take(k).drop_last() =~= events.take(k - 1));
    assert(events.take(k).last() == events[k - 1]);
}

/// Whatever fails while a file is written makes the request fail for that reason, and what was
/// written first is removed before. An answered request stays as it is.
pub proof fn lemma_write_fails(w: Writing, event: FileEvent, last: FileEvent)
    requires
        event is Failed,
    ensures
        ({
            let next = file_requests::write_next(w, event);
            let reason = FileError::Internal(event->Failed_0@);
            &&& w.stage is LookParent || w.stage is MakeParent || w.stage is LookParentAgain
                || w.stage is LookTarget || w.stage is ReadClock || w.stage is LookTemporary
                || w.stage is LookWritten ==> (next matches WriteStage::Failed(e) && e == reason)
            &&& w.stage matches WriteStage::Create(t) ==> (next matches WriteStage::Discard(d, e)
                && d == t && e == reason)
            &&& w.stage matches WriteStage::Replace(t) ==> (next matches WriteStage::Discard(d, e)
                && d == t && e == reason)
            &&& w.stage matches WriteStage::Discard(t, e) ==> (file_requests::write_next(
                w,
                last,
            ) matches WriteStage::Failed(f) && f == e)
            &&& w.stage is Written || w.stage is Failed ==> file_requests::write_next(w, last)
                == w.stage
        }),
{
}

/// A file under whose temporary name something stands is not written.
pub proof fn lemma_temporary_name_is_taken(w: Writing, event: FileEvent, t: Seq<Seq<char>>)
    requires
        w.stage == WriteStage::<Seq<Seq<char>>, FileError, files::WriteAnswer>::LookTemporary(t),
        file_requests::looked(t, event, false) matches Ok(found) && found is Some,
    ensures
        file_requests::write_next(w, event) matches WriteStage::Failed(e) && e is Conflict,
{
}

// ---------------------------------------------------------------------------------------
// Deleting
// ---------------------------------------------------------------------------------------

/// The search of a directory for symlinks follows it being found. A file is not searched.
pub proof fn lemma_delete_begins(d: Deleting, event: FileEvent, m: FileMetadata)
    requires
        d.stage is Look,
        file_requests::looked_present(d.path, event) == Ok::<FileMetadata, FileError>(m),
    ensures
        file_requests::delete_work(d) == FileWork::Look(d.path),
        m.kind == EntryKind::Directory ==> file_requests::delete_next(d, event)
            == DeleteStage::<Seq<Seq<char>>, FileError, files::DeleteAnswer>::FindSymlink(m),
        m.kind != EntryKind::Directory && files::delete_error(m, None, d.expected_version) is None
            ==> file_requests::delete_next(d, event) is ReadClock,
        m.kind != EntryKind::Directory ==> (files::delete_error(
            m,
            None,
            d.expected_version,
        ) matches Some(e) ==> file_requests::delete_next(d, event) == DeleteStage::<
            Seq<Seq<char>>,
            FileError,
            files::DeleteAnswer,
        >::Failed(e)),
{
}

/// A directory with a symlink in it is not deleted, and the first one is named. One without goes on
/// where the request knows it.
pub proof fn lemma_delete_searches(
    d: Deleting,
    entries: Vec<files::RawEntry>,
    m: FileMetadata,
)
    requires
        d.stage == DeleteStage::<Seq<Seq<char>>, FileError, files::DeleteAnswer>::FindSymlink(m),
    ensures
        ({
            let found = files::symlinks(files::entry_models(entries@), d.path);
            let next = file_requests::delete_next(d, FileEvent::Tree(entries));
            &&& found.len() > 0 ==> next == DeleteStage::<
                Seq<Seq<char>>,
                FileError,
                files::DeleteAnswer,
            >::Failed(
                FileError::InvalidInput("Project content symlinks are not allowed: "@ + found[0]),
            )
            &&& found.len() == 0 && files::delete_error(m, None, d.expected_version) is None
                ==> next is ReadClock
        }),
{
}

/// What is deleted is moved to the first place in the trash that is free: where something stands at
/// one, the next is tried.
pub proof fn lemma_delete_is_done(
    d: Deleting,
    stamp: u64,
    index: usize,
    event: FileEvent,
    place: Seq<Seq<char>>,
)
    requires
        place == files::trash_place(d.path, stamp, index as nat),
        index < 9_999,
    ensures
        d.stage is ReadClock ==> file_requests::delete_next(d, FileEvent::Time(stamp))
            == (DeleteStage::<Seq<Seq<char>>, FileError, files::DeleteAnswer>::LookPlace {
            stamp,
            index: 0,
        }),
        d.stage == (DeleteStage::<Seq<Seq<char>>, FileError, files::DeleteAnswer>::LookPlace {
            stamp,
            index,
        }) ==> {
            &&& file_requests::delete_work(d) == FileWork::Look(place)
            &&& file_requests::looked(place, event, false) matches Ok(found) ==> {
                &&& found is None ==> file_requests::delete_next(d, event) == DeleteStage::<
                    Seq<Seq<char>>,
                    FileError,
                    files::DeleteAnswer,
                >::LookParent(place)
                &&& found is Some ==> file_requests::delete_next(d, event) == (DeleteStage::<
                    Seq<Seq<char>>,
                    FileError,
                    files::DeleteAnswer,
                >::LookPlace { stamp, index: (index + 1) as usize })
            }
        },
        d.stage == DeleteStage::<Seq<Seq<char>>, FileError, files::DeleteAnswer>::LookParent(place)
            && file_requests::looked(paths::parent(place), event, false) is Ok
            ==> file_requests::delete_next(d, event) == DeleteStage::<
            Seq<Seq<char>>,
            FileError,
            files::DeleteAnswer,
        >::MakeParent(place),
        d.stage == DeleteStage::<Seq<Seq<char>>, FileError, files::DeleteAnswer>::MakeParent(place)
            ==> file_requests::delete_work(d) == FileWork::MakeDirectory(paths::parent(place))
            && file_requests::delete_next(d, FileEvent::Done) == DeleteStage::<
            Seq<Seq<char>>,
            FileError,
            files::DeleteAnswer,
        >::LookParentAgain(place),
        d.stage == DeleteStage::<Seq<Seq<char>>, FileError, files::DeleteAnswer>::LookParentAgain(
            place,
        ) && is_directory_at(paths::parent(place), event) ==> file_requests::delete_next(d, event)
            == DeleteStage::<Seq<Seq<char>>, FileError, files::DeleteAnswer>::Move(place),
        d.stage == DeleteStage::<Seq<Seq<char>>, FileError, files::DeleteAnswer>::Move(place) ==> (
        file_requests::delete_work(d) == FileWork::Move(d.path, place)
            && file_requests::delete_next(d, FileEvent::Done) == DeleteStage::<
            Seq<Seq<char>>,
            FileError,
            files::DeleteAnswer,
        >::Deleted(
            files::DeleteAnswer {
                ok: true,
                path: paths::shown_path(d.path),
                trash_path: paths::shown_path(place),
            },
        )),
{
}

/// Whatever fails while a file is deleted makes the request fail for that reason, and an answered
/// request stays as it is.
pub proof fn lemma_delete_fails(d: Deleting, event: FileEvent, last: FileEvent)
    requires
        event is Failed,
    ensures
        !(d.stage is Deleted) && !(d.stage is Failed) ==> file_requests::delete_next(d, event)
            == DeleteStage::<Seq<Seq<char>>, FileError, files::DeleteAnswer>::Failed(
            FileError::Internal(event->Failed_0@),
        ),
        d.stage is Deleted || d.stage is Failed ==> file_requests::delete_next(d, last) == d.stage,
{
}

// ---------------------------------------------------------------------------------------
// Uploading
// ---------------------------------------------------------------------------------------

/// Whether a request stands at the file behind the first `k` ones, or is done where there is none, or
/// has failed where that one cannot be accepted.
pub open spec fn is_at(u: Uploading, files: Seq<UploadFileRequest>, k: int) -> bool {
    &&& k >= files.len() ==> u.stage is Uploaded
    &&& 0 <= k < files.len() ==> (files::upload_in(files[k]) matches Ok(upload) ==> u.stage
        == UploadStage::<Seq<Seq<char>>, files::UploadFacts, FileError>::LookSame(upload))
    &&& 0 <= k < files.len() ==> (files::upload_in(files[k]) matches Err(e) ==> u.stage
        == UploadStage::<Seq<Seq<char>>, files::UploadFacts, FileError>::Failed(e))
}

/// An upload begins with its directory, which is made, and goes on with the first of its files.
pub proof fn lemma_upload_begins(
    directory: Seq<Seq<char>>,
    files: Seq<UploadFileRequest>,
    events: Seq<FileEvent>,
)
    requires
        events.len() == 3,
        file_requests::looked(directory, events[0], false) is Ok,
        events[1] is Done,
        is_directory_at(directory, events[2]),
    ensures
        ({
            let work = |k: int|
                file_requests::upload_work(
                    file_requests::upload_run(directory, files, events.take(k)),
                );
            let u = file_requests::upload_run(directory, files, events);
            &&& work(0) == FileWork::Look(directory)
            &&& work(1) == FileWork::MakeDirectory(directory)
            &&& work(2) == FileWork::Look(directory)
            &&& is_at(u, files, 0)
            &&& u.done.len() == 0
        }),
{
    assert(events.take(1).drop_last() =~= events.take(0));
    assert(events.take(2).drop_last() =~= events.take(1));
    assert(events.take(3).drop_last() =~= events.take(2));
    assert(events.take(1).last() == events[0]);
    assert(events.take(2).last() == events[1]);
    assert(events.take(3).last() == events[2]);
    assert(events.take(3) =~= events);
    reveal_with_fuel(file_requests::upload_run, 4);
}

/// A file of which a copy is there under its name is not written: it is answered that it was there
/// already, and the request goes on with the next. Any other file gets a name.
pub proof fn lemma_upload_of_a_copy(
    u: Uploading,
    upload: files::UploadFacts,
    found: Option<FileMetadata>,
    looked: FileEvent,
    digest: String,
)
    requires
        u.stage == UploadStage::<Seq<Seq<char>>, files::UploadFacts, FileError>::LookSame(upload),
        file_requests::looked(u.directory.push(upload.file_name), looked, false) == Ok::<
            Option<FileMetadata>,
            FileError,
        >(found),
    ensures
        ({
            let next = file_requests::upload_next(u, looked);
            let after = file_requests::upload_next(next, FileEvent::Digest(digest));
            let is_file = found matches Some(m) && m.kind == EntryKind::File;
            &&& file_requests::upload_work(u) == FileWork::Look(
                u.directory.push(upload.file_name),
            )
            &&& is_file ==> file_requests::upload_work(next) == FileWork::Digest(
                u.directory.push(upload.file_name),
            )
            &&& !is_file ==> next.stage == UploadStage::<
                Seq<Seq<char>>,
                files::UploadFacts,
                FileError,
            >::LookName(upload, 0)
            &&& is_file && digest@ == upload.sha256 ==> {
                &&& after.done == u.done.push(
                    files::upload_answer(
                        upload,
                        u.directory.push(upload.file_name),
                        found.unwrap(),
                        true,
                    ),
                )
                &&& is_at(after, u.files, u.done.len() as int + 1)
            }
            &&& is_file && digest@ != upload.sha256 ==> after.done == u.done && after.stage
                == UploadStage::<Seq<Seq<char>>, files::UploadFacts, FileError>::LookName(upload, 0)
        }),
{
}

/// A file is made under the first of its names that is free, with its bytes, and is answered for. The
/// request goes on with the next.
pub proof fn lemma_upload_of_a_file(
    u: Uploading,
    upload: files::UploadFacts,
    index: usize,
    place: Seq<Seq<char>>,
    looked: FileEvent,
    written: FileEvent,
    m: FileMetadata,
)
    requires
        place == u.directory.push(files::upload_name(upload.file_name, index as nat)),
        index < 9_999,
        u.stage == UploadStage::<Seq<Seq<char>>, files::UploadFacts, FileError>::LookName(
            upload,
            index,
        ),
        file_requests::looked_present(place, written) == Ok::<FileMetadata, FileError>(m),
    ensures
        file_requests::upload_work(u) == FileWork::Look(place),
        file_requests::looked(place, looked, false) matches Ok(found) ==> {
            let next = file_requests::upload_next(u, looked);
            let made = file_requests::upload_next(next, FileEvent::Done);
            let after = file_requests::upload_next(made, written);
            &&& found is Some ==> next.done == u.done && next.stage == UploadStage::<
                Seq<Seq<char>>,
                files::UploadFacts,
                FileError,
            >::LookName(upload, (index + 1) as usize)
            &&& found is None ==> {
                &&& file_requests::upload_work(next) == FileWork::Create(place)
                &&& next.stage == UploadStage::<
                    Seq<Seq<char>>,
                    files::UploadFacts,
                    FileError,
                >::Create(upload, place)
                &&& file_requests::upload_work(made) == FileWork::Look(place)
                &&& after.done == u.done.push(files::upload_answer(upload, place, m, false))
                &&& is_at(after, u.files, u.done.len() as int + 1)
            }
        },
{
}

/// Whatever fails while a file is uploaded makes the request fail for that reason, and what was made
/// of the file is removed before. The files before it stay, and so does what is answered of them.
pub proof fn lemma_upload_fails(u: Uploading, event: FileEvent, last: FileEvent)
    requires
        event is Failed,
    ensures
        ({
            let next = file_requests::upload_next(u, event);
            let reason = FileError::Internal(event->Failed_0@);
            &&& next.done == u.done
            &&& u.stage matches UploadStage::Create(_, place) ==> next.stage == UploadStage::<
                Seq<Seq<char>>,
                files::UploadFacts,
                FileError,
            >::Discard(place, reason)
            &&& !(u.stage is Create) && !(u.stage is Discard) && !(u.stage is Uploaded) && !(u.stage
                is Failed) ==> next.stage == UploadStage::<
                Seq<Seq<char>>,
                files::UploadFacts,
                FileError,
            >::Failed(reason)
            &&& u.stage matches UploadStage::Discard(_, e) ==> file_requests::upload_next(
                u,
                last,
            ).stage == UploadStage::<Seq<Seq<char>>, files::UploadFacts, FileError>::Failed(e)
            &&& u.stage is Uploaded || u.stage is Failed ==> file_requests::upload_next(u, last)
                == u
        }),
{
}

} // verus!
