use llm_wiki_server::file_requests::{
    find_directory, find_file, DeleteFile, DeleteStage, FileEvent, FileWork, UploadFiles,
    UploadStage, WriteFile, WriteStage,
};
use llm_wiki_server::files::{
    answer_read, clean_relative_path, metadata_version, sha256_hex, EntryKind, FileMetadata, FileServiceError,
    Lookup, RawEntry, UploadFileRequest, WriteFileRequest,
};
use llm_wiki_server::paths::RelativePath;

fn path(text: &str) -> RelativePath {
    clean_relative_path(text, true).unwrap()
}

fn metadata(kind: EntryKind, size: u64) -> FileMetadata {
    FileMetadata { kind, size, modified_at_ms: 50 }
}

fn directory() -> FileMetadata {
    metadata(EntryKind::Directory, 0)
}

fn found(directories: usize, last: FileMetadata) -> FileEvent {
    let mut lookups = Vec::new();
    for _ in 0..directories {
        lookups.push(Lookup::Found(directory()));
    }
    lookups.push(Lookup::Found(last));
    FileEvent::Looked(lookups)
}

fn missing(directories: usize) -> FileEvent {
    let mut lookups = Vec::new();
    for _ in 0..directories {
        lookups.push(Lookup::Found(directory()));
    }
    lookups.push(Lookup::Missing);
    FileEvent::Looked(lookups)
}

fn asked(path: &str, expected: Option<&str>) -> WriteFileRequest {
    WriteFileRequest {
        path: path.to_string(),
        contents: "# Notes \u{2014} one\n".to_string(),
        expected_version: expected.map(|version| version.to_string()),
    }
}

fn write(expected: Option<&str>, events: Vec<FileEvent>) -> WriteFile {
    let mut request =
        WriteFile::begin(asked("wiki/notes.md", expected)).unwrap();
    for event in events {
        request = request.advance(event);
    }
    request
}

fn before_target() -> Vec<FileEvent> {
    vec![missing(0), FileEvent::Done, found(0, directory())]
}

#[test]
fn a_new_file_is_written_step_by_step() {
    let mut request = WriteFile::begin(asked("wiki/notes.md", None)).unwrap();
    let temporary = path("wiki/.notes.md.77.tmp");
    let steps = vec![
        (FileWork::Look(path("wiki")), missing(0)),
        (FileWork::MakeDirectory(path("wiki")), FileEvent::Done),
        (FileWork::Look(path("wiki")), found(0, directory())),
        (FileWork::Look(path("wiki/notes.md")), missing(1)),
        (FileWork::ReadClock, FileEvent::Time(77)),
        (FileWork::Look(temporary.clone()), missing(1)),
        (FileWork::Create(temporary.clone()), FileEvent::Done),
        (
            FileWork::Move(temporary, path("wiki/notes.md")),
            FileEvent::Done,
        ),
        (
            FileWork::Look(path("wiki/notes.md")),
            found(1, metadata(EntryKind::File, 8)),
        ),
    ];
    let mut made = Vec::new();
    for (work, event) in steps {
        assert_eq!(request.work(), work);
        match work {
            FileWork::Create(_) => made = request.bytes().unwrap().to_vec(),
            _ => assert!(request.bytes().is_none()),
        }
        request = request.advance(event);
    }
    assert_eq!(request.work(), FileWork::Nothing);
    assert_eq!(made, "# Notes \u{2014} one\n".as_bytes());
    let read = answer_read(&path("wiki/notes.md"), &metadata(EntryKind::File, 8), made).unwrap();
    assert_eq!(read.contents, "# Notes \u{2014} one\n");
    match request.stage {
        WriteStage::Written(answer) => {
            assert!(answer.ok);
            assert_eq!(answer.file.path, read.file.path);
            assert_eq!(answer.file.version, read.file.version);
            assert_eq!(answer.file.path, "wiki/notes.md");
            assert_eq!(answer.file.version, "50:8");
            assert_eq!(answer.file.mime_type, Some("text/markdown".to_string()));
        }
        _ => panic!("the file must be written"),
    }
}

#[test]
fn a_file_that_changed_is_not_written_over() {
    let there = metadata(EntryKind::File, 8);
    let run = |expected: Option<&str>| {
        let mut events = before_target();
        events.push(found(1, there));
        write(expected, events).stage
    };
    assert!(matches!(
        run(Some(&metadata_version(&there))),
        WriteStage::ReadClock
    ));
    assert!(matches!(
        run(Some("stale")),
        WriteStage::Failed(FileServiceError::PreconditionFailed(_))
    ));
    assert!(matches!(
        run(None),
        WriteStage::Failed(FileServiceError::PreconditionRequired(_))
    ));
}

#[test]
fn a_failed_write_removes_the_temporary_file() {
    for step in [6, 7] {
        let mut events = before_target();
        events.push(missing(1));
        events.push(FileEvent::Time(77));
        events.push(missing(1));
        if step == 7 {
            events.push(FileEvent::Done);
        }
        events.push(FileEvent::Failed("disk full".to_string()));
        let request = write(None, events);
        assert_eq!(
            request.work(),
            FileWork::Discard(path("wiki/.notes.md.77.tmp"))
        );
        match request.advance(FileEvent::Done).stage {
            WriteStage::Failed(FileServiceError::Internal(reason)) => {
                assert_eq!(reason, "disk full")
            }
            _ => panic!("the write must fail"),
        }
    }
}

#[test]
fn writes_are_refused_at_symlinks_and_bad_parents() {
    let link = metadata(EntryKind::Symlink, 1);
    let mut events = before_target();
    events.push(found(1, link));
    assert!(matches!(
        write(None, events).stage,
        WriteStage::Failed(FileServiceError::InvalidInput(_))
    ));
    assert!(matches!(
        write(None, vec![found(0, link)]).stage,
        WriteStage::Failed(FileServiceError::InvalidInput(_))
    ));
    let parent = vec![
        missing(0),
        FileEvent::Done,
        found(0, metadata(EntryKind::File, 1)),
    ];
    assert!(matches!(
        write(None, parent).stage,
        WriteStage::Failed(FileServiceError::InvalidInput(_))
    ));
    let mut taken = before_target();
    taken.push(missing(1));
    taken.push(FileEvent::Time(1));
    taken.push(found(1, metadata(EntryKind::File, 1)));
    assert!(matches!(
        write(None, taken).stage,
        WriteStage::Failed(FileServiceError::Conflict(_))
    ));
    assert!(matches!(
        write(None, vec![FileEvent::Time(1)]).stage,
        WriteStage::Failed(FileServiceError::Internal(_))
    ));
    assert!(WriteFile::begin(asked("../notes.md", None)).is_err());
}

#[test]
fn a_file_is_moved_to_the_trash() {
    let mut request = DeleteFile::begin("wiki/notes.md", None).unwrap();
    let place = path(".llm-wiki/trash/9-1/wiki/notes.md");
    let parent = path(".llm-wiki/trash/9-1/wiki");
    let steps = vec![
        (
            FileWork::Look(path("wiki/notes.md")),
            found(1, metadata(EntryKind::File, 8)),
        ),
        (FileWork::ReadClock, FileEvent::Time(9)),
        (
            FileWork::Look(path(".llm-wiki/trash/9/wiki/notes.md")),
            found(4, metadata(EntryKind::File, 8)),
        ),
        (FileWork::Look(place.clone()), missing(2)),
        (FileWork::Look(parent.clone()), missing(2)),
        (FileWork::MakeDirectory(parent.clone()), FileEvent::Done),
        (FileWork::Look(parent), found(3, directory())),
        (
            FileWork::Move(path("wiki/notes.md"), place),
            FileEvent::Done,
        ),
    ];
    for (work, event) in steps {
        assert_eq!(request.work(), work);
        request = request.advance(event);
    }
    match request.stage {
        DeleteStage::Deleted(answer) => {
            assert!(answer.ok);
            assert_eq!(answer.path, "wiki/notes.md");
            assert_eq!(answer.trash_path, ".llm-wiki/trash/9-1/wiki/notes.md");
        }
        _ => panic!("the file must be deleted"),
    }
}

#[test]
fn a_directory_with_a_symlink_is_not_deleted() {
    let request = DeleteFile::begin("wiki", None)
        .unwrap()
        .advance(found(0, directory()));
    assert_eq!(request.work(), FileWork::ReadTree(path("wiki")));
    let entry = |name: &str, kind: EntryKind| RawEntry {
        name: name.to_string(),
        metadata: metadata(kind, 3),
        entries: Vec::new(),
    };
    let refused = request.advance(FileEvent::Tree(vec![
        entry("index.md", EntryKind::File),
        entry("linked.md", EntryKind::Symlink),
    ]));
    match refused.stage {
        DeleteStage::Failed(FileServiceError::InvalidInput(message)) => {
            assert_eq!(message, "Project content symlinks are not allowed: wiki/linked.md")
        }
        _ => panic!("the directory must stay"),
    }
    let clear = DeleteFile::begin("wiki", None)
        .unwrap()
        .advance(found(0, directory()))
        .advance(FileEvent::Tree(vec![entry("index.md", EntryKind::File)]));
    assert_eq!(clear.work(), FileWork::ReadClock);
}

#[test]
fn a_missing_or_changed_file_is_not_deleted() {
    let gone = DeleteFile::begin("wiki/notes.md", None)
        .unwrap()
        .advance(missing(1));
    assert!(matches!(
        gone.stage,
        DeleteStage::Failed(FileServiceError::NotFound(_))
    ));
    let changed = DeleteFile::begin("wiki/notes.md", Some("stale".to_string()))
        .unwrap()
        .advance(found(1, metadata(EntryKind::File, 8)));
    assert!(matches!(
        changed.stage,
        DeleteStage::Failed(FileServiceError::PreconditionFailed(_))
    ));
    assert!(DeleteFile::begin(".llm-wiki/trash/1", None).is_err());
}

fn request(files: &[(&str, &str)]) -> UploadFiles {
    let files = files
        .iter()
        .map(|(name, content)| UploadFileRequest {
            file_name: name.to_string(),
            content_base64: content.to_string(),
        })
        .collect();
    UploadFiles::begin(None, files)
        .unwrap()
        .advance(missing(0))
        .advance(FileEvent::Done)
        .advance(found(1, directory()))
}

#[test]
fn upload_files_skip_same_hash_and_rename_different_content() {
    let first = request(&[("paper.txt", "YWxwaGE=")]).advance(missing(2));
    assert_eq!(first.work(), FileWork::Look(path("raw/sources/paper.txt")));
    let first = first.advance(missing(2));
    assert_eq!(
        first.work(),
        FileWork::Create(path("raw/sources/paper.txt"))
    );
    assert_eq!(first.bytes().unwrap(), b"alpha");
    let first = first
        .advance(FileEvent::Done)
        .advance(found(2, metadata(EntryKind::File, 5)));
    assert!(matches!(first.stage, UploadStage::Uploaded));
    assert_eq!(first.done[0].path, "raw/sources/paper.txt");
    assert!(!first.done[0].skipped);
    assert_eq!(first.done[0].reason, None);

    let second = request(&[("paper.txt", "YWxwaGE=")]).advance(found(2, metadata(EntryKind::File, 5)));
    assert_eq!(
        second.work(),
        FileWork::Digest(path("raw/sources/paper.txt"))
    );
    let second = second.advance(FileEvent::Digest(sha256_hex(b"alpha")));
    assert!(matches!(second.stage, UploadStage::Uploaded));
    assert_eq!(second.done[0].path, "raw/sources/paper.txt");
    assert!(second.done[0].skipped);
    assert_eq!(second.done[0].reason, Some("same_hash".to_string()));

    let third = request(&[("paper.txt", "YmV0YQ==")])
        .advance(found(2, metadata(EntryKind::File, 5)))
        .advance(FileEvent::Digest(sha256_hex(b"alpha")))
        .advance(found(2, metadata(EntryKind::File, 5)))
        .advance(missing(2));
    assert_eq!(
        third.work(),
        FileWork::Create(path("raw/sources/paper-1.txt"))
    );
    assert_eq!(third.bytes().unwrap(), b"beta");
    let third = third
        .advance(FileEvent::Done)
        .advance(found(2, metadata(EntryKind::File, 4)));
    assert_eq!(third.done[0].path, "raw/sources/paper-1.txt");
    assert!(!third.done[0].skipped);
}

#[test]
fn files_are_uploaded_one_after_the_other() {
    let both = request(&[("a.txt", "YQ=="), ("b.txt", "?")])
        .advance(missing(2))
        .advance(missing(2))
        .advance(FileEvent::Done)
        .advance(found(2, metadata(EntryKind::File, 1)));
    assert_eq!(both.done.len(), 1);
    assert!(matches!(
        both.stage,
        UploadStage::Failed(FileServiceError::InvalidInput(_))
    ));
    assert_eq!(both.work(), FileWork::Nothing);
    let failed = request(&[("a.txt", "YQ==")])
        .advance(missing(2))
        .advance(missing(2))
        .advance(FileEvent::Failed("disk full".to_string()));
    assert_eq!(failed.work(), FileWork::Discard(path("raw/sources/a.txt")));
    assert!(failed.bytes().is_none());
    assert!(UploadFiles::begin(Some("wiki"), vec![]).is_err());
}

#[test]
fn readable_paths_are_files_and_trees_start_at_directories() {
    let there = vec![Lookup::Found(directory()), Lookup::Found(metadata(EntryKind::File, 3))];
    let target = path("wiki/a.md");
    assert_eq!(find_file(&target, &there, "why").unwrap().size, 3);
    assert!(matches!(
        find_directory(&target, &there, "why"),
        Err(FileServiceError::InvalidInput(_))
    ));
    let wiki = vec![Lookup::Found(directory())];
    assert!(find_directory(&path("wiki"), &wiki, "why").is_ok());
    assert!(matches!(
        find_file(&path("wiki"), &wiki, "why"),
        Err(FileServiceError::InvalidInput(_))
    ));
    assert!(matches!(
        find_file(&path("wiki"), &vec![Lookup::Missing], "why"),
        Err(FileServiceError::NotFound(_))
    ));
}
