use llm_wiki_server::files::{
    accept_upload, after_try, answer_delete, answer_preview, answer_read, answer_tree,
    answer_write, build_tree, check_delete, check_project_directory, check_project_inside,
    check_temporary, check_upload_count, check_write, clean_relative_path, deletable_path, enters,
    entry_is_visible, file_info, first_symlink_in_tree, inspect_project_path, is_trash_path, look_on,
    metadata_version, mime_type_for_path, must_compare, no_trash_place, no_upload_name, normalized_expected_version,
    project_directory, read_upload, refuse_directory, require_directory, safe_upload_file_name,
    sha256_hex, temporary_path, trash_candidate, tree_depth, upload_candidate,
    upload_directory, EntryKind, FileMetadata, FileNode, FileServiceError,
    Lookup, NameStep, RawEntry, UploadFileRequest, MAX_TREE_DEPTH, MAX_TRIES,
};
use llm_wiki_server::paths::{PathStyle, RelativePath};

fn metadata(kind: EntryKind, size: u64, modified_at_ms: u64) -> FileMetadata {
    FileMetadata { kind, size, modified_at_ms }
}

fn file(size: u64) -> FileMetadata {
    metadata(EntryKind::File, size, 1_700_000_000_123)
}

fn directory() -> FileMetadata {
    metadata(EntryKind::Directory, 4096, 1_700_000_000_123)
}

fn path(text: &str) -> RelativePath {
    clean_relative_path(text, true).unwrap()
}

fn message(error: FileServiceError) -> String {
    match error {
        FileServiceError::InvalidInput(m)
        | FileServiceError::NotFound(m)
        | FileServiceError::Conflict(m)
        | FileServiceError::PreconditionRequired(m)
        | FileServiceError::PreconditionFailed(m)
        | FileServiceError::PayloadTooLarge(m)
        | FileServiceError::Internal(m) => m,
        FileServiceError::SetupRequired => "setup".to_string(),
        FileServiceError::ProjectNotFound => "project".to_string(),
    }
}

#[test]
fn project_relative_paths_reject_escape_attempts() {
    assert_eq!(
        clean_relative_path("wiki/index.md", false).unwrap().to_text(),
        "wiki/index.md"
    );
    assert!(clean_relative_path("../outside.md", false).is_err());
    assert!(clean_relative_path("/etc/passwd", false).is_err());
    assert!(clean_relative_path("C:/Users/example", false).is_err());
    assert!(clean_relative_path("wiki/C:/Users/example", false).is_err());
}

#[test]
fn uploads_are_limited_to_raw_sources() {
    assert_eq!(upload_directory(None).unwrap().to_text(), "raw/sources");
    assert!(upload_directory(Some("wiki")).is_err());
    assert!(upload_directory(Some("raw/sources/papers")).is_ok());
    assert!(upload_directory(Some("raw/sources-other")).is_err());
    assert!(upload_directory(Some("")).is_err());
}

#[test]
fn refused_paths_say_why() {
    let cases = [
        ("a\0b", "Project-relative path is invalid"),
        ("/a", "Project-relative path must not be absolute"),
        ("\\a", "Project-relative path must not be absolute"),
        ("x:/a", "Project-relative path must not be absolute"),
        ("a/../b", "Project-relative path must not contain parent traversal"),
        ("  ", "Project-relative path is required"),
        ("./.", "Project-relative path is required"),
    ];
    for (raw, expected) in cases {
        assert_eq!(message(clean_relative_path(raw, false).unwrap_err()), expected);
    }
    assert_eq!(clean_relative_path(" a\\b//./c ", false).unwrap().to_text(), "a/b/c");
    assert_eq!(clean_relative_path("", true).unwrap().to_text(), "");
    assert_eq!(clean_relative_path("a..b/...", false).unwrap().to_text(), "a..b/...");
}

#[test]
fn paths_are_inspected_without_following_symlinks() {
    let target = path("wiki/concepts/alpha.md");
    let there = vec![
        Lookup::Found(directory()),
        Lookup::Found(directory()),
        Lookup::Found(file(7)),
    ];
    let found = inspect_project_path(&target, &there, true).unwrap().unwrap();
    assert_eq!(found.size, 7);
    let linked = vec![
        Lookup::Found(directory()),
        Lookup::Found(metadata(EntryKind::Symlink, 1, 1)),
    ];
    assert_eq!(
        message(inspect_project_path(&target, &linked, true).unwrap_err()),
        "Project content symlinks are not allowed"
    );
    let in_file = vec![Lookup::Found(directory()), Lookup::Found(file(1))];
    assert_eq!(
        message(inspect_project_path(&target, &in_file, false).unwrap_err()),
        "Path parent is not a directory"
    );
    let missing = vec![Lookup::Found(directory()), Lookup::Missing];
    assert!(inspect_project_path(&target, &missing, false).unwrap().is_none());
    assert!(matches!(
        inspect_project_path(&target, &missing, true),
        Err(FileServiceError::NotFound(_))
    ));
    let failed = vec![Lookup::Failed("denied".to_string())];
    assert!(matches!(
        inspect_project_path(&target, &failed, false),
        Err(FileServiceError::Internal(_))
    ));
    assert!(inspect_project_path(&target, &vec![], false).is_err());
    let root = path("");
    assert!(inspect_project_path(&root, &vec![Lookup::Found(directory())], true)
        .unwrap()
        .is_some());
    assert!(inspect_project_path(&root, &vec![Lookup::Missing], false).is_err());
    assert!(inspect_project_path(&root, &vec![], false).is_err());
    assert!(look_on(&Lookup::Found(directory())));
    assert!(!look_on(&Lookup::Found(file(1))));
    assert!(!look_on(&Lookup::Missing));
}

#[test]
fn directories_and_files_are_told_apart() {
    assert!(require_directory(&directory(), "why").is_ok());
    assert_eq!(message(require_directory(&file(1), "why").unwrap_err()), "why");
    assert!(refuse_directory(&file(1), "why").is_ok());
    assert_eq!(message(refuse_directory(&directory(), "why").unwrap_err()), "why");
}

#[test]
fn project_directories_are_checked() {
    assert_eq!(project_directory(Some("alpha")).unwrap().to_text(), "alpha");
    assert!(matches!(
        project_directory(None),
        Err(FileServiceError::ProjectNotFound)
    ));
    assert!(project_directory(Some("../alpha")).is_err());
    assert!(check_project_directory(Some(EntryKind::Directory)).is_ok());
    assert!(matches!(
        check_project_directory(None),
        Err(FileServiceError::ProjectNotFound)
    ));
    assert!(check_project_directory(Some(EntryKind::Symlink)).is_err());
    assert!(check_project_directory(Some(EntryKind::File)).is_err());
    assert!(check_project_inside(PathStyle::Unix, "/srv/data/alpha", "/srv/data").is_ok());
    assert!(check_project_inside(PathStyle::Unix, "/srv/database", "/srv/data").is_err());
    assert_eq!(
        message(check_project_inside(PathStyle::Unix, "/srv/other", "/srv/data").unwrap_err()),
        "Project path escapes the configured Data Root"
    );
    assert!(check_project_inside(PathStyle::Windows, r"\\?\C:\data\a", r"\\?\C:\data").is_ok());
    assert!(check_project_inside(PathStyle::Windows, r"\\?\D:\data\a", r"\\?\C:\data").is_err());
}

#[test]
fn versions_are_the_time_and_the_size() {
    assert_eq!(metadata_version(&metadata(EntryKind::File, 16, 5)), "5:16");
    assert_eq!(metadata_version(&metadata(EntryKind::Directory, 16, 5)), "5:0");
    assert_eq!(
        metadata_version(&metadata(EntryKind::File, u64::MAX, 0)),
        "0:18446744073709551615"
    );
}

#[test]
fn file_info_tells_the_type_of_the_contents() {
    let info = file_info(&path("wiki/notes.md"), &file(16));
    assert_eq!(info.path, "wiki/notes.md");
    assert!(!info.is_dir);
    assert_eq!(info.size, Some(16));
    assert_eq!(info.version, "1700000000123:16");
    assert_eq!(info.mime_type, Some("text/markdown".to_string()));
    let wiki = file_info(&path("wiki"), &directory());
    assert!(wiki.is_dir);
    assert_eq!(wiki.size, None);
    assert_eq!(wiki.mime_type, None);
    assert_eq!(mime_type_for_path(&path("a/diagram.png")), "image/png");
    assert_eq!(mime_type_for_path(&path("a/unknown")), "application/octet-stream");
}

#[test]
fn reads_and_previews_are_answered() {
    let answer =
        answer_read(&path("wiki/notes.md"), &file(8), b"# Notes\n".to_vec()).unwrap();
    assert!(answer.ok);
    assert_eq!(answer.contents, "# Notes\n");
    assert_eq!(
        message(answer_read(&path("wiki/notes.md"), &file(8), vec![0x23, 0xff]).unwrap_err()),
        "File is not valid UTF-8; use the preview route"
    );
    let preview = answer_preview(&path("wiki/notes.md"), &file(3), vec![1, 2, 3]);
    assert_eq!(preview.bytes, vec![1, 2, 3]);
    assert_eq!(preview.mime_type, "text/markdown");
    assert_eq!(preview.version, "1700000000123:3");
    assert_eq!(preview.size, 3);
    assert!(answer_write(&path("a"), &file(1)).ok);
}

#[test]
fn files_are_written_over_only_with_their_version() {
    let there = file(8);
    let version = metadata_version(&there);
    assert!(check_write(Some(there), Some(&version)).is_ok());
    assert!(check_write(Some(there), Some(&format!("  {version} "))).is_ok());
    assert!(check_write(None, None).is_ok());
    assert!(check_write(None, Some("   ")).is_ok());
    assert!(matches!(
        check_write(Some(there), None),
        Err(FileServiceError::PreconditionRequired(_))
    ));
    assert!(matches!(
        check_write(Some(there), Some("stale")),
        Err(FileServiceError::PreconditionFailed(_))
    ));
    assert!(matches!(
        check_write(None, Some("1:1")),
        Err(FileServiceError::PreconditionFailed(_))
    ));
    assert!(matches!(
        check_write(Some(directory()), Some("1:1")),
        Err(FileServiceError::InvalidInput(_))
    ));
    assert_eq!(normalized_expected_version(None), None);
    assert_eq!(normalized_expected_version(Some("  ")), None);
    assert_eq!(normalized_expected_version(Some(" a ")), Some("a".to_string()));
}

#[test]
fn temporary_files_stand_beside_the_file() {
    assert_eq!(
        temporary_path(&path("wiki/notes.md"), 42).to_text(),
        "wiki/.notes.md.42.tmp"
    );
    assert_eq!(temporary_path(&path("notes.md"), 0).to_text(), ".notes.md.0.tmp");
    assert_eq!(temporary_path(&path(""), 7).to_text(), ".llm-wiki-file.7.tmp");
    assert!(check_temporary(false).is_ok());
    assert!(matches!(check_temporary(true), Err(FileServiceError::Conflict(_))));
}

#[test]
fn deleted_files_go_to_the_trash() {
    assert!(is_trash_path(&path(".llm-wiki/trash")));
    assert!(is_trash_path(&path(".llm-wiki/trash/1/a.md")));
    assert!(!is_trash_path(&path(".llm-wiki/trashed")));
    assert!(deletable_path("wiki/a.md").is_ok());
    assert_eq!(
        message(deletable_path(".llm-wiki/trash/1").unwrap_err()),
        "Project trash paths cannot be deleted through this endpoint"
    );
    let place = trash_candidate(&path("wiki/a.md"), 99, 0);
    assert_eq!(place.to_text(), ".llm-wiki/trash/99/wiki/a.md");
    assert_eq!(
        trash_candidate(&path("wiki/a.md"), 99, 3).to_text(),
        ".llm-wiki/trash/99-3/wiki/a.md"
    );
    let answer = answer_delete(&path("wiki/a.md"), &place);
    assert_eq!(answer.path, "wiki/a.md");
    assert_eq!(answer.trash_path, ".llm-wiki/trash/99/wiki/a.md");
    assert!(matches!(no_trash_place(), FileServiceError::Conflict(_)));
}

#[test]
fn deletions_need_the_version_only_where_one_is_given() {
    let there = file(8);
    assert!(check_delete(&there, None, None).is_ok());
    assert!(check_delete(&there, None, Some(&metadata_version(&there))).is_ok());
    assert!(matches!(
        check_delete(&there, None, Some("stale")),
        Err(FileServiceError::PreconditionFailed(_))
    ));
    assert_eq!(
        message(check_delete(&directory(), Some("wiki/linked.md"), None).unwrap_err()),
        "Project content symlinks are not allowed: wiki/linked.md"
    );
}

#[test]
fn the_first_symlink_in_a_directory_is_found_at_any_depth() {
    let entry = |name: &str, kind: EntryKind, entries: Vec<RawEntry>| RawEntry {
        name: name.to_string(),
        metadata: metadata(kind, 1, 2),
        entries,
    };
    let plain = vec![
        entry("a.md", EntryKind::File, vec![]),
        entry("socket", EntryKind::Other, vec![]),
        entry("empty", EntryKind::Directory, vec![]),
    ];
    assert_eq!(first_symlink_in_tree(&plain, &path("wiki")), None);
    let linked = vec![
        entry("a.md", EntryKind::File, vec![]),
        entry(
            "deep",
            EntryKind::Directory,
            vec![entry(
                "deeper",
                EntryKind::Directory,
                vec![entry("first", EntryKind::Symlink, vec![])],
            )],
        ),
        entry("second", EntryKind::Symlink, vec![]),
    ];
    assert_eq!(
        first_symlink_in_tree(&linked, &path("wiki")),
        Some("wiki/deep/deeper/first".to_string())
    );
    let not_entered = vec![entry(
        "a.md",
        EntryKind::File,
        vec![entry("link", EntryKind::Symlink, vec![])],
    )];
    assert_eq!(first_symlink_in_tree(&not_entered, &path("")), None);
}

#[test]
fn names_are_tried_until_one_is_free() {
    assert_eq!(after_try(0, false), NameStep::Take(0));
    assert_eq!(after_try(0, true), NameStep::Try(1));
    assert_eq!(after_try(MAX_TRIES - 2, true), NameStep::Try(MAX_TRIES - 1));
    assert_eq!(after_try(MAX_TRIES - 1, true), NameStep::GiveUp);
    assert_eq!(after_try(MAX_TRIES - 1, false), NameStep::Take(MAX_TRIES - 1));
    assert!(matches!(no_upload_name(), FileServiceError::Conflict(_)));
}

#[test]
fn upload_names_are_numbered_before_the_extension() {
    let sources = path("raw/sources");
    assert_eq!(
        upload_candidate(&sources, "paper.txt", 0).to_text(),
        "raw/sources/paper.txt"
    );
    assert_eq!(
        upload_candidate(&sources, "paper.txt", 1).to_text(),
        "raw/sources/paper-1.txt"
    );
    assert_eq!(
        upload_candidate(&sources, "archive.tar.gz", 12).to_text(),
        "raw/sources/archive.tar-12.gz"
    );
    assert_eq!(
        upload_candidate(&sources, ".hidden", 2).to_text(),
        "raw/sources/.hidden-2"
    );
    assert_eq!(upload_candidate(&sources, "dot.", 2).to_text(), "raw/sources/dot-2");
}

#[test]
fn uploads_are_read() {
    let read = |name: &str, content: &str| {
        read_upload(&UploadFileRequest {
            file_name: name.to_string(),
            content_base64: content.to_string(),
        })
    };
    let upload = read(" paper.txt ", " YWxwaGE=\n").unwrap();
    assert_eq!(upload.file_name, "paper.txt");
    assert_eq!(upload.bytes, b"alpha".to_vec());
    assert_eq!(upload.sha256, sha256_hex(b"alpha"));
    assert_eq!(
        message(read("paper.txt", "not base64!").unwrap_err()),
        "Upload contentBase64 is not valid base64"
    );
    for name in ["", " ", ".", "..", "a/b", "a\\b", "a\0b"] {
        assert_eq!(
            message(read(name, "YWxwaGE=").unwrap_err()),
            "Upload fileName must be a single filename"
        );
        assert!(safe_upload_file_name(name).is_err());
    }
    assert!(accept_upload("a", None).is_err());
    assert_eq!(accept_upload("a", Some(vec![])).unwrap().bytes, Vec::<u8>::new());
    assert!(check_upload_count(1).is_ok());
    assert_eq!(
        message(check_upload_count(0).unwrap_err()),
        "At least one file is required"
    );
    assert!(must_compare(Some(file(1))));
    assert!(!must_compare(Some(directory())));
    assert!(!must_compare(None));
}

#[test]
fn digests_are_hexadecimal() {
    assert_eq!(
        sha256_hex(b"alpha"),
        "8ed3f6ad685b959ead7022518e1af76cd816f8e8ec7ccdda1ed4018e8f2223f8"
    );
}

fn entry(name: &str, kind: EntryKind, entries: Vec<RawEntry>) -> RawEntry {
    RawEntry {
        name: name.to_string(),
        metadata: metadata(kind, 3, 9),
        entries,
    }
}

fn sample() -> Vec<RawEntry> {
    vec![
        entry("zeta.md", EntryKind::File, vec![]),
        entry("linked.md", EntryKind::Symlink, vec![]),
        entry(".hidden", EntryKind::Directory, vec![]),
        entry(
            "Concepts",
            EntryKind::Directory,
            vec![
                entry("b.md", EntryKind::File, vec![]),
                entry("A.md", EntryKind::File, vec![]),
                entry("inner", EntryKind::Symlink, vec![]),
            ],
        ),
        entry("alpha.md", EntryKind::File, vec![]),
        entry("empty", EntryKind::Directory, vec![]),
        entry("Alpha.md", EntryKind::File, vec![]),
    ]
}

fn names(nodes: &[FileNode]) -> Vec<String> {
    nodes.iter().map(|node| node.name.clone()).collect()
}

#[test]
fn trees_show_directories_first_and_no_symlinks() {
    let mut skipped = Vec::new();
    let nodes = build_tree(&sample(), &path("wiki"), 0, 30, false, &mut skipped);
    assert_eq!(
        names(&nodes),
        vec!["Concepts", "empty", "Alpha.md", "alpha.md", "zeta.md"]
    );
    assert_eq!(skipped, vec!["wiki/linked.md", "wiki/Concepts/inner"]);
    let concepts = nodes[0].children.as_ref().unwrap();
    assert_eq!(names(concepts), vec!["A.md", "b.md"]);
    assert_eq!(concepts[0].path, "wiki/Concepts/A.md");
    assert_eq!(concepts[0].size, Some(3));
    assert_eq!(concepts[0].version, "9:3");
    assert!(nodes[0].is_dir);
    assert_eq!(nodes[0].size, None);
    assert!(nodes[1].children.is_none());
    let answer = answer_tree(&path("wiki"), nodes, skipped);
    assert!(answer.ok);
    assert_eq!(answer.path, "wiki");
}

#[test]
fn trees_end_at_their_depth() {
    let mut skipped = Vec::new();
    let nodes = build_tree(&sample(), &path(""), 0, 1, true, &mut skipped);
    assert_eq!(
        names(&nodes),
        vec![".hidden", "Concepts", "empty", "Alpha.md", "alpha.md", "zeta.md"]
    );
    assert_eq!(nodes[1].path, "Concepts");
    assert!(nodes[1].children.is_none());
    assert_eq!(skipped, vec!["linked.md"]);
    assert_eq!(tree_depth(None), MAX_TREE_DEPTH);
    assert_eq!(tree_depth(Some(0)), 1);
    assert_eq!(tree_depth(Some(5)), 5);
    assert_eq!(tree_depth(Some(1000)), MAX_TREE_DEPTH);
    assert!(entry_is_visible("a", false));
    assert!(!entry_is_visible(".a", false));
    assert!(entry_is_visible(".a", true));
    assert!(enters("a", &directory(), 0, 2, false));
    assert!(!enters("a", &directory(), 1, 2, false));
    assert!(!enters(".a", &directory(), 0, 2, false));
    assert!(!enters("a", &file(1), 0, 2, false));
}
