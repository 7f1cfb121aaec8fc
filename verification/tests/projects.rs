use llm_wiki_server::db::ProjectRecord;
use llm_wiki_server::files::{EntryKind, FileMetadata, RawEntry};
use llm_wiki_server::paths::{PathStyle, RelativePath};
use llm_wiki_server::projects::{
    advance, check_import_source, choose_import_name, copy_project_tree, destination_for_name,
    generate_uuid_v4, import_source, keeps_identity, make_slug, project_directories,
    project_files, sanitize_project_dir_name, uuid_of, validate_project_root, AddingEvent,
    AddingStage, CopyWork, ProjectResponse, ProjectServiceError, SlugChar, SCHEMA_MD,
};

fn message(error: ProjectServiceError) -> String {
    match error {
        ProjectServiceError::InvalidInput(m)
        | ProjectServiceError::InvalidProject(m)
        | ProjectServiceError::Conflict(m)
        | ProjectServiceError::Internal(m) => m,
        ProjectServiceError::SetupRequired => "setup".to_string(),
    }
}

#[test]
fn project_names_are_sanitized_for_data_root_children() {
    assert_eq!(
        sanitize_project_dir_name(" My Research Project ").unwrap(),
        "my-research-project"
    );
    assert_eq!(sanitize_project_dir_name("../escape").unwrap(), "escape");
    assert!(sanitize_project_dir_name("...").is_err());
}

#[test]
fn separators_are_joined_and_letters_lowered() {
    assert_eq!(sanitize_project_dir_name("a_-_b").unwrap(), "a-b");
    assert_eq!(sanitize_project_dir_name("--a--").unwrap(), "a");
    assert_eq!(sanitize_project_dir_name("a.b").unwrap(), "ab");
    assert_eq!(sanitize_project_dir_name("ÄÖ Straße").unwrap(), "äö-straße");
    assert_eq!(sanitize_project_dir_name("知识 库").unwrap(), "知识-库");
    assert_eq!(sanitize_project_dir_name("İ").unwrap(), "i\u{307}");
    assert_eq!(
        message(sanitize_project_dir_name("- _").unwrap_err()),
        "Project name must contain at least one letter or number"
    );
}

#[test]
fn slugs_are_made_of_classified_characters() {
    let letter = |c: char| SlugChar { c, alphanumeric: true, lower: vec![c] };
    let other = |c: char| SlugChar { c, alphanumeric: false, lower: vec![c] };
    let slug = make_slug(&vec![other('-'), letter('a'), other(' '), other('!'), letter('b')]);
    assert_eq!(slug.into_iter().collect::<String>(), "a-b");
}

#[test]
fn destinations_are_children_of_the_data_root() {
    let place = destination_for_name("  My Wiki ").unwrap();
    assert_eq!(place.name, "My Wiki");
    assert_eq!(place.relative_path, "my-wiki");
    assert_eq!(
        message(destination_for_name("  ").unwrap_err()),
        "Project name is required"
    );
    assert_eq!(
        message(destination_for_name(".llm-wiki-server").unwrap_err()),
        "Project name is reserved"
    );
    assert_eq!(
        message(destination_for_name("!!").unwrap_err()),
        "Project name must contain at least one letter or number"
    );
}

#[test]
fn import_names_come_from_the_request_or_the_source() {
    assert_eq!(choose_import_name(Some(" A "), Some("b")).unwrap(), "A");
    assert_eq!(choose_import_name(Some("  "), Some("b")).unwrap(), "b");
    assert_eq!(choose_import_name(None, Some("b")).unwrap(), "b");
    assert_eq!(
        message(choose_import_name(None, Some(" ")).unwrap_err()),
        "Project name could not be inferred"
    );
    assert!(choose_import_name(Some(""), None).is_err());
}

#[test]
fn import_sources_are_absolute_directories() {
    assert_eq!(import_source(PathStyle::Unix, " /srv/wiki ").unwrap(), "/srv/wiki");
    assert_eq!(
        message(import_source(PathStyle::Unix, "srv/wiki").unwrap_err()),
        "Import source must be an absolute server path"
    );
    assert!(import_source(PathStyle::Unix, "").is_err());
    assert_eq!(import_source(PathStyle::Windows, r" C:\wiki ").unwrap(), r"C:\wiki");
    assert!(import_source(PathStyle::Windows, r"\wiki").is_err());
    assert!(check_import_source(Some(EntryKind::Directory)).is_ok());
    assert_eq!(
        message(check_import_source(Some(EntryKind::Symlink)).unwrap_err()),
        "Import source must not be a symlink"
    );
    assert_eq!(
        message(check_import_source(Some(EntryKind::File)).unwrap_err()),
        "Import source must be a directory"
    );
    assert_eq!(
        message(check_import_source(None).unwrap_err()),
        "Import source is not a valid project"
    );
}

#[test]
fn projects_have_a_schema_and_a_wiki() {
    let file = Some(EntryKind::File);
    let directory = Some(EntryKind::Directory);
    assert!(validate_project_root(file, directory).is_ok());
    assert_eq!(
        message(validate_project_root(Some(EntryKind::Symlink), directory).unwrap_err()),
        "Not a valid project: missing schema.md"
    );
    assert_eq!(
        message(validate_project_root(file, None).unwrap_err()),
        "Not a valid project: missing wiki directory"
    );
}

fn entry(name: &str, kind: EntryKind, entries: Vec<RawEntry>) -> RawEntry {
    RawEntry {
        name: name.to_string(),
        metadata: FileMetadata { kind, size: 1, modified_at_ms: 2 },
        entries,
    }
}

fn relative(parts: &[&str]) -> RelativePath {
    RelativePath { parts: parts.iter().map(|part| part.to_string()).collect() }
}

#[test]
fn imports_copy_files_and_report_symlinks() {
    let source = vec![
        entry("schema.md", EntryKind::File, vec![]),
        entry(
            "wiki",
            EntryKind::Directory,
            vec![
                entry("index.md", EntryKind::File, vec![]),
                entry("outside.md", EntryKind::Symlink, vec![]),
                entry("notes", EntryKind::Directory, vec![]),
            ],
        ),
        entry("pipe", EntryKind::Other, vec![]),
        entry("linked", EntryKind::Symlink, vec![entry("a.md", EntryKind::File, vec![])]),
    ];
    let mut works = Vec::new();
    let mut skipped = vec!["before".to_string()];
    copy_project_tree(&source, &RelativePath::new(), &mut works, &mut skipped);
    assert_eq!(
        works,
        vec![
            CopyWork::CopyFile(relative(&["schema.md"])),
            CopyWork::MakeDirectory(relative(&["wiki"])),
            CopyWork::CopyFile(relative(&["wiki", "index.md"])),
            CopyWork::MakeDirectory(relative(&["wiki", "notes"])),
        ]
    );
    assert_eq!(skipped, vec!["before", "wiki/outside.md", "linked"]);
}

fn run(events: Vec<AddingEvent>) -> AddingStage {
    let mut stage = AddingStage::Looking;
    for event in events {
        stage = advance(stage, event);
    }
    stage
}

fn done(n: usize) -> Vec<AddingEvent> {
    (0..n).map(|_| AddingEvent::Done).collect()
}

#[test]
fn a_project_is_added_where_everything_is_free() {
    assert!(matches!(run(done(6)), AddingStage::Registering));
    assert!(matches!(run(done(7)), AddingStage::Added));
    assert!(matches!(run(done(9)), AddingStage::Added));
}

#[test]
fn a_project_is_not_added_twice() {
    let cases = [
        (0, false, "Project directory already exists under the Data Root"),
        (1, false, "Project is already registered under that Data Root path"),
        (4, true, "Project is already registered"),
        (5, true, "Project is already registered under that Data Root path"),
    ];
    for (before, removes, expected) in cases {
        let mut events = done(before);
        events.push(AddingEvent::Taken);
        let stage = run(events);
        let error = match stage {
            AddingStage::Failed(error) => {
                assert!(!removes);
                error
            }
            AddingStage::Removing(error) => {
                assert!(removes);
                match advance(AddingStage::Removing(error), AddingEvent::Done) {
                    AddingStage::Failed(error) => error,
                    _ => panic!("adding must fail"),
                }
            }
            _ => panic!("adding must stop"),
        };
        assert_eq!(message(error), expected);
    }
}

#[test]
fn a_failed_project_leaves_no_directory() {
    let failed = || AddingEvent::Failed(ProjectServiceError::Internal("disk full".to_string()));
    for before in [0, 1, 2] {
        let mut events = done(before);
        events.push(failed());
        assert!(matches!(run(events), AddingStage::Failed(_)));
    }
    for before in [3, 4, 5, 6] {
        let mut events = done(before);
        events.push(failed());
        assert!(matches!(run(events), AddingStage::Removing(_)));
    }
}

#[test]
fn identities_are_random_uuids() {
    let zero = uuid_of(&vec![0; 16]);
    assert_eq!(zero, "00000000-0000-4000-8000-000000000000");
    let full = uuid_of(&vec![255; 16]);
    assert_eq!(full, "ffffffff-ffff-4fff-bfff-ffffffffffff");
    let bytes: Vec<u8> = (0..16).collect();
    assert_eq!(uuid_of(&bytes), "00010203-0405-4607-8809-0a0b0c0d0e0f");
    let one = generate_uuid_v4();
    assert_eq!(one.len(), 36);
    assert_eq!(&one[14..15], "4");
    assert!(one.contains('-'));
    assert_ne!(one, generate_uuid_v4());
    assert!(keeps_identity(Some("id")));
    assert!(!keeps_identity(Some("  ")));
    assert!(!keeps_identity(None));
}

#[test]
fn new_projects_have_their_directories_and_files() {
    let directories = project_directories();
    assert_eq!(directories.len(), 9);
    assert!(directories.contains(&"raw/sources".to_string()));
    assert!(directories.contains(&".obsidian".to_string()));
    let files = project_files();
    let schema = files.iter().find(|file| file.path == "schema.md").unwrap();
    assert_eq!(schema.contents, SCHEMA_MD);
    assert!(schema.contents.starts_with("# Wiki Schema\n"));
    assert!(files.iter().any(|file| file.path == "wiki/index.md"));
    assert!(files.iter().any(|file| file.path == ".obsidian/app.json"));
}

#[test]
fn records_become_responses() {
    let response = ProjectResponse::from(ProjectRecord {
        id: "project-id".to_string(),
        name: "Project Name".to_string(),
        relative_path: "project-name".to_string(),
        source: "created".to_string(),
        created_at: "then".to_string(),
        updated_at: "now".to_string(),
    });
    assert_eq!(response.id, "project-id");
    assert_eq!(response.relative_path, "project-name");
    assert_eq!(response.updated_at, "now");
}

#[test]
fn letters_are_classified_and_lowered_as_in_the_standard_library() {
    for code in 0..=0x10ffff_u32 {
        if let Some(c) = char::from_u32(code) {
            let made = sanitize_project_dir_name(&c.to_string());
            if c.is_alphanumeric() {
                assert_eq!(made.unwrap(), c.to_lowercase().collect::<String>(), "{code:x}");
            } else {
                assert!(made.is_err(), "{code:x}");
            }
        }
    }
}

#[test]
fn directory_names_give_themselves() {
    for name in ["a", "a-b-c", "wiki-2", "0"] {
        assert_eq!(sanitize_project_dir_name(name).unwrap(), name);
    }
    assert_eq!(sanitize_project_dir_name("--A  b__C--").unwrap(), "a-b-c");
    assert_eq!(sanitize_project_dir_name("a - - b").unwrap(), "a-b");
    for name in ["", "--", "_ _", "!?"] {
        assert!(sanitize_project_dir_name(name).is_err());
    }
}
