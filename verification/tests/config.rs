use llm_wiki_server::config::{
    resolve_server_paths, ConfigError, PrepareEvent, PrepareStage, Preparation, ServerPaths,
    CONFIG_DB_FILE, SERVER_HOME_DIR,
};
use llm_wiki_server::files::EntryKind;
use llm_wiki_server::paths::{join_path, path_is_absolute, path_stands_in, PathStyle};

fn run(data_root: &str, events: Vec<PrepareEvent>) -> PrepareStage {
    let mut preparation = Preparation::begin(PathStyle::Unix, data_root);
    for event in events {
        preparation = preparation.advance(event);
    }
    preparation.stage
}

fn failure(stage: PrepareStage) -> String {
    match stage {
        PrepareStage::Failed(error) => error.to_string(),
        _ => panic!("the directories must be refused"),
    }
}

#[test]
fn missing_or_blank_data_root_is_unconfigured() {
    assert!(resolve_server_paths(PathStyle::Unix, None).unwrap().is_none());
    assert!(resolve_server_paths(PathStyle::Unix, Some("   ")).unwrap().is_none());
}

#[test]
fn relative_data_root_is_rejected() {
    let err = resolve_server_paths(PathStyle::Unix, Some("relative/path")).unwrap_err();
    assert!(err.to_string().contains("absolute path"));
    assert!(failure(run("relative/path", vec![])).contains("absolute path"));
}

#[test]
fn absolute_data_root_is_taken_without_white_space() {
    assert_eq!(
        resolve_server_paths(PathStyle::Unix, Some("  /srv/wiki  ")).unwrap(),
        Some("/srv/wiki".to_string())
    );
}

#[test]
fn server_home_is_created_under_data_root() {
    let stage = run(
        "/srv/data-root",
        vec![
            PrepareEvent::Done,
            PrepareEvent::Resolved("/srv/data-root".to_string()),
            PrepareEvent::Found(EntryKind::Directory),
            PrepareEvent::Missing,
            PrepareEvent::Done,
            PrepareEvent::Found(EntryKind::Directory),
            PrepareEvent::Done,
            PrepareEvent::Done,
            PrepareEvent::Resolved("/srv/data-root/.llm-wiki-server".to_string()),
        ],
    );
    let paths = match stage {
        PrepareStage::Ready(paths) => paths,
        _ => panic!("the directories must be ready"),
    };
    assert_eq!(paths.data_root(), "/srv/data-root");
    assert_eq!(paths.server_home(), "/srv/data-root/.llm-wiki-server");
    assert!(path_stands_in(PathStyle::Unix, paths.server_home(), paths.data_root()));
    assert!(paths.server_home().ends_with(SERVER_HOME_DIR));
    assert!(paths.config_db_path().ends_with(CONFIG_DB_FILE));
    assert_eq!(
        paths.config_db_path(),
        "/srv/data-root/.llm-wiki-server/config.sqlite"
    );
}

#[test]
fn server_home_symlink_escape_is_rejected() {
    let before = failure(run(
        "/srv/data-root",
        vec![
            PrepareEvent::Done,
            PrepareEvent::Resolved("/srv/data-root".to_string()),
            PrepareEvent::Found(EntryKind::Directory),
            PrepareEvent::Found(EntryKind::Symlink),
        ],
    ));
    assert!(before.contains("must not be a symlink"));
    let after = failure(run(
        "/srv/data-root",
        vec![
            PrepareEvent::Done,
            PrepareEvent::Resolved("/srv/data-root".to_string()),
            PrepareEvent::Found(EntryKind::Directory),
            PrepareEvent::Missing,
            PrepareEvent::Done,
            PrepareEvent::Found(EntryKind::Symlink),
        ],
    ));
    assert!(after.contains("must not be a symlink"));
}

#[test]
fn a_server_home_outside_is_rejected() {
    let outside = run(
        "/srv/data-root",
        vec![
            PrepareEvent::Done,
            PrepareEvent::Resolved("/srv/data-root".to_string()),
            PrepareEvent::Found(EntryKind::Directory),
            PrepareEvent::Found(EntryKind::Directory),
            PrepareEvent::Done,
            PrepareEvent::Found(EntryKind::Directory),
            PrepareEvent::Done,
            PrepareEvent::Done,
            PrepareEvent::Resolved("/srv/elsewhere".to_string()),
        ],
    );
    assert_eq!(
        failure(outside),
        "Server Home must stay under the configured Data Root"
    );
}

#[test]
fn failures_name_the_directory_and_the_reason() {
    let failed = || PrepareEvent::Failed("denied".to_string());
    let before = || {
        vec![
            PrepareEvent::Done,
            PrepareEvent::Resolved("/real".to_string()),
            PrepareEvent::Found(EntryKind::Directory),
            PrepareEvent::Missing,
            PrepareEvent::Done,
            PrepareEvent::Missing,
            PrepareEvent::Done,
            PrepareEvent::Done,
        ]
    };
    let expected = [
        (0, "failed to create Data Root /srv: denied"),
        (1, "failed to canonicalize Data Root /srv: denied"),
        (2, "Data Root /real is not a directory"),
        (4, "failed to create Server Home /real/.llm-wiki-server: denied"),
        (6, "failed to inspect Server Home /real/.llm-wiki-server: denied"),
        (7, "failed to restrict Server Home /real/.llm-wiki-server: denied"),
        (8, "failed to canonicalize Server Home /real/.llm-wiki-server: denied"),
    ];
    for (steps, message) in expected {
        let mut events = before();
        events.truncate(steps);
        events.push(failed());
        assert_eq!(failure(run("/srv", events)), message);
    }
}

#[test]
fn paths_are_joined_and_compared_by_names() {
    assert_eq!(join_path(PathStyle::Unix, "/srv", "wiki"), "/srv/wiki");
    assert_eq!(join_path(PathStyle::Unix, "/", "wiki"), "/wiki");
    assert_eq!(join_path(PathStyle::Unix, "", "wiki"), "wiki");
    assert!(path_stands_in(PathStyle::Unix, "/srv/wiki", "/srv"));
    assert!(path_stands_in(PathStyle::Unix, "/srv", "/srv"));
    assert!(!path_stands_in(PathStyle::Unix, "/srv-other", "/srv"));
}

#[test]
fn windows_paths_name_a_drive_or_a_share() {
    let style = PathStyle::Windows;
    for path in [r"C:\srv", "c:/srv", r"\\host\share", r"\\?\C:\srv", "//host/share/a"] {
        assert!(path_is_absolute(style, path));
    }
    for path in [r"\srv", "C:srv", "C:", "srv", "", r"\\host", r"\\host\", r"\\\share\a"] {
        assert!(!path_is_absolute(style, path));
    }
    assert_eq!(join_path(style, r"C:\srv", "wiki"), r"C:\srv\wiki");
    assert_eq!(join_path(style, r"C:\", "wiki"), r"C:\wiki");
    assert_eq!(join_path(style, "c:/", "wiki"), "c:/wiki");
    assert_eq!(join_path(style, "C:", "wiki"), "C:wiki");
    assert!(path_stands_in(style, r"C:\srv\wiki", "C:/srv"));
    assert!(!path_stands_in(style, r"D:\srv\wiki", r"C:\srv"));
    assert!(!path_stands_in(PathStyle::Unix, r"/srv\wiki", "/srv"));
    assert_eq!(
        resolve_server_paths(style, Some(r" C:\wiki ")).unwrap(),
        Some(r"C:\wiki".to_string())
    );
    assert!(resolve_server_paths(style, Some(r"\wiki")).is_err());
    let paths = ServerPaths::new(style, r"C:\a".to_string(), r"C:\a\b".to_string());
    assert_eq!(paths.config_db_path(), r"C:\a\b\config.sqlite");
    let mut preparation = Preparation::begin(style, r"C:\a");
    for event in [
        PrepareEvent::Done,
        PrepareEvent::Resolved(r"\\?\C:\a".to_string()),
        PrepareEvent::Found(EntryKind::Directory),
        PrepareEvent::Missing,
        PrepareEvent::Done,
        PrepareEvent::Found(EntryKind::Directory),
        PrepareEvent::Done,
        PrepareEvent::Done,
        PrepareEvent::Resolved(r"\\?\C:\a\.llm-wiki-server".to_string()),
    ] {
        preparation = preparation.advance(event);
    }
    match preparation.stage {
        PrepareStage::Ready(paths) => assert_eq!(
            paths.config_db_path(),
            r"\\?\C:\a\.llm-wiki-server\config.sqlite"
        ),
        _ => panic!("the directories must be ready"),
    }
}

#[test]
fn server_paths_and_errors_keep_what_they_are_given() {
    let paths = ServerPaths::new(PathStyle::Unix, "/a".to_string(), "/a/b".to_string());
    assert_eq!(paths.data_root(), "/a");
    assert_eq!(paths.server_home(), "/a/b");
    assert_eq!(paths.clone(), paths);
    assert_eq!(ConfigError::new("why".to_string()).to_string(), "why");
}
