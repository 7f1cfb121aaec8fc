use llm_wiki_server::db::{
    any_row, check_database_file, sqlite_file_set, sqlite_sidecar_path, SetupState,
};

#[test]
fn opens_config_database_and_reports_setup_required_without_owner() {
    let setup = SetupState::of_owner_count(0);
    assert!(!setup.owner_configured);
    assert!(setup.setup_required());
}

#[test]
fn setup_state_reports_ready_after_owner_exists() {
    let setup = SetupState::of_owner_count(1);
    assert!(setup.owner_configured);
    assert!(!setup.setup_required());
}

#[test]
fn config_database_symlink_is_rejected() {
    let err = check_database_file("/srv/config.sqlite", true).unwrap_err();
    assert_eq!(err, "config database /srv/config.sqlite must not be a symlink");
    assert!(check_database_file("/srv/config.sqlite", false).is_ok());
}

#[test]
fn the_database_is_kept_in_three_files() {
    assert_eq!(
        sqlite_file_set("/srv/config.sqlite"),
        vec![
            "/srv/config.sqlite",
            "/srv/config.sqlite-wal",
            "/srv/config.sqlite-shm"
        ]
    );
    assert_eq!(sqlite_sidecar_path("a", "-b"), "a-b");
    assert!(any_row(1));
    assert!(!any_row(0));
}
