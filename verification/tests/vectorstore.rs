use llm_wiki_server::files::EntryKind;
use llm_wiki_server::paths::PathStyle;
use llm_wiki_server::search::ContentServiceError;
use llm_wiki_server::vectorstore::{
    check_index_directory, check_index_inside, clamp_results, has_table, requested_results,
    vector_status, MAX_VECTOR_RESULTS, TABLE_V1, TABLE_V2,
};

#[test]
fn counts_tell_whether_the_index_is_filled() {
    let empty = vector_status(0, 0);
    assert!(empty.ok);
    assert!(!empty.available);
    assert_eq!(empty.chunk_count, 0);
    assert!(vector_status(1, 0).available);
    assert!(vector_status(0, 1).available);
    assert_eq!(vector_status(3, 2).legacy_page_count, 2);
}

#[test]
fn numbers_of_results_have_limits() {
    assert_eq!(clamp_results(0), 1);
    assert_eq!(clamp_results(7), 7);
    assert_eq!(clamp_results(10_000), MAX_VECTOR_RESULTS);
    assert_eq!(requested_results(None), 20);
    assert_eq!(requested_results(Some(3)), 3);
}

#[test]
fn tables_are_found_by_name() {
    let tables = vec![TABLE_V2.to_string()];
    assert!(has_table(&tables, TABLE_V2));
    assert!(!has_table(&tables, TABLE_V1));
    assert!(!has_table(&vec![], TABLE_V1));
}

#[test]
fn index_directories_are_checked() {
    assert!(check_index_directory(Some(EntryKind::Directory)).unwrap());
    assert!(!check_index_directory(None).unwrap());
    assert!(matches!(
        check_index_directory(Some(EntryKind::Symlink)),
        Err(ContentServiceError::InvalidProject(_))
    ));
    assert!(check_index_directory(Some(EntryKind::File)).is_err());
    assert!(check_index_inside(PathStyle::Unix, "/srv/p/.llm-wiki/lancedb", "/srv/p").is_ok());
    assert!(check_index_inside(PathStyle::Unix, "/srv/other", "/srv/p").is_err());
}
