use llm_wiki_server::files::{EntryKind, FileServiceError};
use llm_wiki_server::graph::WikiPage;
use llm_wiki_server::markdown::{extract_metadata, extract_wikilinks};
use llm_wiki_server::paths::RelativePath;
use llm_wiki_server::search::{
    build_snippet, build_snippet_lowered, check_wiki_directory, extract_image_refs, extract_title,
    first_text_snippet, fuse, group_chunks, is_stop_word, key_order, match_lowered, plan_lowered,
    plan_search, rank_pages, score_file, take_wiki_entry, token_match_score, tokenize_query,
    trim_query_punctuation, validate_embedding, vector_candidates, vector_snippet,
    wiki_markdown_files, ChunkKey, ContentServiceError, ProjectSearchRequest, ProjectSearchResult,
    Scored, SearchPlan, SearchScore, WalkedEntry, WikiDirectory, MAX_EMBEDDING_DIMENSIONS,
    MAX_SEARCH_FILES,
};
use llm_wiki_server::text::to_chars;
use llm_wiki_server::wiki_search::{
    answer_ranked, answer_words, join_ranked, search_wiki, search_words, RankedPage,
};

#[test]
fn search_helpers_preserve_existing_desktop_contract() {
    assert!(tokenize_query("What is vector search?").contains(&"vector".to_string()));
    assert_eq!(
        extract_title("---\ntitle: 'Vector Search'\n---\n# Ignored", "vector.md"),
        "Vector Search"
    );
    assert_eq!(
        extract_image_refs("![diagram](media/vector.png)")[0].url,
        "media/vector.png"
    );
}

#[test]
fn queries_are_taken_apart_into_tokens() {
    assert_eq!(tokenize_query("What is Vector search?"), vec!["search", "vector"]);
    assert_eq!(tokenize_query("a b the"), Vec::<String>::new());
    assert_eq!(tokenize_query("retrieval, retrieval; RETRIEVAL"), vec!["retrieval"]);
    assert_eq!(
        tokenize_query("向量检索"),
        vec!["向", "向量", "向量检索", "检", "检索", "索", "量", "量检"]
    );
    assert_eq!(tokenize_query("向量"), vec!["向量"]);
    assert_eq!(tokenize_query("ÄPFEL"), vec!["äpfel"]);
    assert!(is_stop_word(&to_chars("the")));
    assert!(is_stop_word(&to_chars("的")));
    assert!(!is_stop_word(&to_chars("vector")));
    assert_eq!(trim_query_punctuation("?alpha beta!"), "alpha beta");
    assert_eq!(token_match_score("Alpha BETA", &vec!["alpha".into(), "eta".into(), "x".into()]), 2);
}

#[test]
fn titles_come_from_front_matter_headings_or_file_names() {
    assert_eq!(extract_title("---\ntitle: \"Quoted\"\n---\n", "a.md"), "Quoted");
    assert_eq!(extract_title("---\ntype: x\n---\ntext\n# Head ", "a.md"), "Head");
    assert_eq!(extract_title("intro\n# Head\n# Second", "a.md"), "Head");
    assert_eq!(extract_title("---\n# Not closed", "my-page.md"), "my page");
    assert_eq!(extract_title("", "my-page.md"), "my page");
    assert_eq!(extract_title("## Deeper", "x.md.md"), "x");
}

#[test]
fn images_are_found_once() {
    let refs = extract_image_refs("![a](x.png) ![b](y.png) ![c](x.png) ![open](");
    let urls: Vec<&str> = refs.iter().map(|image| image.url.as_str()).collect();
    assert_eq!(urls, vec!["x.png", "y.png"]);
    assert_eq!(refs[0].alt, "a");
    assert!(extract_image_refs("no images").is_empty());
}

#[test]
fn links_and_metadata_are_read() {
    assert_eq!(
        extract_wikilinks("See [[alpha]], [[beta|Beta]] and [[alpha]]."),
        vec!["alpha", "beta", "alpha"]
    );
    let data = extract_metadata(
        "---\ntitle: Alpha\ntype: Concept\nsources: [paper.pdf, \"b.pdf\"]\n---\nbody",
        "alpha.md",
    );
    assert_eq!(data.title, "Alpha");
    assert_eq!(data.sources.to_strings(), vec!["b.pdf", "paper.pdf"]);
    let plain = extract_metadata("no front matter", "my-page.md");
    assert_eq!(plain.sources.len(), 0);
}

#[test]
fn snippets_stand_around_their_anchor() {
    assert_eq!(build_snippet("one two\nthree", "two"), Some("one two three".to_string()));
    let long = format!("{}needle{}", "a".repeat(100), "b".repeat(100));
    let expected = format!("...{}needle{}...", "a".repeat(80), "b".repeat(80));
    assert_eq!(build_snippet(&long, "NEEDLE"), Some(expected));
    assert_eq!(build_snippet("abc", "missing"), Some("abc".to_string()));
    assert_eq!(build_snippet("", "x"), Some(String::new()));
    let chars = |s: &str| to_chars(s);
    assert_eq!(
        build_snippet_lowered(&chars("ABC"), &chars("abc"), &chars("b"), &chars("b")),
        Some(chars("ABC"))
    );
    assert_eq!(build_snippet("İstanbul ß", "ß"), None);
    assert_eq!(
        first_text_snippet("---\n\none\n two \n---\nthree"),
        "one  two  three"
    );
    assert_eq!(first_text_snippet(&"x".repeat(200)), format!("{}...", "x".repeat(160)));
    assert_eq!(vector_snippet(" part\ntext ", " Head "), "Head: part text");
    assert_eq!(vector_snippet("part", "  "), "part");
    assert_eq!(vector_snippet("  ", "Head"), "");
}

#[test]
fn embeddings_are_validated() {
    assert!(validate_embedding(3, true).is_ok());
    for (dimensions, finite) in [(0, true), (MAX_EMBEDDING_DIMENSIONS + 1, true), (3, false)] {
        assert!(matches!(
            validate_embedding(dimensions, finite),
            Err(ContentServiceError::InvalidInput(_))
        ));
    }
}

fn request(query: &str) -> ProjectSearchRequest {
    ProjectSearchRequest {
        query: query.to_string(),
        top_k: None,
        include_content: None,
        expand_graph: None,
    }
}

fn plan(query: &str) -> SearchPlan {
    plan_search(&request(query)).unwrap()
}

#[test]
fn searches_are_planned() {
    let plan = plan_search(&ProjectSearchRequest {
        query: "  The Vector? ".to_string(),
        top_k: Some(1000),
        include_content: Some(true),
        expand_graph: Some(true),
    })
    .unwrap();
    assert_eq!(plan.query, "The Vector?");
    assert_eq!(plan.tokens, vec!["vector"]);
    assert_eq!(plan.phrase, "the vector");
    assert_eq!(plan.limit, 50);
    assert!(plan.include_content);
    assert!(plan.expand_graph);
    assert_eq!(plan.vector_chunks(), 150);
    assert_eq!(plan.vector_pages(), 50);
    let short = plan_lowered("The", "the", Some(0), None, None);
    assert_eq!(short.tokens, vec!["the"]);
    assert_eq!(short.limit, 1);
    assert_eq!(short.vector_chunks(), 30);
    assert_eq!(short.vector_pages(), 10);
    assert!(matches!(
        plan_search(&request("  ")),
        Err(ContentServiceError::InvalidInput(_))
    ));
}

fn hit(scored: Scored) -> ProjectSearchResult {
    match scored {
        Scored::Hit(result) => result,
        _ => panic!("the page must be found"),
    }
}

#[test]
fn pages_are_scored_by_phrase_and_tokens() {
    let result = hit(score_file(
        &plan("alpha concept"),
        "wiki/concepts/alpha.md",
        "---\ntitle: Alpha Concept\n---\nThe alpha concept and the Alpha Concept.",
    ));
    assert_eq!(result.path, "wiki/concepts/alpha.md");
    assert_eq!(result.title, "Alpha Concept");
    assert!(result.title_match);
    assert_eq!(result.score, SearchScore::Keyword(50 + 3 * 20 + 2 * 5 + 2));
    assert_eq!(result.content, None);
    let exact = hit(score_file(&plan("alpha"), "wiki/alpha.md", "nothing"));
    assert_eq!(exact.score, SearchScore::Keyword(200 + 50 + 5));
    let many = hit(score_file(&plan("xy"), "wiki/a.md", &"xy ".repeat(30)));
    assert_eq!(many.score, SearchScore::Keyword(10 * 20 + 1));
    assert!(!many.title_match);
    assert!(matches!(score_file(&plan("zeta"), "wiki/a.md", "text"), Scored::Miss));
    assert!(matches!(
        score_file(&plan("ß"), "wiki/a.md", "İstanbul ß"),
        Scored::NoSnippet
    ));
    let chars = |s: &str| to_chars(s);
    let found = match_lowered(
        &chars("title a.md"),
        &chars("body word"),
        &chars("a"),
        &vec!["word".to_string()],
        "missing",
        "Query",
    )
    .unwrap();
    assert_eq!(found.points, 1);
    assert!(!found.title_match);
    assert_eq!(found.anchor, "word");
}

fn page(path: &str, content: &str) -> WikiPage {
    WikiPage {
        file_name: path.rsplit('/').next().unwrap().to_string(),
        path: path.to_string(),
        content: content.to_string(),
    }
}

fn knowledge() -> Vec<WikiPage> {
    vec![
        page(
            "wiki/concepts/alpha.md",
            "---\ntitle: Alpha Concept\ntype: concept\nsources: [paper.pdf]\n---\n# Alpha\nVector retrieval links to [[beta]].\n",
        ),
        page(
            "wiki/concepts/isolated.md",
            "---\ntitle: Isolated\ntype: concept\n---\n# Isolated\n",
        ),
        page(
            "wiki/entities/beta.md",
            "---\ntitle: Beta Entity\ntype: entity\nsources: [paper.pdf]\n---\n# Beta\nRelated material.\n",
        ),
    ]
}

#[test]
fn search_graph_and_vector_status_are_project_scoped_and_path_private() {
    let plan = plan_search(&ProjectSearchRequest {
        query: "Alpha Concept".to_string(),
        top_k: Some(20),
        include_content: None,
        expand_graph: Some(true),
    })
    .unwrap();
    let answer = search_wiki(&plan, &knowledge()).unwrap();
    assert!(answer.ok);
    assert_eq!(answer.mode, "graph");
    assert_eq!(answer.graph_hits, 1);
    assert!(answer
        .results
        .iter()
        .any(|result| result.path == "wiki/entities/beta.md"));
    assert!(answer
        .results
        .iter()
        .all(|result| result.path.starts_with("wiki/")));
}

#[test]
fn results_come_by_score_and_path() {
    let pages = vec![
        page("wiki/b.md", "needle"),
        page("wiki/a.md", "needle"),
        page("wiki/needle.md", "needle"),
        page("wiki/other.md", "hay"),
    ];
    let answer = search_wiki(&plan("needle"), &pages).unwrap();
    let paths: Vec<&str> = answer.results.iter().map(|r| r.path.as_str()).collect();
    assert_eq!(paths, vec!["wiki/needle.md", "wiki/a.md", "wiki/b.md"]);
    assert_eq!(answer.mode, "keyword");
    assert_eq!(answer.token_hits, 3);
    assert_eq!(answer.vector_hits, 0);
    let mut one = plan("needle");
    one.limit = 1;
    assert_eq!(search_wiki(&one, &pages).unwrap().results.len(), 1);
    let none = search_wiki(&plan("ß"), &vec![page("wiki/a.md", "İstanbul ß")]);
    assert!(none.is_none());
}

#[test]
fn linked_pages_count_less_than_the_best() {
    let mut plan = plan("alpha");
    plan.expand_graph = true;
    plan.include_content = true;
    let found = search_words(&plan, &knowledge()).unwrap();
    assert_eq!(found.order, vec![0]);
    assert_eq!(found.graph_hits, 1);
    let points = match found.results[0].score {
        SearchScore::Keyword(points) => points,
        _ => panic!("the page must have points"),
    };
    let linked = &found.results[1];
    assert_eq!(linked.score, SearchScore::Graph(points));
    assert_eq!(linked.title, "Beta Entity");
    assert!(linked.snippet.starts_with("title: Beta Entity"));
    assert!(linked.content.is_some());
    let answer = answer_words(&plan, &found);
    assert_eq!(answer.results[0].path, "wiki/concepts/alpha.md");
    assert_eq!(answer.results.len(), 2);
}

#[test]
fn linked_pages_are_placed_by_fifteen_hundredths() {
    let pages = vec![
        page("wiki/aa.md", &format!("word {} [[zz]]", "word ".repeat(9))),
        page("wiki/bb.md", "word word"),
        page("wiki/cc.md", "word"),
        page("wiki/zz.md", "other"),
    ];
    let mut plan = plan("word");
    plan.expand_graph = true;
    let answer = search_wiki(&plan, &pages).unwrap();
    let paths: Vec<&str> = answer.results.iter().map(|r| r.path.as_str()).collect();
    assert_eq!(paths, vec!["wiki/aa.md", "wiki/bb.md", "wiki/zz.md", "wiki/cc.md"]);
}

fn chunk(page_id: &str, chunk_index: u32, key: u64) -> ChunkKey {
    ChunkKey { page_id: page_id.to_string(), chunk_index, key }
}

#[test]
fn chunks_are_grouped_by_page() {
    let groups = group_chunks(&vec![
        chunk("beta", 1, 5),
        chunk("alpha", 0, 3),
        chunk("beta", 0, 5),
        chunk("beta", 2, 9),
    ]);
    assert_eq!(groups.len(), 2);
    assert_eq!(groups[0].id, "alpha");
    assert_eq!(groups[0].chunks, vec![1]);
    assert_eq!(groups[1].id, "beta");
    assert_eq!(groups[1].chunks, vec![3, 2, 0]);
    let ids = vec!["alpha".to_string(), "beta".to_string(), "gamma".to_string()];
    assert_eq!(rank_pages(&ids, &vec![3, 9, 9], 2), vec![1, 2]);
    assert_eq!(rank_pages(&ids, &vec![3, 9, 9], 10), vec![1, 2, 0]);
}

fn ranked(id: &str) -> RankedPage {
    RankedPage {
        id: id.to_string(),
        chunk_text: format!("{id} text"),
        heading_path: format!("# {id}"),
    }
}

#[test]
fn words_and_vectors_are_joined() {
    let plan = plan("alpha");
    let pages = knowledge();
    let found = search_words(&plan, &pages).unwrap();
    let results = join_ranked(
        &plan,
        &pages,
        &vec![ranked("beta"), ranked("alpha"), ranked("unknown")],
        found,
    );
    assert_eq!(results.len(), 2);
    assert_eq!(results[0].path, "wiki/concepts/alpha.md");
    assert_eq!(results[0].score, SearchScore::Fused(Some(1), Some(2)));
    assert_eq!(results[0].vector, Some(1));
    assert_eq!(results[1].path, "wiki/entities/beta.md");
    assert_eq!(results[1].score, SearchScore::Fused(None, Some(1)));
    assert_eq!(results[1].vector, Some(0));
    assert_eq!(results[1].snippet, "# beta: beta text");
    let answer = answer_ranked(&plan, &results, &vec![7, 8], 1, 0, 3);
    assert_eq!(answer.mode, "hybrid");
    assert_eq!(answer.results[0].path, "wiki/entities/beta.md");
    assert_eq!(answer_ranked(&plan, &results, &vec![7, 8], 0, 0, 3).mode, "vector");
    assert_eq!(key_order(&results, &vec![5, 5]), vec![0, 1]);
}

#[test]
fn pages_that_are_ranked_twice_are_added_once() {
    let plan = plan("alpha");
    let pages = knowledge();
    let found = search_words(&plan, &pages).unwrap();
    let twice = vec![ranked("beta"), ranked("alpha"), ranked("beta"), ranked("alpha")];
    let results = join_ranked(&plan, &pages, &twice, found);
    assert_eq!(results.len(), 2);
    assert_eq!(results[0].score, SearchScore::Fused(Some(1), Some(4)));
    assert_eq!(results[0].vector, Some(3));
    assert_eq!(results[1].path, "wiki/entities/beta.md");
    assert_eq!(results[1].score, SearchScore::Fused(None, Some(3)));
    assert_eq!(results[1].vector, Some(2));
}

#[test]
fn pages_at_one_path_count_once() {
    let plan = plan("needle");
    let pages = vec![
        page("wiki/a.md", "needle"),
        page("wiki/a.md", "needle needle"),
        page("wiki/b.md", "needle"),
    ];
    let found = search_words(&plan, &pages).unwrap();
    assert_eq!(found.results.len(), 3);
    assert_eq!(found.token_hits, 2);
    assert_eq!(found.order, vec![1, 0, 2]);
    let answer = search_wiki(&plan, &pages).unwrap();
    assert_eq!(answer.token_hits, 2);
    assert_eq!(answer.results.len(), 3);
    let joined = join_ranked(&plan, &pages, &vec![], found);
    let scores: Vec<SearchScore> = joined.iter().map(|result| result.score).collect();
    assert_eq!(
        scores,
        vec![
            SearchScore::Fused(Some(2), None),
            SearchScore::Fused(Some(2), None),
            SearchScore::Fused(Some(3), None),
        ]
    );
}

#[test]
fn vector_pages_need_a_path_and_are_not_found_twice() {
    let found = search_words(&plan("alpha"), &knowledge()).unwrap();
    let ids = vec!["alpha".to_string(), "gone".to_string(), "beta".to_string()];
    let paths = vec!["x/beta.md".to_string(), "y/beta.md".to_string()];
    assert_eq!(vector_candidates(&found.results, &ids, &paths), vec![(2, 1)]);
    let mut results = found.results;
    fuse(&mut results, &vec![], &vec![]);
    assert!(matches!(results[0].score, SearchScore::Keyword(_)));
}

#[test]
fn wiki_directories_are_scanned_without_symlinks() {
    assert!(matches!(check_wiki_directory(None), Ok(WikiDirectory::Missing)));
    assert!(matches!(
        check_wiki_directory(Some(EntryKind::Directory)),
        Ok(WikiDirectory::Scan)
    ));
    assert!(check_wiki_directory(Some(EntryKind::Symlink)).is_err());
    assert!(check_wiki_directory(Some(EntryKind::File)).is_err());
    assert!(take_wiki_entry(EntryKind::File, "a.md", 0).unwrap());
    assert!(!take_wiki_entry(EntryKind::File, "a.txt", 0).unwrap());
    assert!(!take_wiki_entry(EntryKind::File, ".md", 0).unwrap());
    assert!(!take_wiki_entry(EntryKind::Directory, "a.md", 0).unwrap());
    assert!(take_wiki_entry(EntryKind::File, "a.md", MAX_SEARCH_FILES - 1).unwrap());
    assert!(take_wiki_entry(EntryKind::File, "a.md", MAX_SEARCH_FILES).is_err());
    assert!(!take_wiki_entry(EntryKind::File, "a.txt", MAX_SEARCH_FILES).unwrap());
}

#[test]
fn graph_scan_rejects_symlinks() {
    assert!(matches!(
        take_wiki_entry(EntryKind::Symlink, "leak.md", 0),
        Err(ContentServiceError::InvalidProject(_))
    ));
    assert!(matches!(
        wiki_markdown_files(
            Some(EntryKind::Directory),
            &vec![
                walked(&["wiki", "index.md"], EntryKind::File),
                walked(&["wiki", "leak.md"], EntryKind::Symlink),
            ]
        ),
        Err(ContentServiceError::InvalidProject(_))
    ));
}

fn walked(parts: &[&str], kind: EntryKind) -> WalkedEntry {
    let path = RelativePath { parts: parts.iter().map(|part| part.to_string()).collect() };
    WalkedEntry::Found { path, kind }
}

#[test]
fn pages_of_a_wiki_are_listed_by_path() {
    let entries = vec![
        walked(&["wiki"], EntryKind::Directory),
        walked(&["wiki", "b.md"], EntryKind::File),
        walked(&["wiki", "a-b"], EntryKind::Directory),
        walked(&["wiki", "a-b", "c.md"], EntryKind::File),
        walked(&["wiki", "a"], EntryKind::Directory),
        walked(&["wiki", "a", "z.md"], EntryKind::File),
        walked(&["wiki", "a", "image.png"], EntryKind::File),
    ];
    let files = wiki_markdown_files(Some(EntryKind::Directory), &entries).unwrap();
    let texts: Vec<String> = files.iter().map(|path| path.to_text()).collect();
    assert_eq!(texts, vec!["wiki/a/z.md", "wiki/a-b/c.md", "wiki/b.md"]);
    assert!(wiki_markdown_files(None, &entries).unwrap().is_empty());
    assert!(wiki_markdown_files(Some(EntryKind::Symlink), &entries).is_err());
    assert!(matches!(
        wiki_markdown_files(
            Some(EntryKind::Directory),
            &vec![
                WalkedEntry::Failed("denied".to_string()),
                walked(&["wiki", "leak.md"], EntryKind::Symlink),
            ]
        ),
        Err(ContentServiceError::Internal(reason)) if reason == "denied"
    ));
    let mut many = Vec::new();
    for number in 0..MAX_SEARCH_FILES + 1 {
        let name = format!("{number}.md");
        many.push(walked(&["wiki", name.as_str()], EntryKind::File));
    }
    assert!(matches!(
        wiki_markdown_files(Some(EntryKind::Directory), &many),
        Err(ContentServiceError::InvalidProject(reason))
            if reason == "Project wiki exceeds the 10000 file search limit"
    ));
}

#[test]
fn file_errors_become_content_errors() {
    let error = ContentServiceError::from(FileServiceError::ProjectNotFound);
    assert!(matches!(
        error,
        ContentServiceError::Project(FileServiceError::ProjectNotFound)
    ));
}
