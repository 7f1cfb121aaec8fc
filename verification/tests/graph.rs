use llm_wiki_server::communities::number_communities;
use llm_wiki_server::graph::{
    build_graph, graph_nodes, start_communities, GraphNode, WikiGraph, WikiPage,
};
use llm_wiki_server::insights::{
    community_info, knowledge_gaps, neighbor_paths, report_gaps, report_graph, sparse,
    surprising_connections, CommunityInfo,
};
use llm_wiki_server::links::{type_affinity, LinkIndex, Relevance};
use llm_wiki_server::order::TextSet;
use llm_wiki_server::text::to_chars;

fn page(path: &str, content: &str) -> WikiPage {
    WikiPage {
        file_name: path.rsplit('/').next().unwrap().to_string(),
        path: path.to_string(),
        content: content.to_string(),
    }
}

fn weight(relevance: &Relevance) -> f64 {
    let shared: f64 = relevance
        .degrees
        .iter()
        .map(|degree| 1.0 / (*degree as f64).ln())
        .sum();
    relevance.direct as f64 * 3.0
        + relevance.shared_sources as f64 * 4.0
        + shared * 1.5
        + relevance.affinity_tenths as f64 / 10.0
}

fn settle(graph: &WikiGraph) -> Vec<usize> {
    let weights: Vec<f64> = graph.relevance.iter().map(weight).collect();
    let mut voting = start_communities(graph);
    while let Some(candidates) = voting.ballot() {
        let keys = candidates
            .iter()
            .map(|candidate| {
                let sum: f64 = candidate.edges.iter().map(|edge| weights[*edge].max(0.000_001)).sum();
                sum.to_bits()
            })
            .collect();
        voting.vote(&keys);
    }
    voting.labels().clone()
}

fn names(texts: &[&str]) -> TextSet {
    let mut set = TextSet::new();
    for text in texts {
        set.insert(to_chars(text));
    }
    set
}

#[test]
fn builds_relative_graph_and_structural_insights() {
    let pages = vec![
        page(
            "wiki/concepts/alpha.md",
            "---\ntitle: Alpha\ntype: concept\nsources: [paper.pdf]\n---\n[[beta]]",
        ),
        page(
            "wiki/concepts/beta.md",
            "---\ntitle: Beta\ntype: entity\nsources: [paper.pdf]\n---\n[[alpha]]",
        ),
    ];
    let graph = build_graph(&pages);
    assert_eq!(graph.nodes.len(), 2);
    assert_eq!(graph.edges.len(), 1);
    assert_eq!(graph.nodes[0].path, "wiki/concepts/alpha.md");
    assert!(weight(&graph.relevance[0]) > 4.0);
    assert_eq!(graph.relevance[0].direct, 2);
    assert_eq!(graph.relevance[0].shared_sources, 1);
    assert_eq!(graph.relevance[0].affinity_tenths, 12);
    assert!(graph.relevance[0].degrees.is_empty());
    let nodes = graph_nodes(&graph, &settle(&graph));
    assert_eq!(nodes[0].label, "Alpha");
    assert_eq!(nodes[1].kind, "entity");
    assert_eq!(nodes[0].link_count, 2);
    assert_eq!(nodes[0].community, nodes[1].community);
    let communities = community_info(&nodes, &graph.edges);
    assert!(!communities.is_empty());
    assert_eq!(communities[0].node_count, 2);
    assert_eq!(communities[0].intra_edges, 1);
    assert_eq!(communities[0].possible_edges, 1);
    assert_eq!(communities[0].top_nodes, vec!["Alpha", "Beta"]);
}

#[test]
fn a_report_shows_nodes_communities_surprises_and_gaps() {
    let graph = build_graph(&vec![
        page("wiki/a.md", "---\ntitle: A\ntype: source\n---\n[[b]]"),
        page("wiki/b.md", "---\ntitle: B\ntype: concept\n---\n"),
        page("wiki/c.md", "---\ntitle: C\ntype: concept\n---\n"),
    ]);
    assert_eq!(graph.edges, vec![(0, 1)]);
    let labels = settle(&graph);
    let weak = vec![true];
    let report = report_graph(&graph, &labels, &weak);
    let ids: Vec<&str> = report.nodes.iter().map(|node| node.id.as_str()).collect();
    assert_eq!(ids, vec!["a", "b", "c"]);
    assert_eq!(report.communities.len(), 2);
    assert_eq!(report.communities[0].top_nodes, vec!["A", "B"]);
    assert_eq!(report.surprising_connections.len(), 1);
    let surprise = &report.surprising_connections[0];
    assert_eq!(surprise.key, "a:::b");
    assert_eq!(surprise.score, 5);
    assert_eq!(
        surprise.reasons,
        vec![
            "connects source to concept",
            "peripheral node links to hub",
            "weak but present connection",
        ]
    );
    let cohesions = vec!["1.00".to_string(), "0.00".to_string()];
    let gaps = report_gaps(&graph, &labels, &weak, &report, &cohesions);
    assert_eq!(gaps.len(), 1);
    assert_eq!(gaps[0].title, "3 isolated pages");
    assert_eq!(gaps[0].node_ids, vec!["a", "b", "c"]);
}

#[test]
fn queries_are_left_out_and_later_pages_win() {
    let graph = build_graph(&vec![
        page("wiki/a/same.md", "---\ntitle: First\n---\n"),
        page("wiki/b/same.md", "---\ntitle: Second\n---\n"),
        page("wiki/queries/q.md", "---\ntype: Query\n---\n[[same]]"),
        page("wiki/log.md", "[[same]] [[missing]] [[log]]"),
    ]);
    let ids: Vec<&str> = graph.nodes.iter().map(|node| node.id.as_str()).collect();
    assert_eq!(ids, vec!["log", "same"]);
    assert_eq!(graph.nodes[1].label, "Second");
    assert_eq!(graph.edges, vec![(0, 1)]);
    assert_eq!(graph.link_counts, vec![1, 1]);
}

#[test]
fn links_are_resolved_by_id_case_and_dashes() {
    let index = LinkIndex::new(names(&["Alpha", "beta-gamma", "delta epsilon"]));
    assert_eq!(index.resolve_target("Alpha"), Some(0));
    assert_eq!(index.resolve_target("ALPHA"), Some(0));
    assert_eq!(index.resolve_target("Beta  Gamma"), Some(1));
    assert_eq!(index.resolve_target("delta-epsilon"), Some(2));
    assert_eq!(index.resolve_target("Delta Epsilon"), Some(2));
    assert_eq!(index.resolve_target("zeta"), None);
}

#[test]
fn kinds_have_their_affinity() {
    let cases = [
        ("entity", "concept", 12),
        ("synthesis", "concept", 12),
        ("entity", "entity", 8),
        ("synthesis", "synthesis", 8),
        ("source", "source", 5),
        ("source", "other", 10),
        ("entity", "source", 10),
        ("entity", "synthesis", 5),
        ("other", "other", 5),
    ];
    for (left, right, tenths) in cases {
        assert_eq!(type_affinity(left, right), tenths);
        assert_eq!(type_affinity(right, left), tenths);
    }
}

#[test]
fn shared_neighbours_count_by_their_degree() {
    let graph = build_graph(&vec![
        page("wiki/a.md", "[[b]] [[c]]"),
        page("wiki/b.md", "[[c]]"),
        page("wiki/c.md", ""),
    ]);
    assert_eq!(graph.edges, vec![(0, 1), (0, 2), (1, 2)]);
    assert_eq!(graph.relevance[0].direct, 1);
    assert_eq!(graph.relevance[0].degrees, vec![2]);
    let expected = 3.0 + 1.5 / 2f64.ln() + 0.5;
    assert!((weight(&graph.relevance[0]) - expected).abs() < 1e-12);
}

#[test]
fn labels_settle_into_communities() {
    let pages: Vec<WikiPage> = [
        ("a", "[[b]] [[c]]"),
        ("b", "[[c]]"),
        ("c", ""),
        ("x", "[[y]]"),
        ("y", ""),
        ("z", ""),
    ]
    .iter()
    .map(|(name, content)| page(&format!("wiki/{name}.md"), content))
    .collect();
    let graph = build_graph(&pages);
    let labels = settle(&graph);
    let nodes = graph_nodes(&graph, &labels);
    let communities: Vec<usize> = nodes.iter().map(|node| node.community).collect();
    assert_eq!(communities, vec![0, 0, 0, 1, 1, 2]);
    assert_eq!(number_communities(&vec![2, 2, 0, 1, 1, 1]), vec![1, 1, 2, 0, 0, 0]);
    let infos = community_info(&nodes, &graph.edges);
    assert_eq!(infos.len(), 3);
    assert_eq!(infos[0].intra_edges, 3);
    assert_eq!(infos[0].possible_edges, 3);
    assert_eq!(infos[2].intra_edges, 0);
    assert_eq!(infos[2].possible_edges, 1);
}

fn node(id: &str, kind: &str, link_count: usize, community: usize) -> GraphNode {
    GraphNode {
        id: id.to_string(),
        label: id.to_uppercase(),
        kind: kind.to_string(),
        path: format!("wiki/{id}.md"),
        link_count,
        community,
    }
}

#[test]
fn surprising_connections_are_ranked() {
    let nodes = vec![
        node("a", "source", 1, 0),
        node("b", "concept", 9, 1),
        node("c", "concept", 9, 1),
        node("index", "overview", 9, 2),
    ];
    let edges = vec![(0, 1), (0, 3), (1, 2)];
    let found = surprising_connections(&nodes, &edges, &vec![true, true, false], 5);
    assert_eq!(found.len(), 1);
    assert_eq!(found[0].score, 3 + 2 + 2 + 1);
    assert_eq!(found[0].key, "a:::b");
    assert_eq!(
        found[0].reasons,
        vec![
            "crosses community boundary",
            "connects source to concept",
            "peripheral node links to hub",
            "weak but present connection",
        ]
    );
    assert!(surprising_connections(&nodes, &edges, &vec![true, true, false], 0).is_empty());
}

#[test]
fn knowledge_gaps_are_named() {
    let nodes = vec![
        node("a", "concept", 1, 0),
        node("b", "concept", 4, 1),
        node("c", "concept", 2, 2),
        node("hub", "concept", 9, 3),
    ];
    let edges = vec![(0, 3), (1, 3), (2, 3)];
    let communities = vec![CommunityInfo {
        id: 0,
        node_count: 3,
        intra_edges: 0,
        possible_edges: 3,
        top_nodes: vec!["A".to_string()],
    }];
    let gaps = knowledge_gaps(&nodes, &edges, &communities, &vec!["0.00".to_string()], 8);
    let kinds: Vec<&str> = gaps.iter().map(|gap| gap.kind.as_str()).collect();
    assert_eq!(kinds, vec!["isolated-node", "sparse-community", "bridge-node"]);
    assert_eq!(gaps[0].title, "1 isolated page");
    assert_eq!(gaps[0].description, "A");
    assert_eq!(gaps[0].node_ids, vec!["a"]);
    assert_eq!(gaps[1].title, "Sparse cluster: A");
    assert_eq!(
        gaps[1].description,
        "3 pages with cohesion 0.00 — internal connections are weak."
    );
    assert_eq!(gaps[2].title, "Key bridge: HUB");
    assert_eq!(
        gaps[2].description,
        "Connects 3 different knowledge clusters. This is a critical junction in your wiki."
    );
    assert_eq!(
        knowledge_gaps(&nodes, &edges, &communities, &vec!["0.00".to_string()], 1).len(),
        1
    );
}

#[test]
fn pages_with_as_many_links_stand_by_id() {
    let nodes = vec![
        node("c", "concept", 2, 0),
        node("a", "concept", 2, 0),
        node("b", "concept", 3, 0),
    ];
    assert_eq!(community_info(&nodes, &vec![])[0].top_nodes, vec!["B", "A", "C"]);
    let nodes = vec![
        node("z", "concept", 3, 0),
        node("y", "concept", 3, 0),
        node("p", "concept", 2, 1),
        node("q", "concept", 2, 2),
        node("r", "concept", 2, 3),
    ];
    let edges = vec![(0, 2), (0, 3), (0, 4), (1, 2), (1, 3), (1, 4)];
    let gaps = knowledge_gaps(&nodes, &edges, &vec![], &vec![], 8);
    let titles: Vec<&str> = gaps.iter().map(|gap| gap.title.as_str()).collect();
    assert_eq!(titles, vec!["Key bridge: Y", "Key bridge: Z"]);
}

#[test]
fn many_isolated_pages_are_counted() {
    let nodes: Vec<GraphNode> = (0..7)
        .map(|i| node(&format!("p{i}"), "concept", 0, i))
        .collect();
    let gaps = knowledge_gaps(&nodes, &vec![], &vec![], &vec![], 8);
    assert_eq!(gaps[0].title, "7 isolated pages");
    assert_eq!(gaps[0].description, "P0, P1, P2, P3, P4 and 2 more");
    assert_eq!(gaps[0].node_ids.len(), 7);
}

#[test]
fn communities_are_sparse_below_fifteen_hundredths() {
    let community = |intra_edges: u128, possible_edges: u128| CommunityInfo {
        id: 0,
        node_count: 7,
        intra_edges,
        possible_edges,
        top_nodes: vec![],
    };
    for possible in 1..200u128 {
        for intra in 0..=possible {
            let cohesion = intra as f64 / possible as f64;
            assert_eq!(sparse(&community(intra, possible)), cohesion < 0.15);
        }
    }
    let mut small = community(0, 1);
    small.node_count = 2;
    assert!(!sparse(&small));
}

#[test]
fn neighbours_of_found_pages_are_new() {
    let paths: Vec<String> = ["a", "b", "c", "d"].iter().map(|p| p.to_string()).collect();
    let edges = vec![(0, 1), (1, 2), (2, 3)];
    let beside = neighbor_paths(&paths, &edges, &names(&["b"]));
    assert_eq!(beside.to_strings(), vec!["a", "c"]);
    let both = neighbor_paths(&paths, &edges, &names(&["b", "c"]));
    assert_eq!(both.to_strings(), vec!["a", "d"]);
    assert_eq!(neighbor_paths(&paths, &edges, &names(&["x"])).len(), 0);
}
