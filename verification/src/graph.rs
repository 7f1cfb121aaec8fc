//! The graph of a wiki: its pages, the links between them and the communities they form.

use crate::communities;
use crate::communities::LabelPropagation;
use crate::links;
use crate::links::{LinkIndex, Relevance};
use crate::markdown;
use crate::order;
use crate::order::TextSet;
use crate::text;
use vstd::prelude::*;

verus! {

// ---------------------------------------------------------------------------------------
// Pages
// ---------------------------------------------------------------------------------------

/// A page of a wiki as it was read.
pub struct WikiPage {
    /// The name of its file.
    pub file_name: String,
    /// The path of its file in the project.
    pub path: String,
    /// Its text.
    pub content: String,
}

/// What a wiki page stands for.
pub struct Page {
    pub file_name: Seq<char>,
    pub path: Seq<char>,
    pub content: Seq<char>,
}

impl View for WikiPage {
    type V = Page;

    open spec fn view(&self) -> Page {
        Page { file_name: self.file_name@, path: self.path@, content: self.content@ }
    }
}

/// What the pages of a list stand for.
pub open spec fn page_list(v: Seq<WikiPage>) -> Seq<Page> {
    v.map_values(|p: WikiPage| p@)
}

/// A page of the graph before its links are resolved.
pub struct RawNode {
    pub id: String,
    pub label: String,
    pub kind: String,
    pub path: String,
    pub sources: TextSet,
    pub raw_links: Vec<String>,
}

/// What a page of the graph before its links are resolved stands for.
pub struct LinkedPage {
    pub id: Seq<char>,
    pub label: Seq<char>,
    pub kind: Seq<char>,
    pub path: Seq<char>,
    pub sources: Set<Seq<char>>,
    pub links: Seq<Seq<char>>,
}

impl View for RawNode {
    type V = LinkedPage;

    open spec fn view(&self) -> LinkedPage {
        LinkedPage {
            id: self.id@,
            label: self.label@,
            kind: self.kind@,
            path: self.path@,
            sources: self.sources.set(),
            links: text::strings(self.raw_links@),
        }
    }
}

/// What the raw nodes of a list stand for.
pub open spec fn linked_pages(v: Seq<RawNode>) -> Seq<LinkedPage> {
    v.map_values(|n: RawNode| n@)
}

/// Whether the sources of every raw node are in order.
pub open spec fn sources_in_order(v: Seq<RawNode>) -> bool {
    forall|i: int| 0 <= i < v.len() ==> (#[trigger] v[i]).sources.wf()
}

/// The id of the page in a file: the file name without `.md` at its end.
pub open spec fn page_id(file_name: Seq<char>) -> Seq<char> {
    text::without_suffixes(file_name, ".md"@)
}

/// What a page is in the graph.
pub open spec fn linked_page(page: Page) -> LinkedPage {
    LinkedPage {
        id: page_id(page.file_name),
        label: markdown::page_label(page.content, page.file_name),
        kind: markdown::page_kind(page.content),
        path: page.path,
        sources: markdown::page_front_matter(page.content).sources,
        links: markdown::page_links(page.content),
    }
}

/// The pages that the graph has, by id: all but the queries. Of two pages with the same id it
/// has the later one.
pub open spec fn graph_pages(pages: Seq<LinkedPage>) -> Map<Seq<char>, LinkedPage>
    decreases pages.len(),
{
    if pages.len() == 0 {
        Map::empty()
    } else {
        let before = graph_pages(pages.drop_last());
        if pages.last().kind == "query"@ {
            before
        } else {
            before.insert(pages.last().id, pages.last())
        }
    }
}

/// The ids of a list of pages.
pub open spec fn ids(pages: Seq<LinkedPage>) -> Seq<Seq<char>> {
    pages.map_values(|p: LinkedPage| p.id)
}

/// Whether `list` holds the pages of `pages` in ascending order of their ids.
pub open spec fn lists(list: Seq<LinkedPage>, pages: Map<Seq<char>, LinkedPage>) -> bool {
    &&& order::ascending(ids(list))
    &&& ids(list).to_set() == pages.dom()
    &&& forall|i: int| 0 <= i < list.len() ==> #[trigger] list[i] == pages[list[i].id]
}

/// What the page `page` is in the graph.
pub fn page_node(page: &WikiPage) -> (r: RawNode)
    ensures
        r@ == linked_page(page@),
        r.sources.wf(),
{
    let name = text::to_chars(page.file_name.as_str());
    let suffix = text::to_chars(".md");
    let metadata = markdown::extract_metadata(page.content.as_str(), page.file_name.as_str());
    RawNode {
        id: text::to_text(text::trim_suffixes(name.as_slice(), suffix.as_slice())),
        label: metadata.title,
        kind: metadata.kind,
        path: page.path.as_str().to_string(),
        sources: metadata.sources,
        raw_links: markdown::extract_wikilinks(page.content.as_str()),
    }
}

/// The pages that the graph has, in ascending order of their ids.
pub fn collect_nodes(candidates: Vec<RawNode>) -> (r: Vec<RawNode>)
    requires
        sources_in_order(candidates@),
    ensures
        lists(linked_pages(r@), graph_pages(linked_pages(candidates@))),
        sources_in_order(r@),
{
    let ghost all = linked_pages(candidates@);
    let mut rest = candidates;
    let mut known = TextSet::new();
    let mut out: Vec<RawNode> = Vec::new();
    let ghost mut done: Map<Seq<char>, LinkedPage> = Map::empty();
    proof {
        assert(graph_pages(all).union_prefer_right(done) =~= graph_pages(all));
        assert(ids(linked_pages(out@)) =~= known.list());
        assert(ids(linked_pages(out@)).to_set() =~= done.dom());
    }
    loop
        invariant
            all == linked_pages(candidates@),
            known.wf(),
            sources_in_order(rest@),
            sources_in_order(out@),
            ids(linked_pages(out@)) == known.list(),
            known.list().to_set() == done.dom(),
            forall|i: int|
                0 <= i < out@.len() ==> (#[trigger] linked_pages(out@)[i]) == done[out@[i].id@],
            graph_pages(linked_pages(rest@)).union_prefer_right(done) == graph_pages(all),
        decreases rest@.len(),
    {
        let ghost rest0 = linked_pages(rest@);
        let ghost out0 = out@;
        let ghost done0 = done;
        match rest.pop() {
            None => {
                assert(graph_pages(rest0).union_prefer_right(done) =~= done);
                return out;
            },
            Some(node) => {
                assert(rest0.drop_last() =~= linked_pages(rest@));
                assert(rest0.last() == node@);
                if !text::same_text(node.kind.as_str(), "query") {
                    let ghost id = node.id@;
                    match known.insert_at(text::to_chars(node.id.as_str())) {
                        Some(at) => {
                            proof {
                                done = done.insert(id, node@);
                                assert(graph_pages(rest0).union_prefer_right(done0)
                                    =~= graph_pages(linked_pages(rest@)).union_prefer_right(done));
                                assert(!done0.dom().contains(id));
                            }
                            assert(at <= out0.len()) by {
                                assert(ids(linked_pages(out0)).len() == out0.len());
                            }
                            let ghost model = node@;
                            out.insert(at, node);
                            proof {
                                assert(ids(linked_pages(out@)) =~= ids(linked_pages(out0)).insert(
                                    at as int,
                                    id,
                                ));
                                assert(known.list().to_set() =~= done.dom());
                                assert forall|i: int| 0 <= i < out@.len() implies (
                                #[trigger] linked_pages(out@)[i]) == done[out@[i].id@] by {
                                    if i != at {
                                        let k = if i < at {
                                            i
                                        } else {
                                            i - 1
                                        };
                                        assert(out@[i] == out0[k]);
                                        assert(linked_pages(out0)[k] == done0[out0[k].id@]);
                                        assert(ids(linked_pages(out0))[k] == out0[k].id@);
                                        assert(ids(linked_pages(out0)).to_set().contains(
                                            out0[k].id@,
                                        ));
                                    }
                                }
                                assert forall|i: int| 0 <= i < out@.len() implies (
                                #[trigger] out@[i]).sources.wf() by {
                                    if i != at {
                                        let k = if i < at {
                                            i
                                        } else {
                                            i - 1
                                        };
                                        assert(out@[i] == out0[k]);
                                    }
                                }
                            }
                        },
                        None => {
                            assert(graph_pages(rest0).union_prefer_right(done) =~= graph_pages(
                                linked_pages(rest@),
                            ).union_prefer_right(done));
                        },
                    }
                }
            },
        }
    }
}

// ---------------------------------------------------------------------------------------
// Links
// ---------------------------------------------------------------------------------------

/// The links between the pages of a list.
pub open spec fn graph_links(list: Seq<LinkedPage>) -> Seq<(int, int)> {
    links::all_links(list.map_values(|p: LinkedPage| p.links), ids(list), list.len() as int)
}

/// The edges between the pages of a list.
pub open spec fn graph_edges(list: Seq<LinkedPage>) -> Seq<(int, int)> {
    links::edges(graph_links(list), list.len(), list.len() as int)
}

/// What the weight of an edge between two pages of a list is made of.
pub open spec fn relevance(list: Seq<LinkedPage>, i: int, j: int) -> links::Ingredients {
    links::ingredients(
        graph_links(list),
        list.len(),
        i,
        j,
        list[i].sources,
        list[j].sources,
        list[i].kind,
        list[j].kind,
    )
}

/// The graph of a wiki before its edges are weighed.
pub struct WikiGraph {
    /// The pages, in ascending order of their ids.
    pub nodes: Vec<RawNode>,
    /// How often each page is an end of a link.
    pub link_counts: Vec<usize>,
    /// The edges, each by the numbers of its pages.
    pub edges: Vec<(usize, usize)>,
    /// What the weight of each edge is made of.
    pub relevance: Vec<Relevance>,
}

impl WikiGraph {
    /// Whether the links, the edges and the weights are those of the pages.
    pub open spec fn wf(&self) -> bool {
        let list = linked_pages(self.nodes@);
        &&& order::ascending(ids(list))
        &&& self.link_counts@.len() == list.len()
        &&& forall|i: int|
            0 <= i < list.len() ==> #[trigger] self.link_counts@[i] == links::link_count(
                graph_links(list),
                i,
            )
        &&& links::pairs(self.edges@) == graph_edges(list)
        &&& self.relevance@.len() == self.edges@.len()
        &&& forall|k: int|
            0 <= k < self.edges@.len() ==> (#[trigger] self.relevance@[k])@ == relevance(
                list,
                self.edges@[k].0 as int,
                self.edges@[k].1 as int,
            )
    }
}

/// The ids of the nodes as a set. In it they have the order that they have in the list.
fn node_ids(nodes: &Vec<RawNode>) -> (r: TextSet)
    requires
        order::ascending(ids(linked_pages(nodes@))),
    ensures
        r.wf(),
        r.list() == ids(linked_pages(nodes@)),
{
    let ghost all = ids(linked_pages(nodes@));
    let mut set = TextSet::new();
    let mut i: usize = 0;
    assert(set.set() =~= all.take(0).to_set());
    while i < nodes.len()
        invariant
            i <= nodes@.len(),
            all == ids(linked_pages(nodes@)),
            set.wf(),
            set.set() == all.take(i as int).to_set(),
        decreases nodes@.len() - i,
    {
        set.insert(text::to_chars(nodes[i].id.as_str()));
        proof {
            assert(all[i as int] == nodes@[i as int].id@);
            order::lemma_insert_set(all.take(i as int), i as int, all[i as int]);
            assert(all.take(i as int).insert(i as int, all[i as int]) =~= all.take(i + 1));
        }
        i += 1;
    }
    proof {
        assert(all.take(all.len() as int) =~= all);
        order::lemma_ascending_unique(set.list(), all);
    }
    set
}

/// Resolves the links of the pages and finds the edges between them.
pub fn link_nodes(nodes: Vec<RawNode>) -> (r: WikiGraph)
    requires
        order::ascending(ids(linked_pages(nodes@))),
        sources_in_order(nodes@),
    ensures
        r.nodes@ == nodes@,
        r.wf(),
{
    let ghost list = linked_pages(nodes@);
    let ghost raw = list.map_values(|p: LinkedPage| p.links);
    let n: usize = nodes.len();
    let index = LinkIndex::new(node_ids(&nodes));
    let mut found: Vec<(usize, usize)> = Vec::new();
    let mut i: usize = 0;
    assert(links::pairs(found@) =~= links::all_links(raw, ids(list), 0));
    while i < n
        invariant
            i <= n,
            n == nodes@.len(),
            list == linked_pages(nodes@),
            raw == list.map_values(|p: LinkedPage| p.links),
            index.wf(),
            index.ids() == ids(list),
            index.ids_lower() == links::lowered(ids(list)),
            links::pairs(found@) == links::all_links(raw, ids(list), i as int),
        decreases n - i,
    {
        assert(raw[i as int] == text::strings(nodes@[i as int].raw_links@));
        links::append_links(&mut found, i, &nodes[i].raw_links, &index);
        i += 1;
    }
    proof {
        links::lemma_all_links(raw, ids(list), n as int);
    }
    let link_counts = links::link_counts(n, &found);
    let table = links::link_table(n, &found);
    let edges = links::distinct_edges(n, &found, &table);
    let ghost all = links::pairs(found@);
    let mut weights: Vec<Relevance> = Vec::new();
    let mut k: usize = 0;
    while k < edges.len()
        invariant
            k <= edges@.len(),
            n == nodes@.len(),
            list == linked_pages(nodes@),
            sources_in_order(nodes@),
            all == links::pairs(found@),
            all == graph_links(list),
            links::join_pages(all, n as nat),
            table.holds(all, n as nat),
            links::pairs(edges@) == graph_edges(list),
            weights@.len() == k,
            forall|x: int|
                0 <= x < k ==> (#[trigger] weights@[x])@ == relevance(
                    list,
                    edges@[x].0 as int,
                    edges@[x].1 as int,
                ),
        decreases edges@.len() - k,
    {
        let (left, right): (usize, usize) = edges[k];
        proof {
            assert(links::pairs(edges@)[k as int] == (left as int, right as int));
            assert(graph_edges(list).contains((left as int, right as int)));
            links::lemma_edges_join_linked_pages(all, n as nat, left as int, right as int);
            assert(list[left as int] == nodes@[left as int]@);
            assert(list[right as int] == nodes@[right as int]@);
        }
        weights.push(
            links::calculate_relevance(
                n,
                &found,
                &table,
                left,
                right,
                &nodes[left].sources,
                &nodes[right].sources,
                nodes[left].kind.as_str(),
                nodes[right].kind.as_str(),
            ),
        );
        k += 1;
    }
    WikiGraph { nodes, link_counts, edges, relevance: weights }
}

/// Every edge of the graph joins two different pages of it.
pub proof fn lemma_edges_join_pages(list: Seq<LinkedPage>)
    ensures
        links::join_pages(graph_edges(list), list.len()),
{
    let n = list.len();
    let all = graph_edges(list);
    links::lemma_all_links(list.map_values(|p: LinkedPage| p.links), ids(list), n as int);
    assert forall|k: int| 0 <= k < all.len() implies 0 <= (#[trigger] all[k]).0 < n && 0
        <= all[k].1 < n && all[k].0 != all[k].1 by {
        links::lemma_edges_join_linked_pages(graph_links(list), n, all[k].0, all[k].1);
        assert(all.contains((all[k].0, all[k].1)));
    }
}

/// What the pages of a wiki are in its graph.
pub open spec fn all_linked_pages(pages: Seq<Page>) -> Seq<LinkedPage> {
    pages.map_values(|p: Page| linked_page(p))
}

/// The pages that the graph of a wiki has, in ascending order of their ids.
pub open spec fn graph_list(pages: Seq<Page>) -> Seq<LinkedPage> {
    choose|list: Seq<LinkedPage>| lists(list, graph_pages(all_linked_pages(pages)))
}

/// There is one list of the pages of a graph.
pub proof fn lemma_one_list(
    a: Seq<LinkedPage>,
    b: Seq<LinkedPage>,
    pages: Map<Seq<char>, LinkedPage>,
)
    requires
        lists(a, pages),
        lists(b, pages),
    ensures
        a == b,
{
    order::lemma_ascending_unique(ids(a), ids(b));
    assert(a.len() == ids(a).len() && b.len() == ids(b).len());
    assert forall|i: int| 0 <= i < a.len() implies a[i] == b[i] by {
        assert(ids(a)[i] == a[i].id && ids(b)[i] == b[i].id);
    }
    assert(a =~= b);
}

/// The graph of the pages of a wiki.
pub fn build_graph(pages: &Vec<WikiPage>) -> (r: WikiGraph)
    ensures
        lists(linked_pages(r.nodes@), graph_pages(all_linked_pages(page_list(pages@)))),
        linked_pages(r.nodes@) == graph_list(page_list(pages@)),
        r.wf(),
{
    let mut candidates: Vec<RawNode> = Vec::new();
    let mut i: usize = 0;
    while i < pages.len()
        invariant
            i <= pages@.len(),
            candidates@.len() == i,
            sources_in_order(candidates@),
            forall|k: int|
                0 <= k < i ==> (#[trigger] candidates@[k])@ == linked_page(pages@[k]@),
        decreases pages@.len() - i,
    {
        candidates.push(page_node(&pages[i]));
        i += 1;
    }
    assert(linked_pages(candidates@) =~= all_linked_pages(page_list(pages@)));
    let nodes = collect_nodes(candidates);
    proof {
        let all = graph_pages(all_linked_pages(page_list(pages@)));
        lemma_one_list(linked_pages(nodes@), graph_list(page_list(pages@)), all);
    }
    link_nodes(nodes)
}

/// Starts label propagation among the pages of a graph.
pub fn start_communities(graph: &WikiGraph) -> (r: LabelPropagation)
    requires
        graph.wf(),
    ensures
        r.wf(),
        r.edges() == graph_edges(linked_pages(graph.nodes@)),
        r.progress() == communities::start(
            graph_edges(linked_pages(graph.nodes@)),
            graph.nodes@.len(),
        ),
{
    let mut edges: Vec<(usize, usize)> = Vec::new();
    let mut k: usize = 0;
    while k < graph.edges.len()
        invariant
            k <= graph.edges@.len(),
            edges@ == graph.edges@.take(k as int),
        decreases graph.edges@.len() - k,
    {
        edges.push(graph.edges[k]);
        assert(graph.edges@.take(k + 1) =~= graph.edges@.take(k as int).push(graph.edges@[k as int]));
        k += 1;
    }
    proof {
        assert(graph.edges@.take(k as int) =~= graph.edges@);
        let list = linked_pages(graph.nodes@);
        lemma_edges_join_pages(list);
        assert forall|i: int| 0 <= i < edges@.len() implies (#[trigger] edges@[i]).0 < list.len()
            && edges@[i].1 < list.len() by {
            assert(links::pairs(edges@)[i] == (edges@[i].0 as int, edges@[i].1 as int));
        }
    }
    LabelPropagation::new(graph.nodes.len(), edges)
}

// ---------------------------------------------------------------------------------------
// Nodes
// ---------------------------------------------------------------------------------------

/// A page of the graph.
#[derive(Debug, Clone)]
pub struct GraphNode {
    pub id: String,
    pub label: String,
    pub kind: String,
    pub path: String,
    pub link_count: usize,
    pub community: usize,
}

/// What a page of the graph stands for.
pub struct Node {
    pub id: Seq<char>,
    pub label: Seq<char>,
    pub kind: Seq<char>,
    pub path: Seq<char>,
    pub link_count: nat,
    pub community: nat,
}

impl View for GraphNode {
    type V = Node;

    open spec fn view(&self) -> Node {
        Node {
            id: self.id@,
            label: self.label@,
            kind: self.kind@,
            path: self.path@,
            link_count: self.link_count as nat,
            community: self.community as nat,
        }
    }
}

/// What the nodes of a list stand for.
pub open spec fn node_list(v: Seq<GraphNode>) -> Seq<Node> {
    v.map_values(|n: GraphNode| n@)
}

/// The page `i` of a list as a node of the graph, where the pages have the given labels.
pub open spec fn graph_node(list: Seq<LinkedPage>, labels: Seq<int>, i: int) -> Node {
    Node {
        id: list[i].id,
        label: list[i].label,
        kind: list[i].kind,
        path: list[i].path,
        link_count: links::link_count(graph_links(list), i),
        community: communities::community(labels, i),
    }
}

impl GraphNode {
    /// A copy of the node.
    pub fn copy(&self) -> (r: GraphNode)
        ensures
            r@ == self@,
    {
        GraphNode {
            id: self.id.as_str().to_string(),
            label: self.label.as_str().to_string(),
            kind: self.kind.as_str().to_string(),
            path: self.path.as_str().to_string(),
            link_count: self.link_count,
            community: self.community,
        }
    }
}

/// The nodes of the graph, where label propagation has given the pages the labels `labels`.
pub fn graph_nodes(graph: &WikiGraph, labels: &Vec<usize>) -> (r: Vec<GraphNode>)
    requires
        graph.wf(),
        labels@.len() == graph.nodes@.len(),
        forall|i: int| 0 <= i < labels@.len() ==> #[trigger] labels@[i] < labels@.len(),
    ensures
        node_list(r@) == Seq::new(
            graph.nodes@.len(),
            |i: int| graph_node(linked_pages(graph.nodes@), order::ints(labels@), i),
        ),
{
    let numbers = communities::number_communities(labels);
    let ghost list = linked_pages(graph.nodes@);
    let mut out: Vec<GraphNode> = Vec::new();
    let mut i: usize = 0;
    while i < graph.nodes.len()
        invariant
            i <= graph.nodes@.len(),
            graph.wf(),
            list == linked_pages(graph.nodes@),
            labels@.len() == graph.nodes@.len(),
            numbers@.len() == labels@.len(),
            forall|k: int|
                0 <= k < labels@.len() ==> #[trigger] numbers@[k] == communities::community(
                    order::ints(labels@),
                    k,
                ),
            out@.len() == i,
            forall|k: int|
                0 <= k < i ==> (#[trigger] out@[k])@ == graph_node(list, order::ints(labels@), k),
        decreases graph.nodes@.len() - i,
    {
        let node: &RawNode = &graph.nodes[i];
        assert(list[i as int] == node@);
        out.push(
            GraphNode {
                id: node.id.as_str().to_string(),
                label: node.label.as_str().to_string(),
                kind: node.kind.as_str().to_string(),
                path: node.path.as_str().to_string(),
                link_count: graph.link_counts[i],
                community: numbers[i],
            },
        );
        i += 1;
    }
    assert(node_list(out@) =~= Seq::new(
        graph.nodes@.len(),
        |i: int| graph_node(list, order::ints(labels@), i),
    ));
    out
}

} // verus!
