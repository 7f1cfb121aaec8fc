//! Searching a whole wiki: the pages that go with a query, the pages linked to them, the pages
//! that a vector index ranks, and the answer.

use crate::graph;
use crate::graph::{RawNode, WikiPage};
use crate::insights;
use crate::links;
use crate::markdown;
use crate::order;
use crate::order::TextSet;
use crate::paths;
use crate::search;
use crate::search::{
    ProjectSearchResponse, ProjectSearchResult, Scored, SearchPlan, SearchScore,
};
use crate::text;
use vstd::prelude::*;

verus! {

/// The pages that go with a query, in their order, of the first `k` pages. There are none to give
/// where no snippet can be built of one.
pub open spec fn hits(plan: SearchPlan, pages: Seq<graph::Page>, k: int) -> Option<Seq<search::FoundPage>>
    decreases k,
{
    if k <= 0 {
        Some(Seq::empty())
    } else {
        match hits(plan, pages, k - 1) {
            None => None,
            Some(before) => match search::page_score(plan, pages[k - 1].path, pages[k - 1].content) {
                search::Score::Hit(page) => Some(before.push(page)),
                search::Score::Miss => Some(before),
                search::Score::NoSnippet => None,
            },
        }
    }
}

/// Whether the page at `path` is linked to one of the pages found in the graph of the wiki, and is
/// none of them.
pub open spec fn is_linked(
    pages: Seq<graph::Page>,
    found: Seq<search::FoundPage>,
    path: Seq<char>,
) -> bool {
    let list = graph::graph_list(pages);
    let seeds = found.map_values(|p: search::FoundPage| p.path).to_set();
    let edges = graph::graph_edges(list);
    insights::is_beside(
        list.map_values(|p: graph::LinkedPage| p.path),
        edges,
        seeds,
        edges.len() as int,
        path,
    )
}

/// The first page at `path` from `from` on.
pub open spec fn page_at(pages: Seq<graph::Page>, path: Seq<char>, from: int) -> Option<int>
    decreases pages.len() - from,
{
    if from < 0 || from >= pages.len() {
        None
    } else if pages[from].path == path {
        Some(from)
    } else {
        page_at(pages, path, from + 1)
    }
}

/// The result for a page that is linked to a page found, where the best page has `best` points.
pub open spec fn linked_page(
    path: Seq<char>,
    content: Seq<char>,
    best: u128,
    include_content: bool,
) -> search::FoundPage {
    search::FoundPage {
        path,
        title: markdown::page_title(content, search::name_at(path)),
        snippet: search::opening(content),
        title_match: false,
        score: SearchScore::Graph(best),
        vector: None,
        images: markdown::page_images(content),
        content: search::asked_content(content, include_content),
    }
}

/// Whether `added` holds the results for the pages that are linked to those found and are not
/// found yet, in ascending order of their paths.
pub open spec fn expands(
    plan: SearchPlan,
    pages: Seq<graph::Page>,
    found: Seq<search::FoundPage>,
    added: Seq<search::FoundPage>,
) -> bool {
    &&& order::ascending(added.map_values(|p: search::FoundPage| p.path))
    &&& forall|path: Seq<char>|
        #[trigger] search::is_found_at(added, path) <==> is_linked(pages, found, path) && !search::is_found_at(
            found,
            path,
        ) && page_at(pages, path, 0) is Some
    &&& forall|i: int|
        0 <= i < added.len() ==> #[trigger] added[i] == linked_page(
            added[i].path,
            pages[page_at(pages, added[i].path, 0).unwrap()].content,
            search::best_points(found) as u128,
            plan.include_content,
        )
}

/// Whether `added` holds what a search adds to the pages found: the linked pages where the plan
/// asks for them and a page was found, and nothing otherwise.
pub open spec fn adds(
    plan: SearchPlan,
    pages: Seq<graph::Page>,
    found: Seq<search::FoundPage>,
    added: Seq<search::FoundPage>,
) -> bool {
    if plan.expand_graph && found.len() > 0 {
        expands(plan, pages, found, added)
    } else {
        added == Seq::<search::FoundPage>::empty()
    }
}

/// The pages that go with a query, or nothing where no snippet can be built of one of them.
pub fn find_hits(plan: &SearchPlan, pages: &Vec<WikiPage>) -> (r: Option<
    Vec<ProjectSearchResult>,
>)
    ensures
        match r {
            Some(results) => hits(*plan, graph::page_list(pages@), pages@.len() as int) == Some(
                search::found_pages(results@),
            ),
            None => hits(*plan, graph::page_list(pages@), pages@.len() as int) is None,
        },
{
    let ghost all = graph::page_list(pages@);
    let mut out: Vec<ProjectSearchResult> = Vec::new();
    let mut i: usize = 0;
    assert(search::found_pages(out@) =~= Seq::<search::FoundPage>::empty());
    while i < pages.len()
        invariant
            i <= pages@.len(),
            all == graph::page_list(pages@),
            hits(*plan, all, i as int) == Some(search::found_pages(out@)),
        decreases pages@.len() - i,
    {
        let ghost before = search::found_pages(out@);
        assert(all[i as int] == pages@[i as int]@);
        match search::score_file(plan, pages[i].path.as_str(), pages[i].content.as_str()) {
            Scored::Hit(page) => {
                let ghost found = page@;
                out.push(page);
                assert(search::found_pages(out@) =~= before.push(found));
            },
            Scored::Miss => {},
            Scored::NoSnippet => {
                proof {
                    lemma_no_hits(*plan, all, i + 1, all.len() as int);
                }
                return None;
            },
        }
        i += 1;
    }
    Some(out)
}

/// Where a page has no snippet, no pages are given however many follow.
proof fn lemma_no_hits(plan: SearchPlan, pages: Seq<graph::Page>, k: int, n: int)
    requires
        0 <= k <= n,
        hits(plan, pages, k) is None,
    ensures
        hits(plan, pages, n) is None,
    decreases n - k,
{
    if k < n {
        lemma_no_hits(plan, pages, k, n - 1);
    }
}

/// The paths of the nodes of a graph.
fn node_paths(nodes: &Vec<RawNode>) -> (r: Vec<String>)
    ensures
        text::strings(r@) == graph::linked_pages(nodes@).map_values(
            |p: graph::LinkedPage| p.path,
        ),
{
    let mut out: Vec<String> = Vec::new();
    let mut i: usize = 0;
    while i < nodes.len()
        invariant
            i <= nodes@.len(),
            out@.len() == i,
            forall|k: int| 0 <= k < i ==> (#[trigger] out@[k])@ == nodes@[k].path@,
        decreases nodes@.len() - i,
    {
        out.push(nodes[i].path.as_str().to_string());
        i += 1;
    }
    assert(text::strings(out@) =~= graph::linked_pages(nodes@).map_values(
        |p: graph::LinkedPage| p.path,
    ));
    out
}

/// The first page at `path`.
fn find_page(pages: &Vec<WikiPage>, path: &str) -> (r: Option<usize>)
    ensures
        match r {
            Some(i) => i < pages@.len() && page_at(graph::page_list(pages@), path@, 0) == Some(
                i as int,
            ),
            None => page_at(graph::page_list(pages@), path@, 0) is None,
        },
{
    let ghost all = graph::page_list(pages@);
    let mut i: usize = 0;
    while i < pages.len()
        invariant
            i <= pages@.len(),
            all == graph::page_list(pages@),
            page_at(all, path@, i as int) == page_at(all, path@, 0),
        decreases pages@.len() - i,
    {
        assert(all[i as int] == pages@[i as int]@);
        if text::same_text(pages[i].path.as_str(), path) {
            return Some(i);
        }
        i += 1;
    }
    None
}

/// The linked pages of the pages found.
fn find_linked(pages: &Vec<WikiPage>, found: &Vec<ProjectSearchResult>) -> (r: TextSet)
    ensures
        r.wf(),
        forall|path: Seq<char>|
            #[trigger] r.set().contains(path) <==> is_linked(
                graph::page_list(pages@),
                search::found_pages(found@),
                path,
            ),
{
    let graph = graph::build_graph(pages);
    let seeds = search::result_paths(found);
    let paths = node_paths(&graph.nodes);
    proof {
        let list = graph::graph_list(graph::page_list(pages@));
        graph::lemma_edges_join_pages(list);
        let all = search::found_pages(found@);
        let names = all.map_values(|p: search::FoundPage| p.path);
        assert forall|path: Seq<char>| seeds.set().contains(path) <==> names.to_set().contains(
            path,
        ) by {
            if names.to_set().contains(path) {
                let k = choose|k: int| 0 <= k < names.len() && names[k] == path;
                assert(all[k].path == path);
            }
            if search::is_found_at(all, path) {
                let k = choose|k: int| 0 <= k < all.len() && (#[trigger] all[k]).path == path;
                assert(names[k] == path);
            }
        }
        assert(seeds.set() =~= names.to_set());
        assert(links::pairs(graph.edges@).len() == graph.edges@.len());
        assert(text::strings(paths@).len() == paths@.len());
    }
    insights::neighbor_paths(&paths, &graph.edges, &seeds)
}

/// Adds the results for the pages that are linked to those found. How many they are.
pub fn add_linked(
    plan: &SearchPlan,
    pages: &Vec<WikiPage>,
    results: &mut Vec<ProjectSearchResult>,
) -> (r: usize)
    ensures
        ({
            let found = search::found_pages(old(results)@);
            let all = search::found_pages(final(results)@);
            &&& all.len() == found.len() + r
            &&& all.take(found.len() as int) == found
            &&& expands(
                *plan,
                graph::page_list(pages@),
                found,
                all.subrange(found.len() as int, all.len() as int),
            )
        }),
{
    let ghost all = graph::page_list(pages@);
    let ghost found = search::found_pages(results@);
    let linked = find_linked(pages, results);
    let fresh = search::graph_candidates(results, &linked);
    let best = search::find_best_points(results);
    let ghost wanted = text::strings(fresh@);
    let mut added: usize = 0;
    let mut i: usize = 0;
    while i < fresh.len()
        invariant
            i <= fresh@.len(),
            added <= i,
            all == graph::page_list(pages@),
            wanted == text::strings(fresh@),
            order::ascending(wanted),
            best == search::best_points(found),
            results@.len() == found.len() + added,
            search::found_pages(results@).take(found.len() as int) == found,
            ({
                let new = search::found_pages(results@).subrange(
                    found.len() as int,
                    results@.len() as int,
                );
                &&& order::ascending(new.map_values(|p: search::FoundPage| p.path))
                &&& forall|path: Seq<char>|
                    #[trigger] search::is_found_at(new, path) <==> wanted.take(i as int).contains(
                        path,
                    ) && page_at(all, path, 0) is Some
                &&& forall|x: int|
                    0 <= x < new.len() ==> #[trigger] new[x] == linked_page(
                        new[x].path,
                        all[page_at(all, new[x].path, 0).unwrap()].content,
                        best,
                        plan.include_content,
                    )
            }),
        decreases fresh@.len() - i,
    {
        let ghost before = search::found_pages(results@);
        let ghost n = found.len() as int;
        let ghost old_new = before.subrange(n, before.len() as int);
        let ghost name = wanted[i as int];
        assert(name == fresh@[i as int]@);
        match find_page(pages, fresh[i].as_str()) {
            Some(at) => {
                assert(all[at as int] == pages@[at as int]@);
                let page = search::graph_result(
                    fresh[i].as_str(),
                    pages[at].content.as_str(),
                    best,
                    plan.include_content,
                );
                let ghost model = page@;
                results.push(page);
                added += 1;
                proof {
                    let now = search::found_pages(results@);
                    assert(now =~= before.push(model));
                    let new = now.subrange(n, now.len() as int);
                    assert(new =~= old_new.push(model));
                    assert(now.take(n) =~= before.take(n));
                    lemma_push_linked(old_new, model, wanted, i as int, all);
                }
            },
            None => {
                proof {
                    lemma_skip_linked(old_new, wanted, i as int, all);
                }
            },
        }
        i += 1;
    }
    proof {
        assert(wanted.take(wanted.len() as int) =~= wanted);
    }
    added
}

/// Adding the next path keeps the results in order and complete.
proof fn lemma_push_linked(
    new: Seq<search::FoundPage>,
    page: search::FoundPage,
    wanted: Seq<Seq<char>>,
    i: int,
    pages: Seq<graph::Page>,
)
    requires
        0 <= i < wanted.len(),
        order::ascending(wanted),
        page.path == wanted[i],
        page_at(pages, wanted[i], 0) is Some,
        order::ascending(new.map_values(|p: search::FoundPage| p.path)),
        forall|path: Seq<char>|
            #[trigger] search::is_found_at(new, path) <==> wanted.take(i).contains(path)
                && page_at(pages, path, 0) is Some,
    ensures
        order::ascending(new.push(page).map_values(|p: search::FoundPage| p.path)),
        forall|path: Seq<char>|
            #[trigger] search::is_found_at(new.push(page), path) <==> wanted.take(i + 1).contains(
                path,
            ) && page_at(pages, path, 0) is Some,
{
    let after = new.push(page);
    let names = new.map_values(|p: search::FoundPage| p.path);
    let all = after.map_values(|p: search::FoundPage| p.path);
    assert(all =~= names.push(wanted[i]));
    assert forall|k: int| 0 <= k < names.len() implies wanted.take(i).contains(
        #[trigger] names[k],
    ) by {
        assert(new[k].path == names[k]);
        assert(search::is_found_at(new, names[k]));
    }
    assert forall|a: int, b: int| 0 <= a < b < all.len() implies text::text_lt(
        #[trigger] all[a],
        #[trigger] all[b],
    ) by {
        if b < names.len() {
            assert(names[a] == all[a] && names[b] == all[b]);
        } else {
            assert(names[a] == all[a]);
            let k = choose|k: int| 0 <= k < wanted.take(i).len() && wanted.take(i)[k] == names[a];
            assert(wanted[k] == names[a]);
        }
    }
    assert forall|path: Seq<char>|
        #[trigger] search::is_found_at(after, path) <==> wanted.take(i + 1).contains(path)
            && page_at(pages, path, 0) is Some by {
        lemma_take_next(wanted, i, path);
        if search::is_found_at(after, path) {
            let k = choose|k: int| 0 <= k < after.len() && (#[trigger] after[k]).path == path;
            if k < new.len() {
                assert(new[k].path == path);
                assert(search::is_found_at(new, path));
            }
        }
        if search::is_found_at(new, path) {
            let k = choose|k: int| 0 <= k < new.len() && (#[trigger] new[k]).path == path;
            assert(after[k].path == path);
        }
        assert(after[new.len() as int].path == wanted[i]);
    }
}

/// Leaving out the next path, which no page is at, keeps the results complete.
proof fn lemma_skip_linked(
    new: Seq<search::FoundPage>,
    wanted: Seq<Seq<char>>,
    i: int,
    pages: Seq<graph::Page>,
)
    requires
        0 <= i < wanted.len(),
        page_at(pages, wanted[i], 0) is None,
        forall|path: Seq<char>|
            #[trigger] search::is_found_at(new, path) <==> wanted.take(i).contains(path)
                && page_at(pages, path, 0) is Some,
    ensures
        forall|path: Seq<char>|
            #[trigger] search::is_found_at(new, path) <==> wanted.take(i + 1).contains(path)
                && page_at(pages, path, 0) is Some,
{
    assert forall|path: Seq<char>|
        #[trigger] search::is_found_at(new, path) <==> wanted.take(i + 1).contains(path)
            && page_at(pages, path, 0) is Some by {
        lemma_take_next(wanted, i, path);
    }
}

/// The first texts of a list and the next one are the texts with it.
proof fn lemma_take_next(list: Seq<Seq<char>>, i: int, x: Seq<char>)
    requires
        0 <= i < list.len(),
    ensures
        list.take(i + 1).contains(x) <==> list.take(i).contains(x) || x == list[i],
{
    let (a, b) = (list.take(i), list.take(i + 1));
    if a.contains(x) {
        let k = choose|k: int| 0 <= k < a.len() && a[k] == x;
        assert(b[k] == x);
    }
    if b.contains(x) {
        let k = choose|k: int| 0 <= k < b.len() && b[k] == x;
        if k < i {
            assert(a[k] == x);
        }
    }
    assert(b[i] == list[i]);
}

/// What a search by words found.
pub struct WordSearch {
    /// The pages that go with the query, and behind them the pages linked to them.
    pub results: Vec<ProjectSearchResult>,
    /// The pages that go with the query by points and path.
    pub order: Vec<usize>,
    /// How many paths the pages have that go with the query.
    pub token_hits: usize,
    /// How many linked pages there are.
    pub graph_hits: usize,
}

/// How many paths the pages found have.
pub open spec fn path_count(pages: Seq<search::FoundPage>) -> nat {
    pages.map_values(|p: search::FoundPage| p.path).to_set().len()
}

/// The order of pages by score and path.
pub open spec fn score_ranking(pages: Seq<search::FoundPage>) -> Seq<int> {
    search::placed_pages(order::sorted_list(search::by_score(pages)))
}

impl WordSearch {
    /// Whether a search by words found `found` and added `added`.
    pub open spec fn holds(
        &self,
        found: Seq<search::FoundPage>,
        added: Seq<search::FoundPage>,
    ) -> bool {
        &&& search::found_pages(self.results@) == found + added
        &&& order::ints(self.order@) == score_ranking(found)
        &&& search::orders(self.order@, found.len())
        &&& self.order@.len() == found.len()
        &&& self.token_hits == path_count(found)
        &&& self.graph_hits == added.len()
    }

    /// Whether a search by words with the plan found `found` and added what it adds.
    pub open spec fn is_of(
        &self,
        plan: SearchPlan,
        pages: Seq<graph::Page>,
        found: Seq<search::FoundPage>,
    ) -> bool {
        exists|added: Seq<search::FoundPage>|
            adds(plan, pages, found, added) && #[trigger] self.holds(found, added)
    }
}

/// How many paths the pages found have.
fn count_paths(results: &Vec<ProjectSearchResult>) -> (r: usize)
    ensures
        r == path_count(search::found_pages(results@)),
{
    let set = search::result_paths(results);
    proof {
        let pages = search::found_pages(results@);
        let paths = pages.map_values(|p: search::FoundPage| p.path);
        assert forall|path: Seq<char>| set.set().contains(path) <==> paths.to_set().contains(
            path,
        ) by {
            if set.set().contains(path) {
                let k = choose|k: int| 0 <= k < pages.len() && (#[trigger] pages[k]).path == path;
                assert(paths[k] == path);
            }
            if paths.contains(path) {
                let k = choose|k: int| 0 <= k < paths.len() && paths[k] == path;
                assert(pages[k].path == path);
                assert(search::is_found_at(pages, path));
            }
        }
        assert(set.set() =~= paths.to_set());
        assert forall|i: int, j: int|
            0 <= i < set.list().len() && 0 <= j < set.list().len() && i != j implies set.list()[i]
            != set.list()[j] by {
            set.lemma_index_of(i);
            set.lemma_index_of(j);
        }
        set.list().unique_seq_to_set();
    }
    set.len()
}

/// Searches the pages of a wiki by words: the pages that go with the query and, where the plan asks
/// for them, the pages linked to those. There is no result where no snippet can be built of a page
/// that goes with the query.
pub fn search_words(plan: &SearchPlan, pages: &Vec<WikiPage>) -> (r: Option<WordSearch>)
    ensures
        r is Some <==> hits(*plan, graph::page_list(pages@), pages@.len() as int) is Some,
        r matches Some(search) ==> search.is_of(
            *plan,
            graph::page_list(pages@),
            hits(*plan, graph::page_list(pages@), pages@.len() as int).unwrap(),
        ),
{
    match find_hits(plan, pages) {
        None => None,
        Some(results) => {
            let mut results: Vec<ProjectSearchResult> = results;
            let ghost found = search::found_pages(results@);
            let order = search::score_order(&results);
            let token_hits = count_paths(&results);
            let graph_hits: usize = if plan.expand_graph && results.len() > 0 {
                add_linked(plan, pages, &mut results)
            } else {
                0
            };
            let search = WordSearch { results, order, token_hits, graph_hits };
            proof {
                let all = search::found_pages(search.results@);
                let added = all.subrange(found.len() as int, all.len() as int);
                assert(all =~= all.take(found.len() as int) + added);
                assert(all.take(found.len() as int) =~= found);
                if !(plan.expand_graph && found.len() > 0) {
                    assert(added =~= Seq::empty());
                }
                assert(adds(*plan, graph::page_list(pages@), found, added));
                assert(search.holds(found, added));
                assert(search.is_of(*plan, graph::page_list(pages@), found));
            }
            Some(search)
        },
    }
}

/// The answer to a search by words: the pages found and added by score and path, the first of
/// them.
pub open spec fn word_answer(
    plan: SearchPlan,
    found: Seq<search::FoundPage>,
    added: Seq<search::FoundPage>,
) -> Seq<search::FoundPage> {
    search::picked(found + added, score_ranking(found + added), plan.limit as nat)
}

/// The answer to a search by words alone.
pub fn answer_words(plan: &SearchPlan, found: &WordSearch) -> (r: ProjectSearchResponse)
    ensures
        r.ok,
        search::found_pages(r.results@) == search::picked(
            search::found_pages(found.results@),
            score_ranking(search::found_pages(found.results@)),
            plan.limit as nat,
        ),
        r.mode@ == search::search_mode(found.token_hits as nat, found.graph_hits as nat, 0),
        r.token_hits == found.token_hits,
        r.graph_hits == found.graph_hits,
        r.vector_hits == 0,
{
    let order = search::score_order(&found.results);
    search::respond(&found.results, &order, plan.limit, found.token_hits, found.graph_hits, 0)
}

/// Searches the pages of a wiki by words and answers. There is no answer where no snippet can be
/// built of a page that goes with the query.
pub fn search_wiki(plan: &SearchPlan, pages: &Vec<WikiPage>) -> (r: Option<ProjectSearchResponse>)
    ensures
        r is Some <==> hits(*plan, graph::page_list(pages@), pages@.len() as int) is Some,
        r matches Some(answer) ==> ({
            let found = hits(*plan, graph::page_list(pages@), pages@.len() as int).unwrap();
            exists|added: Seq<search::FoundPage>|
                {
                    &&& adds(*plan, graph::page_list(pages@), found, added)
                    &&& answer.ok
                    &&& search::found_pages(answer.results@) == #[trigger] word_answer(
                        *plan,
                        found,
                        added,
                    )
                    &&& answer.mode@ == search::search_mode(path_count(found), added.len(), 0)
                    &&& answer.token_hits == path_count(found)
                    &&& answer.graph_hits == added.len()
                    &&& answer.vector_hits == 0
                }
        }),
{
    match search_words(plan, pages) {
        None => None,
        Some(search) => {
            let answer = answer_words(plan, &search);
            proof {
                let all = graph::page_list(pages@);
                let found = hits(*plan, all, pages@.len() as int).unwrap();
                let added = choose|added: Seq<search::FoundPage>|
                    adds(*plan, all, found, added) && #[trigger] search.holds(found, added);
                assert(search::found_pages(answer.results@) == word_answer(*plan, found, added));
            }
            Some(answer)
        },
    }
}

// ---------------------------------------------------------------------------------------
// Pages that a vector index ranks
// ---------------------------------------------------------------------------------------

/// A page that a vector index ranks, with the text and the heading of its best part.
pub struct RankedPage {
    pub id: String,
    pub chunk_text: String,
    pub heading_path: String,
}

/// The ids of ranked pages.
pub open spec fn ranked_ids(v: Seq<RankedPage>) -> Seq<Seq<char>> {
    v.map_values(|p: RankedPage| p.id@)
}

/// The paths of the pages of a wiki.
pub open spec fn page_paths(pages: Seq<graph::Page>) -> Seq<Seq<char>> {
    pages.map_values(|p: graph::Page| p.path)
}

/// The result for a page that the vector index alone has found, at place `place` of its ranking.
pub open spec fn ranked_page(
    page: graph::Page,
    place: int,
    chunk_text: Seq<char>,
    heading_path: Seq<char>,
    include_content: bool,
) -> search::FoundPage {
    search::FoundPage {
        path: page.path,
        title: markdown::page_title(page.content, search::name_at(page.path)),
        snippet: search::part_snippet(chunk_text, heading_path),
        title_match: false,
        score: SearchScore::Fused(None, None),
        vector: Some(place as usize),
        images: markdown::page_images(page.content),
        content: search::asked_content(page.content, include_content),
    }
}

/// The results for the pages that the vector index alone has found.
pub open spec fn ranked_only(
    plan: SearchPlan,
    pages: Seq<graph::Page>,
    found: Seq<search::FoundPage>,
    ranked: Seq<RankedPage>,
) -> Seq<search::FoundPage> {
    search::vector_only(
        found,
        ranked_ids(ranked),
        page_paths(pages),
        ranked.len() as int,
    ).map_values(
        |at: (int, int)|
            ranked_page(
                pages[at.1],
                at.0,
                ranked[at.0].chunk_text@,
                ranked[at.0].heading_path@,
                plan.include_content,
            ),
    )
}

/// The ids of ranked pages.
fn copy_ids(ranked: &Vec<RankedPage>) -> (r: Vec<String>)
    ensures
        text::strings(r@) == ranked_ids(ranked@),
        r@.len() == ranked@.len(),
{
    let mut out: Vec<String> = Vec::new();
    let mut i: usize = 0;
    while i < ranked.len()
        invariant
            i <= ranked@.len(),
            out@.len() == i,
            forall|k: int| 0 <= k < i ==> (#[trigger] out@[k])@ == ranked@[k].id@,
        decreases ranked@.len() - i,
    {
        out.push(ranked[i].id.as_str().to_string());
        i += 1;
    }
    assert(text::strings(out@) =~= ranked_ids(ranked@));
    out
}

/// The paths of the pages of a wiki.
fn copy_page_paths(pages: &Vec<WikiPage>) -> (r: Vec<String>)
    ensures
        text::strings(r@) == page_paths(graph::page_list(pages@)),
        r@.len() == pages@.len(),
{
    let mut out: Vec<String> = Vec::new();
    let mut i: usize = 0;
    while i < pages.len()
        invariant
            i <= pages@.len(),
            out@.len() == i,
            forall|k: int| 0 <= k < i ==> (#[trigger] out@[k])@ == pages@[k].path@,
        decreases pages@.len() - i,
    {
        out.push(pages[i].path.as_str().to_string());
        i += 1;
    }
    assert(text::strings(out@) =~= page_paths(graph::page_list(pages@)));
    out
}

/// Adds the results for the pages that the vector index alone has found.
fn add_ranked(
    plan: &SearchPlan,
    pages: &Vec<WikiPage>,
    ranked: &Vec<RankedPage>,
    ids: &Vec<String>,
    results: &mut Vec<ProjectSearchResult>,
)
    requires
        text::strings(ids@) == ranked_ids(ranked@),
        ids@.len() == ranked@.len(),
    ensures
        search::found_pages(final(results)@) == search::found_pages(old(results)@) + ranked_only(
            *plan,
            graph::page_list(pages@),
            search::found_pages(old(results)@),
            ranked@,
        ),
{
    let ghost found = search::found_pages(results@);
    let ghost all = graph::page_list(pages@);
    let list = copy_page_paths(pages);
    let places = search::vector_candidates(results, ids, &list);
    let ghost wanted = ranked_only(*plan, all, found, ranked@);
    assert(wanted.len() == places@.len()) by {
        assert(links::pairs(places@).len() == places@.len());
    }
    let mut k: usize = 0;
    assert(search::found_pages(results@) =~= found + wanted.take(0));
    while k < places.len()
        invariant
            k <= places@.len(),
            all == graph::page_list(pages@),
            wanted == ranked_only(*plan, all, found, ranked@),
            wanted.len() == places@.len(),
            links::pairs(places@) == search::vector_only(
                found,
                ranked_ids(ranked@),
                page_paths(all),
                ranked@.len() as int,
            ),
            forall|x: int|
                0 <= x < places@.len() ==> (#[trigger] places@[x]).0 < ranked@.len() && places@[x].1
                    < pages@.len(),
            search::found_pages(results@) == found + wanted.take(k as int),
        decreases places@.len() - k,
    {
        let ghost before = search::found_pages(results@);
        let (place, at): (usize, usize) = places[k];
        assert(links::pairs(places@)[k as int] == (place as int, at as int));
        assert(all[at as int] == pages@[at as int]@);
        let page = search::vector_result(
            pages[at].path.as_str(),
            pages[at].content.as_str(),
            place,
            ranked[place].chunk_text.as_str(),
            ranked[place].heading_path.as_str(),
            plan.include_content,
        );
        assert(page@ == wanted[k as int]);
        results.push(page);
        assert(search::found_pages(results@) =~= before.push(wanted[k as int]));
        assert((found + wanted.take(k as int)).push(wanted[k as int]) =~= found + wanted.take(
            k + 1,
        ));
        k += 1;
    }
    assert(wanted.take(wanted.len() as int) =~= wanted);
}

/// The pages found with the scores that their places in the two rankings give.
pub open spec fn fused_pages(
    pages: Seq<search::FoundPage>,
    order: Seq<int>,
    ids: Seq<Seq<char>>,
) -> Seq<search::FoundPage> {
    Seq::new(
        pages.len(),
        |i: int|
            search::fused(
                pages[i],
                search::place_of(pages, order, i),
                search::last_place(ids, paths::path_stem(pages[i].path), ids.len() as int),
            ),
    )
}

/// Joins what a search by words found with the pages that a vector index ranks: the pages that the
/// index alone has found are added, and every page that has a place in a ranking gets its score
/// from its places.
pub fn join_ranked(
    plan: &SearchPlan,
    pages: &Vec<WikiPage>,
    ranked: &Vec<RankedPage>,
    found: WordSearch,
) -> (r: Vec<ProjectSearchResult>)
    requires
        forall|k: int|
            0 <= k < found.order@.len() ==> #[trigger] found.order@[k] < found.results@.len(),
    ensures
        ({
            let old = search::found_pages(found.results@);
            search::found_pages(r@) == fused_pages(
                old + ranked_only(*plan, graph::page_list(pages@), old, ranked@),
                order::ints(found.order@),
                ranked_ids(ranked@),
            )
        }),
{
    let mut results: Vec<ProjectSearchResult> = found.results;
    let ids = copy_ids(ranked);
    let ghost before = results@.len();
    add_ranked(plan, pages, ranked, &ids, &mut results);
    proof {
        assert(search::found_pages(results@).len() >= before);
        assert forall|k: int| 0 <= k < found.order@.len() implies #[trigger] found.order@[k]
            < results@.len() by {
            assert(found.order@[k] < before);
        }
    }
    let ghost joined = search::found_pages(results@);
    search::fuse(&mut results, &found.order, &ids);
    assert(search::found_pages(results@) =~= fused_pages(
        joined,
        order::ints(found.order@),
        ranked_ids(ranked@),
    ));
    results
}

/// The answer to a search by words and by a vector index: the pages by key and path, the first of
/// them. The keys compare as the scores of the pages do.
pub fn answer_ranked(
    plan: &SearchPlan,
    results: &Vec<ProjectSearchResult>,
    keys: &Vec<u64>,
    token_hits: usize,
    graph_hits: usize,
    vector_hits: usize,
) -> (r: ProjectSearchResponse)
    requires
        keys@.len() == results@.len(),
    ensures
        r.ok,
        search::found_pages(r.results@) == search::picked(
            search::found_pages(results@),
            search::placed_pages(
                order::sorted_list(search::by_key(search::found_pages(results@), keys@)),
            ),
            plan.limit as nat,
        ),
        r.mode@ == search::search_mode(
            token_hits as nat,
            graph_hits as nat,
            vector_hits as nat,
        ),
        r.token_hits == token_hits,
        r.graph_hits == graph_hits,
        r.vector_hits == vector_hits,
{
    let order = search::key_order(results, keys);
    search::respond(results, &order, plan.limit, token_hits, graph_hits, vector_hits)
}

} // verus!
