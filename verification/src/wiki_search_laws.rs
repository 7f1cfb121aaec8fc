//! What holds of a search in a wiki, whatever its pages.

use crate::graph;
use crate::insight_laws;
use crate::links;
use crate::markdown;
use crate::order;
use crate::paths;
use crate::search;
use crate::search::FoundPage;
use crate::search::SearchPlan;
use crate::search::SearchScore;
use crate::search_laws;
use crate::text;
use crate::wiki_search;
use vstd::prelude::*;

verus! {

/// Whether a page goes with the query: it has at least one point.
pub open spec fn goes_with(plan: SearchPlan, page: graph::Page) -> bool {
    search_laws::match_of(plan, page.path, page.content).points() > 0
}

/// A search finds the pages that go with the query, each of them once, and in their order. Each has
/// its own points.
pub proof fn lemma_hits(plan: SearchPlan, pages: Seq<graph::Page>, found: Seq<FoundPage>)
    requires
        wiki_search::hits(plan, pages, pages.len() as int) == Some(found),
    ensures
        exists|at: Seq<int>|
            {
                &&& #[trigger] order::rising(at)
                &&& at.len() == found.len()
                &&& forall|i: int|
                    at.contains(i) <==> 0 <= i < pages.len() && goes_with(
                        plan,
                        #[trigger] pages[i],
                    )
                &&& forall|k: int|
                    0 <= k < at.len() ==> {
                        let (page, hit) = (pages[#[trigger] at[k]], found[k]);
                        &&& hit.path == page.path
                        &&& hit.score == SearchScore::Keyword(
                            search_laws::match_of(plan, page.path, page.content).points() as u128,
                        )
                        &&& hit.title == markdown::page_title(
                            page.content,
                            search::name_at(page.path),
                        )
                    }
            },
{
    let p = |i: int| goes_with(plan, pages[i]);
    let at = order::select(pages.len(), p);
    order::lemma_select(pages.len(), p);
    lemma_hits_of_first(plan, pages, pages.len() as int, found);
    assert forall|i: int| at.contains(i) <==> 0 <= i < pages.len() && goes_with(
        plan,
        #[trigger] pages[i],
    ) by {
        assert(p(i) == goes_with(plan, pages[i]));
    }
    assert(order::rising(at));
}

proof fn lemma_hits_of_first(
    plan: SearchPlan,
    pages: Seq<graph::Page>,
    k: int,
    found: Seq<FoundPage>,
)
    requires
        0 <= k <= pages.len(),
        wiki_search::hits(plan, pages, k) == Some(found),
    ensures
        ({
            let at = order::select(k as nat, |i: int| goes_with(plan, pages[i]));
            &&& at.len() == found.len()
            &&& forall|n: int|
                0 <= n < at.len() ==> {
                    let (page, hit) = (pages[#[trigger] at[n]], found[n]);
                    &&& hit.path == page.path
                    &&& hit.score == SearchScore::Keyword(
                        search_laws::match_of(plan, page.path, page.content).points() as u128,
                    )
                    &&& hit.title == markdown::page_title(
                        page.content,
                        search::name_at(page.path),
                    )
                }
        }),
    decreases k,
{
    if k > 0 {
        let before = wiki_search::hits(plan, pages, k - 1).unwrap();
        lemma_hits_of_first(plan, pages, k - 1, before);
        search_laws::lemma_found_pages(plan, pages[k - 1].path, pages[k - 1].content);
    }
}

/// There is no answer exactly where no snippet can be built of a page that goes with the query.
pub proof fn lemma_no_answer(plan: SearchPlan, pages: Seq<graph::Page>, k: int)
    requires
        0 <= k <= pages.len(),
    ensures
        wiki_search::hits(plan, pages, k) is None <==> exists|i: int|
            0 <= i < k && search::page_score(
                plan,
                (#[trigger] pages[i]).path,
                pages[i].content,
            ) is NoSnippet,
    decreases k,
{
    if k > 0 {
        lemma_no_answer(plan, pages, k - 1);
        if wiki_search::hits(plan, pages, k) is None && wiki_search::hits(plan, pages, k - 1) is Some {
            assert(search::page_score(
                plan,
                pages[k - 1].path,
                pages[k - 1].content,
            ) is NoSnippet);
        }
    }
}

/// The page at a path is the first one that has the path.
pub proof fn lemma_page_at(pages: Seq<graph::Page>, path: Seq<char>, from: int)
    requires
        0 <= from <= pages.len(),
    ensures
        match wiki_search::page_at(pages, path, from) {
            Some(i) => from <= i < pages.len() && pages[i].path == path && forall|k: int|
                from <= k < i ==> (#[trigger] pages[k]).path != path,
            None => forall|k: int|
                from <= k < pages.len() ==> (#[trigger] pages[k]).path != path,
        },
    decreases pages.len() - from,
{
    if from < pages.len() && pages[from].path != path {
        lemma_page_at(pages, path, from + 1);
    }
}

/// A page of the graph that is no page found is linked to one exactly where an edge joins it to a
/// page found.
pub proof fn lemma_linked(pages: Seq<graph::Page>, found: Seq<FoundPage>, j: int)
    requires
        ({
            let list = graph::graph_list(pages);
            let all = list.map_values(|p: graph::LinkedPage| p.path);
            &&& 0 <= j < list.len()
            &&& all.no_duplicates()
            &&& links::join_pages(graph::graph_edges(list), list.len())
        }),
    ensures
        ({
            let list = graph::graph_list(pages);
            wiki_search::is_linked(pages, found, list[j].path) <==> {
                &&& forall|k: int|
                    0 <= k < found.len() ==> (#[trigger] found[k]).path != list[j].path
                &&& exists|i: int, k: int|
                    0 <= i < list.len() && 0 <= k < found.len() && (#[trigger] found[k]).path == (
                    #[trigger] list[i]).path && links::adjacent(graph::graph_edges(list), i, j)
            }
        }),
{
    let list = graph::graph_list(pages);
    let all = list.map_values(|p: graph::LinkedPage| p.path);
    let edges = graph::graph_edges(list);
    let at = found.map_values(|p: FoundPage| p.path);
    let seeds = at.to_set();
    insight_laws::lemma_pages_beside(all, edges, seeds, j);
    assert forall|x: Seq<char>| seeds.contains(x) <==> exists|k: int|
        0 <= k < found.len() && (#[trigger] found[k]).path == x by {
        if seeds.contains(x) {
            let k = choose|k: int| 0 <= k < at.len() && at[k] == x;
            assert(found[k].path == x);
        }
        if exists|k: int| 0 <= k < found.len() && (#[trigger] found[k]).path == x {
            let k = choose|k: int| 0 <= k < found.len() && (#[trigger] found[k]).path == x;
            assert(at[k] == x);
        }
    }
    assert(all[j] == list[j].path);
    if wiki_search::is_linked(pages, found, list[j].path) {
        let i = choose|i: int|
            0 <= i < all.len() && seeds.contains(#[trigger] all[i]) && links::adjacent(edges, i, j);
        assert(all[i] == list[i].path);
        let k = choose|k: int| 0 <= k < found.len() && (#[trigger] found[k]).path == list[i].path;
        assert(found[k].path == list[i].path);
    }
    if exists|i: int, k: int|
        0 <= i < list.len() && 0 <= k < found.len() && (#[trigger] found[k]).path == (
        #[trigger] list[i]).path && links::adjacent(edges, i, j) {
        let (i, k) = choose|i: int, k: int|
            0 <= i < list.len() && 0 <= k < found.len() && (#[trigger] found[k]).path == (
            #[trigger] list[i]).path && links::adjacent(edges, i, j);
        assert(all[i] == list[i].path);
        assert(seeds.contains(all[i]));
    }
}

/// Every page that is linked to a page found and is not found itself is added, once, with a score
/// from that of the best page, and nothing else is.
pub proof fn lemma_linked_pages_are_added(
    plan: SearchPlan,
    pages: Seq<graph::Page>,
    found: Seq<FoundPage>,
    added: Seq<FoundPage>,
    i: int,
)
    requires
        plan.expand_graph,
        found.len() > 0,
        wiki_search::adds(plan, pages, found, added),
        0 <= i < pages.len(),
    ensures
        wiki_search::is_linked(pages, found, pages[i].path) && (forall|k: int|
            0 <= k < found.len() ==> (#[trigger] found[k]).path != pages[i].path) ==> exists|k: int|
            {
                &&& 0 <= k < added.len()
                &&& (#[trigger] added[k]).path == pages[i].path
                &&& added[k].score == SearchScore::Graph(search::best_points(found) as u128)
                &&& !added[k].title_match
                &&& added[k].vector is None
                &&& added[k].content is Some <==> plan.include_content
            },
        forall|k: int|
            0 <= k < added.len() ==> wiki_search::is_linked(
                pages,
                found,
                (#[trigger] added[k]).path,
            ),
        forall|k: int, n: int|
            0 <= k < n < added.len() ==> (#[trigger] added[k]).path != (#[trigger] added[n]).path,
{
    let at = added.map_values(|p: FoundPage| p.path);
    let path = pages[i].path;
    lemma_page_at(pages, path, 0);
    if wiki_search::is_linked(pages, found, path) && (forall|k: int|
        0 <= k < found.len() ==> (#[trigger] found[k]).path != path) {
        assert(!search::is_found_at(found, path));
        assert(search::is_found_at(added, path));
        let k = choose|k: int| 0 <= k < added.len() && (#[trigger] added[k]).path == path;
        let page = added[k];
        assert(page == wiki_search::linked_page(
            page.path,
            pages[wiki_search::page_at(pages, page.path, 0).unwrap()].content,
            search::best_points(found) as u128,
            plan.include_content,
        ));
    }
    assert forall|k: int| 0 <= k < added.len() implies wiki_search::is_linked(
        pages,
        found,
        (#[trigger] added[k]).path,
    ) by {
        assert(search::is_found_at(added, added[k].path));
    }
    assert forall|k: int, n: int| 0 <= k < n < added.len() implies (#[trigger] added[k]).path != (
    #[trigger] added[n]).path by {
        assert(text::text_lt(at[k], at[n]));
        text::lemma_text_reflexive(at[k]);
    }
}

/// Without pages found, or where the plan does not ask for linked pages, none are added.
pub proof fn lemma_nothing_is_added(
    plan: SearchPlan,
    pages: Seq<graph::Page>,
    found: Seq<FoundPage>,
    added: Seq<FoundPage>,
)
    requires
        !plan.expand_graph || found.len() == 0,
    ensures
        wiki_search::adds(plan, pages, found, added) <==> added.len() == 0,
{
    assert(added.len() == 0 ==> added =~= Seq::empty());
}

/// Pages at different paths count each, and pages at one path count once.
pub proof fn lemma_path_count(found: Seq<FoundPage>, page: FoundPage)
    ensures
        wiki_search::path_count(Seq::empty()) == 0,
        (forall|k: int| 0 <= k < found.len() ==> (#[trigger] found[k]).path != page.path)
            ==> wiki_search::path_count(found.push(page)) == wiki_search::path_count(found) + 1,
        (exists|k: int| 0 <= k < found.len() && (#[trigger] found[k]).path == page.path)
            ==> wiki_search::path_count(found.push(page)) == wiki_search::path_count(found),
{
    let f = |p: FoundPage| p.path;
    let (a, b) = (found.map_values(f), found.push(page).map_values(f));
    assert(b =~= a.push(page.path));
    assert(b.to_set() =~= a.to_set().insert(page.path)) by {
        assert forall|x: Seq<char>| b.to_set().contains(x) implies a.to_set().insert(
            page.path,
        ).contains(x) by {
            let k = choose|k: int| 0 <= k < b.len() && b[k] == x;
            if k < a.len() {
                assert(a[k] == x);
            }
        }
        assert forall|x: Seq<char>| a.to_set().insert(page.path).contains(x) implies b.to_set().contains(
            x,
        ) by {
            if x == page.path {
                assert(b[a.len() as int] == x);
            } else {
                let k = choose|k: int| 0 <= k < a.len() && a[k] == x;
                assert(b[k] == x);
            }
        }
    }
    vstd::seq_lib::seq_to_set_is_finite(a);
    if exists|k: int| 0 <= k < found.len() && (#[trigger] found[k]).path == page.path {
        let k = choose|k: int| 0 <= k < found.len() && (#[trigger] found[k]).path == page.path;
        assert(a[k] == page.path);
        assert(a.to_set().insert(page.path) =~= a.to_set());
    }
    if forall|k: int| 0 <= k < found.len() ==> (#[trigger] found[k]).path != page.path {
        if a.to_set().contains(page.path) {
            let k = choose|k: int| 0 <= k < a.len() && a[k] == page.path;
            assert(found[k].path == page.path);
        }
    }
    let none = Seq::<FoundPage>::empty().map_values(f);
    assert(none.to_set() =~= Set::<Seq<char>>::empty()) by {
        assert forall|x: Seq<char>| !none.to_set().contains(x) by {
            if none.contains(x) {
                let k = choose|k: int| 0 <= k < none.len() && none[k] == x;
            }
        }
    }
}

/// A page that both rankings hold gets its score from its places in both, a page that one holds
/// from its place there, and a page that neither holds keeps its own. Nothing else of a page
/// changes, and the pages keep their order.
pub proof fn lemma_fused_pages(
    pages: Seq<FoundPage>,
    order: Seq<int>,
    ids: Seq<Seq<char>>,
    i: int,
    token: int,
    vector: int,
)
    requires
        0 <= i < pages.len(),
        order.len() < usize::MAX,
        ids.len() < usize::MAX,
        0 <= token < order.len() ==> pages[order[token]].path == pages[i].path && forall|k: int|
            token < k < order.len() ==> pages[#[trigger] order[k]].path != pages[i].path,
        !(0 <= token < order.len()) ==> forall|k: int|
            0 <= k < order.len() ==> pages[#[trigger] order[k]].path != pages[i].path,
        0 <= vector < ids.len() ==> ids[vector] == paths::path_stem(pages[i].path) && forall|k: int|
            vector < k < ids.len() ==> #[trigger] ids[k] != paths::path_stem(pages[i].path),
        !(0 <= vector < ids.len()) ==> !ids.contains(paths::path_stem(pages[i].path)),
    ensures
        ({
            let all = wiki_search::fused_pages(pages, order, ids);
            let (has_token, has_vector) = (0 <= token < order.len(), 0 <= vector < ids.len());
            &&& all.len() == pages.len()
            &&& all[i].path == pages[i].path && all[i].title == pages[i].title && all[i].snippet
                == pages[i].snippet
            &&& has_token && has_vector ==> all[i].score == SearchScore::Fused(
                Some((token + 1) as usize),
                Some((vector + 1) as usize),
            )
            &&& has_token && !has_vector ==> all[i].score == SearchScore::Fused(
                Some((token + 1) as usize),
                None,
            )
            &&& !has_token && has_vector ==> all[i].score == SearchScore::Fused(
                None,
                Some((vector + 1) as usize),
            )
            &&& !has_token && !has_vector ==> all[i] == pages[i]
        }),
{
    let at = order.map_values(|p: int| pages[p].path);
    let (path, id) = (pages[i].path, paths::path_stem(pages[i].path));
    search_laws::lemma_last_place(at, path);
    search_laws::lemma_last_place(ids, id);
    let has_token = 0 <= token < order.len();
    if has_token {
        assert(at[token] == path);
        assert(at.contains(path));
        let k = search::last_place(at, path, at.len() as int).unwrap();
        if k > token {
            assert(pages[order[k]].path != path);
            assert(at[k] == pages[order[k]].path);
        } else if k < token {
            assert(at[token] != path);
        }
    } else if at.contains(path) {
        let k = choose|k: int| 0 <= k < at.len() && at[k] == path;
        assert(pages[order[k]].path != path);
    }
    if 0 <= vector < ids.len() {
        assert(ids.contains(id));
        let k = search::last_place(ids, id, ids.len() as int).unwrap();
        if k > vector {
            assert(ids[k] != id);
        } else if k < vector {
            assert(ids[vector] != id);
        }
    }
    let t = if has_token {
        token
    } else {
        0
    };
    let v = if 0 <= vector < ids.len() {
        vector
    } else {
        0
    };
    search_laws::lemma_fused(pages[i], t as usize, v as usize);
}

/// A page that the vector index alone has found stands for the page of the wiki, with the part that
/// the index found as its snippet and its place in the ranking.
pub proof fn lemma_ranked_only(
    plan: SearchPlan,
    pages: Seq<graph::Page>,
    found: Seq<FoundPage>,
    ranked: Seq<wiki_search::RankedPage>,
    place: int,
    i: int,
)
    requires
        0 <= place < ranked.len(),
        0 <= i < pages.len(),
        place <= usize::MAX,
        paths::path_stem(pages[i].path) == ranked[place].id@,
        forall|k: int|
            i < k < pages.len() ==> paths::path_stem((#[trigger] pages[k]).path)
                != ranked[place].id@,
        forall|k: int|
            0 <= k < found.len() ==> paths::path_stem((#[trigger] found[k]).path)
                != ranked[place].id@,
        forall|k: int| 0 <= k < place ==> (#[trigger] ranked[k]).id@ != ranked[place].id@,
    ensures
        ({
            let all = wiki_search::ranked_only(plan, pages, found, ranked);
            exists|n: int|
                {
                    &&& 0 <= n < all.len()
                    &&& (#[trigger] all[n]).path == pages[i].path
                    &&& all[n].snippet == search::part_snippet(
                        ranked[place].chunk_text@,
                        ranked[place].heading_path@,
                    )
                    &&& all[n].vector == Some(place as usize)
                    &&& all[n].title == markdown::page_title(
                        pages[i].content,
                        search::name_at(pages[i].path),
                    )
                    &&& all[n].content is Some <==> plan.include_content
                }
        }),
{
    let ids = wiki_search::ranked_ids(ranked);
    let list = wiki_search::page_paths(pages);
    let only = search::vector_only(found, ids, list, ids.len() as int);
    let all = wiki_search::ranked_only(plan, pages, found, ranked);
    assert(ids[place] == ranked[place].id@);
    assert(list[i] == pages[i].path);
    assert forall|k: int| i < k < list.len() implies paths::path_stem(#[trigger] list[k])
        != ids[place] by {
        assert(list[k] == pages[k].path);
    }
    assert forall|k: int| 0 <= k < place implies #[trigger] ids[k] != ids[place] by {
        assert(ids[k] == ranked[k].id@);
    }
    search_laws::lemma_vector_only(found, ids, list, place, i);
    assert(only.contains((place, i)));
    let n = choose|n: int| 0 <= n < only.len() && only[n] == (place, i);
    assert(all[n] == wiki_search::ranked_page(
        pages[i],
        place,
        ranked[place].chunk_text@,
        ranked[place].heading_path@,
        plan.include_content,
    ));
    assert(all[n].path == pages[i].path);
}

} // verus!
