//! What holds of the graph of a wiki, whatever its pages: which links lead where, which pages are
//! joined, and what the weight of an edge is made of.

use crate::graph;
use crate::graph::LinkedPage;
use crate::links;
use crate::order;
use crate::outside;
use crate::text;
use crate::text::CharSet;
use crate::text_laws;
use vstd::prelude::*;

verus! {

// ---------------------------------------------------------------------------------------
// Links
// ---------------------------------------------------------------------------------------

/// A text of one word is the same with hyphens between its words, and white space between words
/// becomes a hyphen.
pub proof fn lemma_dashed(a: Seq<char>, c: char, b: Seq<char>)
    requires
        text_laws::none_in(a, CharSet::WhiteSpace),
        text_laws::none_in(b, CharSet::WhiteSpace),
        a.len() > 0,
        b.len() > 0,
        text::white_space(c),
    ensures
        links::dashed(a) == a,
        links::dashed(a + seq![c] + b) == a + "-"@ + b,
{
    text_laws::lemma_words(a, c, b);
    text_laws::lemma_words(b, c, a);
    assert(seq![a] + seq![b] =~= seq![a].push(b));
    text_laws::lemma_joined(seq![a], b, "-"@);
    text_laws::lemma_joined(Seq::empty(), a, "-"@);
    assert(Seq::<Seq<char>>::empty().push(a) =~= seq![a]);
}

/// A link leads to the page with that very id. Where there is none it leads to the first page whose
/// id is the same in lower case, with hyphens between the words of the link or of both, and where
/// there is none of these either it leads nowhere.
pub proof fn lemma_resolved_link(
    link: Seq<char>,
    link_lower: Seq<char>,
    ids: Seq<Seq<char>>,
    ids_lower: Seq<Seq<char>>,
    i: int,
)
    requires
        ids_lower.len() == ids.len(),
    ensures
        ({
            let to = links::resolved(link, link_lower, ids, ids_lower);
            &&& 0 <= i < ids.len() && ids[i] == link && ids.no_duplicates() ==> to == Some(i)
            &&& !ids.contains(link) && 0 <= i < ids.len() && is_like(link_lower, ids_lower[i]) && (
            forall|k: int| 0 <= k < i ==> !is_like(link_lower, #[trigger] ids_lower[k])) ==> to
                == Some(i)
            &&& !ids.contains(link) && (forall|k: int|
                0 <= k < ids.len() ==> !is_like(link_lower, #[trigger] ids_lower[k])) ==> to is None
        }),
{
    if 0 <= i < ids.len() && ids[i] == link {
        assert(ids.contains(ids[i]));
    }
    if 0 <= i < ids.len() && is_like(link_lower, ids_lower[i]) && (forall|k: int|
        0 <= k < i ==> !is_like(link_lower, #[trigger] ids_lower[k])) {
        lemma_first_like(link_lower, ids_lower, 0, i);
    }
    if forall|k: int| 0 <= k < ids.len() ==> !is_like(link_lower, #[trigger] ids_lower[k]) {
        lemma_none_like(link_lower, ids_lower, 0);
    }
}

/// Whether an id is a link, apart from white space in place of hyphens.
pub open spec fn is_like(link: Seq<char>, id: Seq<char>) -> bool {
    ||| link == id
    ||| text::joined(text::words(link), "-"@) == id
    ||| text::joined(text::words(link), "-"@) == text::joined(text::words(id), "-"@)
}

proof fn lemma_first_like(link: Seq<char>, ids: Seq<Seq<char>>, from: int, i: int)
    requires
        0 <= from <= i < ids.len(),
        is_like(link, ids[i]),
        forall|k: int| 0 <= k < i ==> !is_like(link, #[trigger] ids[k]),
    ensures
        links::first_named(link, ids, from) == Some(i),
    decreases i - from,
{
    assert(links::names(link, ids[from]) == is_like(link, ids[from]));
    if from < i {
        lemma_first_like(link, ids, from + 1, i);
    }
}

proof fn lemma_none_like(link: Seq<char>, ids: Seq<Seq<char>>, from: int)
    requires
        0 <= from <= ids.len(),
        forall|k: int| 0 <= k < ids.len() ==> !is_like(link, #[trigger] ids[k]),
    ensures
        links::first_named(link, ids, from) is None,
    decreases ids.len() - from,
{
    if from < ids.len() {
        assert(links::names(link, ids[from]) == is_like(link, ids[from]));
        lemma_none_like(link, ids, from + 1);
    }
}

/// Whether a link of page `i` leads to page `j`.
pub open spec fn leads(links: Seq<Seq<Seq<char>>>, ids: Seq<Seq<char>>, i: int, j: int, k: int) -> bool {
    0 <= k < links[i].len() && links::resolved(
        links[i][k],
        outside::lowercase(links[i][k]),
        ids,
        ids.map_values(|x: Seq<char>| outside::lowercase(x)),
    ) == Some(j)
}

/// The links between the pages are all that lead from one page to another, and no others.
pub proof fn lemma_all_links_lead(
    links: Seq<Seq<Seq<char>>>,
    ids: Seq<Seq<char>>,
    i: int,
    j: int,
)
    requires
        links.len() == ids.len(),
    ensures
        links::all_links(links, ids, ids.len() as int).contains((i, j)) <==> 0 <= i < ids.len() && i
            != j && exists|k: int| #[trigger] leads(links, ids, i, j, k),
{
    lemma_links_before(links, ids, ids.len() as int, i, j);
}

proof fn lemma_links_before(
    links: Seq<Seq<Seq<char>>>,
    ids: Seq<Seq<char>>,
    n: int,
    i: int,
    j: int,
)
    requires
        0 <= n <= links.len(),
    ensures
        links::all_links(links, ids, n).contains((i, j)) <==> 0 <= i < n && i != j && exists|k: int|
            #[trigger] leads(links, ids, i, j, k),
    decreases n,
{
    if n > 0 {
        lemma_links_before(links, ids, n - 1, i, j);
        let before = links::all_links(links, ids, n - 1);
        let own = links::links_of(n - 1, links[n - 1], ids);
        lemma_links_of_page(n - 1, links[n - 1], ids, i, j);
        assert((before + own).contains((i, j)) <==> before.contains((i, j)) || own.contains((i, j)))
            by {
            if before.contains((i, j)) {
                let x = choose|x: int| 0 <= x < before.len() && before[x] == (i, j);
                assert((before + own)[x] == (i, j));
            }
            if own.contains((i, j)) {
                let x = choose|x: int| 0 <= x < own.len() && own[x] == (i, j);
                assert((before + own)[before.len() + x] == (i, j));
            }
            if (before + own).contains((i, j)) {
                let x = choose|x: int|
                    0 <= x < (before + own).len() && (before + own)[x] == (i, j);
                if x < before.len() {
                    assert(before[x] == (i, j));
                } else {
                    assert(own[x - before.len()] == (i, j));
                }
            }
        }
        if i == n - 1 {
            let mine = links[n - 1];
            if exists|k: int| leads_from(mine, ids, j, k) {
                let k = choose|k: int| leads_from(mine, ids, j, k);
                assert(leads(links, ids, i, j, k));
            }
            if exists|k: int| #[trigger] leads(links, ids, i, j, k) {
                let k = choose|k: int| #[trigger] leads(links, ids, i, j, k);
                assert(leads_from(mine, ids, j, k));
            }
        }
    }
}

spec fn leads_from(links: Seq<Seq<char>>, ids: Seq<Seq<char>>, j: int, k: int) -> bool {
    0 <= k < links.len() && links::resolved(
        links[k],
        outside::lowercase(links[k]),
        ids,
        links::lowered(ids),
    ) == Some(j)
}

proof fn lemma_links_of_page(own: int, links: Seq<Seq<char>>, ids: Seq<Seq<char>>, i: int, j: int)
    ensures
        links::links_of(own, links, ids).contains((i, j)) <==> i == own && j != own && exists|k: int|
            leads_from(links, ids, j, k),
    decreases links.len(),
{
    if links.len() > 0 {
        let rest = links.drop_last();
        lemma_links_of_page(own, rest, ids, i, j);
        let before = links::links_of(own, rest, ids);
        let all = links::links_of(own, links, ids);
        let last = links.len() - 1;
        if before.contains((i, j)) {
            let x = choose|x: int| 0 <= x < before.len() && before[x] == (i, j);
            assert(all[x] == (i, j));
            let k = choose|k: int| leads_from(rest, ids, j, k);
            assert(leads_from(links, ids, j, k));
        }
        if all.contains((i, j)) && !before.contains((i, j)) {
            let x = choose|x: int| 0 <= x < all.len() && all[x] == (i, j);
            if x < before.len() {
                assert(before[x] == (i, j));
            }
            assert(leads_from(links, ids, j, last));
        }
        if i == own && j != own && exists|k: int| leads_from(links, ids, j, k) {
            let k = choose|k: int| leads_from(links, ids, j, k);
            if k < last {
                assert(leads_from(rest, ids, j, k));
            } else {
                assert(all[before.len() as int] == (own, j));
            }
        }
    }
}

/// Pages are joined by an edge exactly where one of them links to the other, by its id or by a text
/// like it, however often and in whichever direction.
pub proof fn lemma_linked_pages_are_joined(list: Seq<LinkedPage>, i: int, j: int)
    requires
        0 <= i < list.len(),
        0 <= j < list.len(),
        i != j,
    ensures
        ({
            let all = list.map_values(|p: LinkedPage| p.links);
            let joined = graph::graph_edges(list).contains((i, j)) || graph::graph_edges(
                list,
            ).contains((j, i));
            joined <==> (exists|k: int| #[trigger] leads(all, graph::ids(list), i, j, k)) || (exists|
                k: int,
            | #[trigger]
                leads(all, graph::ids(list), j, i, k))
        }),
{
    let all = list.map_values(|p: LinkedPage| p.links);
    let between = graph::graph_links(list);
    links::lemma_all_links(all, graph::ids(list), list.len() as int);
    links::lemma_edges_join_linked_pages(between, list.len(), i, j);
    lemma_all_links_lead(all, graph::ids(list), i, j);
    lemma_all_links_lead(all, graph::ids(list), j, i);
}

/// Two pages of which one links to the other by its very id are joined.
pub proof fn lemma_link_by_id_joins(list: Seq<LinkedPage>, i: int, j: int, k: int)
    requires
        0 <= i < list.len(),
        0 <= j < list.len(),
        i != j,
        0 <= k < list[i].links.len(),
        list[i].links[k] == list[j].id,
        order::ascending(graph::ids(list)),
    ensures
        graph::graph_edges(list).contains((i, j)) || graph::graph_edges(list).contains((j, i)),
{
    let all = list.map_values(|p: LinkedPage| p.links);
    let ids = graph::ids(list);
    assert(ids.no_duplicates()) by {
        assert forall|a: int, b: int| 0 <= a < ids.len() && 0 <= b < ids.len() && a != b implies ids[a]
            != ids[b] by {
            if a < b {
                assert(text::text_lt(ids[a], ids[b]));
            } else {
                assert(text::text_lt(ids[b], ids[a]));
            }
        }
    }
    assert(ids[j] == list[j].id);
    lemma_resolved_link(
        all[i][k],
        outside::lowercase(all[i][k]),
        ids,
        ids.map_values(|x: Seq<char>| outside::lowercase(x)),
        j,
    );
    assert(leads(all, ids, i, j, k));
    lemma_linked_pages_are_joined(list, i, j);
}

/// A page is an end of a link as often as links start at it and lead to it.
pub proof fn lemma_link_count(links: Seq<(int, int)>, from: int, to: int, i: int)
    ensures
        links::link_count(links.push((from, to)), i) == links::link_count(links, i) + (if from == i {
            1nat
        } else {
            0
        }) + if to == i {
            1nat
        } else {
            0
        },
        links::link_count(Seq::<(int, int)>::empty(), i) == 0,
        links::link_count(links, i) > 0 <==> exists|k: int|
            0 <= k < links.len() && ((#[trigger] links[k]).0 == i || links[k].1 == i),
    decreases links.len(),
{
    assert(links.push((from, to)).drop_last() =~= links);
    if links.len() > 0 {
        let rest = links.drop_last();
        lemma_link_count(rest, from, to, i);
        if links::link_count(rest, i) > 0 {
            let k = choose|k: int|
                0 <= k < rest.len() && ((#[trigger] rest[k]).0 == i || rest[k].1 == i);
            assert(links[k].0 == i || links[k].1 == i);
        }
        if exists|k: int| 0 <= k < links.len() && ((#[trigger] links[k]).0 == i || links[k].1 == i) {
            let k = choose|k: int|
                0 <= k < links.len() && ((#[trigger] links[k]).0 == i || links[k].1 == i);
            if k < rest.len() {
                assert(rest[k].0 == i || rest[k].1 == i);
            }
        }
        assert(links[links.len() - 1] == links.last());
    }
}

// ---------------------------------------------------------------------------------------
// Weights
// ---------------------------------------------------------------------------------------

/// What the weight of an edge is made of counts each direction in which the pages link to each
/// other once, each source that both have once, and each page that both are joined to.
pub proof fn lemma_ingredients(
    links: Seq<(int, int)>,
    n: nat,
    left: int,
    right: int,
    left_sources: Set<Seq<char>>,
    right_sources: Set<Seq<char>>,
    left_kind: Seq<char>,
    right_kind: Seq<char>,
    source: Seq<char>,
)
    requires
        left_sources.finite(),
        right_sources.finite(),
    ensures
        ({
            let of = |a: Set<Seq<char>>, b: Set<Seq<char>>|
                links::ingredients(links, n, left, right, a, b, left_kind, right_kind);
            let all = of(left_sources, right_sources);
            &&& all.direct <= 2
            &&& all.direct == 2 <==> links.contains((left, right)) && links.contains((right, left))
            &&& all.direct == 0 <==> !links.contains((left, right)) && !links.contains(
                (right, left),
            )
            &&& all.shared_sources == 0 <==> left_sources.disjoint(right_sources)
            &&& !left_sources.contains(source) ==> of(
                left_sources.insert(source),
                right_sources.insert(source),
            ).shared_sources == all.shared_sources + 1
            &&& !left_sources.contains(source) && !right_sources.contains(source) ==> of(
                left_sources.insert(source),
                right_sources,
            ).shared_sources == all.shared_sources
            &&& all.degrees.len() == links::common_neighbours(links, n, left, right).len()
            &&& forall|k: int|
                #[trigger] links::common_neighbours(links, n, left, right).contains(k) <==> 0 <= k
                    < n && (links.contains((left, k)) || links.contains((k, left))) && (
                links.contains((right, k)) || links.contains((k, right)))
            &&& forall|x: int|
                0 <= x < all.degrees.len() ==> #[trigger] all.degrees[x] == links::degree(
                    links,
                    n,
                    links::common_neighbours(links, n, left, right)[x],
                )
        }),
{
    let both = left_sources.intersect(right_sources);
    vstd::set_lib::lemma_set_empty_equivalency_len(both);
    if left_sources.disjoint(right_sources) {
        assert(both =~= Set::<Seq<char>>::empty());
    }
    if both.len() == 0 {
        assert forall|s: Seq<char>| left_sources.contains(s) implies !right_sources.contains(s) by {
            assert(!both.contains(s));
        }
    }
    if !left_sources.contains(source) {
        assert(left_sources.insert(source).intersect(right_sources.insert(source))
            =~= both.insert(source));
        if !right_sources.contains(source) {
            assert(left_sources.insert(source).intersect(right_sources) =~= both);
        }
    }
    order::lemma_select(
        n,
        |k: int| links::adjacent(links, left, k) && links::adjacent(links, right, k),
    );
}

/// The degree of a page is how many pages it links to and how many link to it, and counts as two
/// where it is less.
pub proof fn lemma_degree(links: Seq<(int, int)>, n: nat, k: int)
    ensures
        ({
            let to = Set::new(|j: int| 0 <= j < n && links.contains((k, j)));
            let from = Set::new(|j: int| 0 <= j < n && links.contains((j, k)));
            &&& links::degree(links, n, k) >= 2
            &&& to.len() + from.len() >= 2 ==> links::degree(links, n, k) == to.len() + from.len()
        }),
{
    let (p, q) = (|j: int| links.contains((k, j)), |j: int| links.contains((j, k)));
    lemma_select_len(n, p);
    lemma_select_len(n, q);
    assert(Set::new(|j: int| 0 <= j < n && links.contains((k, j))) =~= Set::new(
        |j: int| 0 <= j < n && p(j),
    ));
    assert(Set::new(|j: int| 0 <= j < n && links.contains((j, k))) =~= Set::new(
        |j: int| 0 <= j < n && q(j),
    ));
}

/// As many numbers are selected as there are.
pub proof fn lemma_select_len(n: nat, p: spec_fn(int) -> bool)
    ensures
        order::select(n, p).len() == Set::new(|j: int| 0 <= j < n && p(j)).len(),
        Set::new(|j: int| 0 <= j < n && p(j)).finite(),
    decreases n,
{
    let all = Set::new(|j: int| 0 <= j < n && p(j));
    if n == 0 {
        assert(all =~= Set::<int>::empty());
    } else {
        let m = (n - 1) as nat;
        lemma_select_len(m, p);
        let before = Set::new(|j: int| 0 <= j < m && p(j));
        if p(m as int) {
            assert(all =~= before.insert(m as int));
        } else {
            assert(all =~= before);
        }
    }
}

/// The kinds of two pages count the same in either order. An entity with a concept, and a concept
/// with a synthesis, count most, a source with a page of another kind less, and two entities, two
/// concepts or two syntheses less than that. Everything else counts least.
pub proof fn lemma_affinity(left: Seq<char>, right: Seq<char>)
    ensures
        links::affinity(left, right) == links::affinity(right, left),
        links::affinity("entity"@, "concept"@) == 12,
        links::affinity("concept"@, "synthesis"@) == 12,
        left != "source"@ ==> links::affinity("source"@, left) == 10,
        links::affinity("source"@, "source"@) == 5,
        left == "entity"@ || left == "concept"@ || left == "synthesis"@ ==> links::affinity(
            left,
            left,
        ) == 8,
        left != "entity"@ && left != "concept"@ && left != "synthesis"@ && left != "source"@
            && right != "source"@ ==> links::affinity(left, right) == 5,
        links::affinity("entity"@, "synthesis"@) == 5,
{
    reveal_strlit("entity");
    reveal_strlit("concept");
    reveal_strlit("synthesis");
    reveal_strlit("source");
    assert("entity"@[0] == 'e' && "concept"@[0] == 'c' && "synthesis"@[1] == 'y' && "source"@[1]
        == 'o' && "synthesis"@[0] == 's' && "source"@[0] == 's');
}

// ---------------------------------------------------------------------------------------
// Pages
// ---------------------------------------------------------------------------------------

/// The id of a page is its file name without `.md`.
pub proof fn lemma_page_id(stem: Seq<char>)
    requires
        !text::ends_with(stem, ".md"@),
    ensures
        graph::page_id(stem + ".md"@) == stem,
        graph::page_id(stem) == stem,
{
    reveal_strlit(".md");
    text_laws::lemma_without_suffixes(stem, ".md"@);
}

/// Every page is in the graph under its id, unless it is a query or a later page that is none has
/// the same id. Nothing else is in the graph.
pub proof fn lemma_graph_pages(pages: Seq<LinkedPage>, i: int, id: Seq<char>)
    ensures
        0 <= i < pages.len() && pages[i].kind != "query"@ && (forall|k: int|
            i < k < pages.len() ==> (#[trigger] pages[k]).id != pages[i].id || pages[k].kind
                == "query"@) ==> graph::graph_pages(pages).contains_key(pages[i].id)
            && graph::graph_pages(pages)[pages[i].id] == pages[i],
        graph::graph_pages(pages).contains_key(id) ==> exists|k: int|
            0 <= k < pages.len() && (#[trigger] pages[k]).id == id && pages[k].kind != "query"@
                && graph::graph_pages(pages)[id] == pages[k],
    decreases pages.len(),
{
    if pages.len() > 0 {
        let rest = pages.drop_last();
        let last = pages.len() - 1;
        lemma_graph_pages(rest, i, id);
        if 0 <= i < rest.len() && pages[i].kind != "query"@ && (forall|k: int|
            i < k < pages.len() ==> (#[trigger] pages[k]).id != pages[i].id || pages[k].kind
                == "query"@) {
            assert forall|k: int| i < k < rest.len() implies (#[trigger] rest[k]).id != rest[i].id
                || rest[k].kind == "query"@ by {
                assert(pages[k].id != pages[i].id || pages[k].kind == "query"@);
            }
            assert(pages[last].id != pages[i].id || pages[last].kind == "query"@);
        }
        if graph::graph_pages(pages).contains_key(id) {
            if pages.last().kind != "query"@ && pages.last().id == id {
                assert(pages[last].id == id);
            } else {
                let k = choose|k: int|
                    0 <= k < rest.len() && (#[trigger] rest[k]).id == id && rest[k].kind
                        != "query"@ && graph::graph_pages(rest)[id] == rest[k];
                assert(pages[k].id == id);
            }
        }
    }
}

/// What a page is in the graph is read from its file: its id from the file name, its path as it is,
/// and its label, kind, sources and links from its text.
pub proof fn lemma_linked_page(page: graph::Page)
    ensures
        ({
            let p = graph::linked_page(page);
            &&& p.id == text::without_suffixes(page.file_name, ".md"@)
            &&& p.path == page.path
            &&& p.label == crate::markdown::page_label(page.content, page.file_name)
            &&& p.kind == crate::markdown::page_kind(page.content)
            &&& p.sources == crate::markdown::page_front_matter(page.content).sources
            &&& p.links == crate::markdown::page_links(page.content)
        }),
{
}

} // verus!
