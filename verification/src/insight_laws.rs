//! What holds of the insights into a graph, whatever its pages and edges.

use crate::graph;
use crate::graph::Node;
use crate::graph_laws;
use crate::insights;
use crate::insights::{Community, Gap, Member, Reason, Surprise};
use crate::links;
use crate::order;
use crate::text;
use vstd::prelude::*;

verus! {

// ---------------------------------------------------------------------------------------
// Surprising connections
// ---------------------------------------------------------------------------------------

/// The reasons of a connection begin with the boundary that it crosses, for three points, exactly
/// where its pages are in different communities, whichever of them has the smaller number. Pages in
/// one community cross no boundary.
pub proof fn lemma_crossing_a_boundary(source: Node, target: Node, weak: bool, max_degree: nat)
    ensures
        ({
            let reasons = insights::surprise_reasons(source, target, weak, max_degree);
            &&& source.community != target.community ==> reasons.len() > 0 && reasons[0] == (Reason {
                points: 3,
                text: "crosses community boundary"@,
            })
            &&& source.community == target.community ==> forall|k: int|
                0 <= k < reasons.len() ==> (#[trigger] reasons[k]).points < 3
        }),
{
}

/// Every connection between two communities surprises, unless one of its pages belongs to the
/// structure of the wiki.
pub proof fn lemma_connections_between_communities_surprise(
    source: Node,
    target: Node,
    weak: bool,
    max_degree: nat,
)
    requires
        source.community != target.community,
        source.id != "index"@ && source.id != "log"@ && source.id != "overview"@,
        target.id != "index"@ && target.id != "log"@ && target.id != "overview"@,
    ensures
        insights::surprise(source, target, weak, max_degree) matches Some(found) && found.score >= 3
            && found.source == source && found.target == target && found.reasons.len() > 0
            && found.reasons[0] == "crosses community boundary"@,
{
    let reasons = insights::surprise_reasons(source, target, weak, max_degree);
    lemma_crossing_a_boundary(source, target, weak, max_degree);
    lemma_points_from_first(reasons);
}

proof fn lemma_points_from_first(reasons: Seq<Reason>)
    requires
        reasons.len() > 0,
    ensures
        insights::points(reasons) >= reasons[0].points,
    decreases reasons.len(),
{
    if reasons.len() > 1 {
        assert(reasons.drop_last()[0] == reasons[0]);
        lemma_points_from_first(reasons.drop_last());
    } else {
        assert(reasons.drop_last() =~= Seq::<Reason>::empty());
        assert(insights::points(Seq::<Reason>::empty()) == 0);
    }
}

/// The score of a connection is three points where it crosses a boundary, two where the kinds of its
/// pages are far from each other and one where they differ otherwise, two where a page with two
/// links or fewer is joined to one with at least half of the most links, and one where its edge is
/// weak.
pub proof fn lemma_surprise_points(source: Node, target: Node, weak: bool, max_degree: nat)
    ensures
        ({
            let (a, b) = (source.link_count, target.link_count);
            insights::points(insights::surprise_reasons(source, target, weak, max_degree)) == (
            if source.community != target.community {
                3int
            } else {
                0
            }) + (if source.kind == target.kind {
                0int
            } else if insights::are_distant(source.kind, target.kind) {
                2
            } else {
                1
            }) + (if (a <= 2 && a <= b && 2 * b >= max_degree) || (b <= 2 && b <= a && 2 * a
                >= max_degree) {
                2int
            } else {
                0
            }) + if weak {
                1int
            } else {
                0
            }
        }),
{
    let crossing = if source.community != target.community {
        seq![Reason { points: 3, text: "crosses community boundary"@ }]
    } else {
        seq![]
    };
    let kinds = if source.kind == target.kind {
        seq![]
    } else if insights::are_distant(source.kind, target.kind) {
        seq![Reason { points: 2, text: "connects "@ + source.kind + " to "@ + target.kind }]
    } else {
        seq![Reason { points: 1, text: "different types"@ }]
    };
    let (low, high) = if source.link_count <= target.link_count {
        (source.link_count, target.link_count)
    } else {
        (target.link_count, source.link_count)
    };
    let hub = if low <= 2 && 2 * high >= max_degree {
        seq![Reason { points: 2, text: "peripheral node links to hub"@ }]
    } else {
        seq![]
    };
    let weight = if weak {
        seq![Reason { points: 1, text: "weak but present connection"@ }]
    } else {
        seq![]
    };
    lemma_points_concat(crossing + kinds + hub, weight);
    lemma_points_concat(crossing + kinds, hub);
    lemma_points_concat(crossing, kinds);
    lemma_one_reason(crossing);
    lemma_one_reason(kinds);
    lemma_one_reason(hub);
    lemma_one_reason(weight);
}

proof fn lemma_points_concat(a: Seq<Reason>, b: Seq<Reason>)
    ensures
        insights::points(a + b) == insights::points(a) + insights::points(b),
    decreases b.len(),
{
    if b.len() == 0 {
        assert(a + b =~= a);
    } else {
        assert((a + b).drop_last() =~= a + b.drop_last());
        lemma_points_concat(a, b.drop_last());
    }
}

proof fn lemma_one_reason(a: Seq<Reason>)
    requires
        a.len() <= 1,
    ensures
        insights::points(a) == if a.len() == 1 {
            a[0].points
        } else {
            0
        },
{
    if a.len() == 1 {
        assert(a.drop_last() =~= Seq::<Reason>::empty());
        assert(insights::points(Seq::<Reason>::empty()) == 0);
    }
}

/// The score and the key of a connection do not depend on which of its pages is the source.
pub proof fn lemma_surprise_is_symmetric(a: Node, b: Node, weak: bool, max_degree: nat)
    ensures
        insights::points(insights::surprise_reasons(a, b, weak, max_degree)) == insights::points(
            insights::surprise_reasons(b, a, weak, max_degree),
        ),
        insights::surprise(a, b, weak, max_degree) is Some <==> insights::surprise(
            b,
            a,
            weak,
            max_degree,
        ) is Some,
        insights::pair_key(a.id, b.id) == insights::pair_key(b.id, a.id),
{
    lemma_surprise_points(a, b, weak, max_degree);
    lemma_surprise_points(b, a, weak, max_degree);
    lemma_pair_key(a.id, b.id);
}

/// The key of a pair of pages is the same in either order: the smaller id, three colons and the
/// larger one.
pub proof fn lemma_pair_key(a: Seq<char>, b: Seq<char>)
    ensures
        insights::pair_key(a, b) == insights::pair_key(b, a),
        text::text_le(a, b) ==> insights::pair_key(a, b) == a + ":::"@ + b,
{
    text::lemma_text_total(a, b);
    if text::text_le(a, b) && text::text_le(b, a) {
        text::lemma_text_antisymmetric(a, b);
    }
}

/// Sources are far from concepts and syntheses, and queries from entities, in either order. No
/// other kinds are.
pub proof fn lemma_distant_kinds(a: Seq<char>, b: Seq<char>)
    ensures
        insights::are_distant(a, b) == insights::are_distant(b, a),
        insights::are_distant("source"@, a) <==> a == "concept"@ || a == "synthesis"@,
        insights::are_distant("query"@, a) <==> a == "entity"@,
        a != "source"@ && a != "query"@ && b != "source"@ && b != "query"@ ==> !insights::are_distant(
            a,
            b,
        ),
{
    reveal_strlit("source");
    reveal_strlit("concept");
    reveal_strlit("synthesis");
    reveal_strlit("query");
    reveal_strlit("entity");
    assert("source"@[1] == 'o' && "concept"@[0] == 'c' && "synthesis"@[1] == 'y' && "query"@[0]
        == 'q' && "entity"@[0] == 'e' && "source"@[0] == 's' && "synthesis"@[0] == 's');
}

/// The most links are those of a page, and no page has more, unless no page has one: they count as
/// one then.
pub proof fn lemma_most_links(nodes: Seq<Node>)
    ensures
        insights::max_degree(nodes) >= 1,
        forall|i: int|
            0 <= i < nodes.len() ==> (#[trigger] nodes[i]).link_count <= insights::max_degree(nodes),
        insights::max_degree(nodes) > 1 ==> exists|i: int|
            0 <= i < nodes.len() && (#[trigger] nodes[i]).link_count == insights::max_degree(nodes),
    decreases nodes.len(),
{
    if nodes.len() > 0 {
        let rest = nodes.drop_last();
        lemma_most_links(rest);
        let most = insights::max_degree(nodes);
        assert forall|i: int| 0 <= i < nodes.len() implies (#[trigger] nodes[i]).link_count
            <= most by {
            if i < rest.len() {
                assert(rest[i] == nodes[i]);
            }
        }
        if most > 1 {
            if most == insights::max_degree(rest) {
                let i = choose|i: int|
                    0 <= i < rest.len() && (#[trigger] rest[i]).link_count == most;
                assert(nodes[i].link_count == most);
            } else {
                assert(nodes[nodes.len() - 1].link_count == most);
            }
        }
    }
}

/// The connections that surprise are those along the edges, and no edge is passed over.
pub proof fn lemma_surprises(
    nodes: Seq<Node>,
    edges: Seq<(int, int)>,
    weak: Seq<bool>,
    found: Surprise,
)
    ensures
        insights::surprises(nodes, edges, weak, edges.len() as int).contains(found) <==> exists|e: int|
            #[trigger] surprises_at(nodes, edges, weak, e, found),
{
    lemma_surprises_before(nodes, edges, weak, edges.len() as int, found);
}

/// Whether a connection is the one along edge `e`.
pub open spec fn surprises_at(
    nodes: Seq<Node>,
    edges: Seq<(int, int)>,
    weak: Seq<bool>,
    e: int,
    found: Surprise,
) -> bool {
    0 <= e < edges.len() && insights::surprise(
        nodes[edges[e].0],
        nodes[edges[e].1],
        weak[e],
        insights::max_degree(nodes),
    ) == Some(found)
}

proof fn lemma_surprises_before(
    nodes: Seq<Node>,
    edges: Seq<(int, int)>,
    weak: Seq<bool>,
    k: int,
    found: Surprise,
)
    requires
        0 <= k <= edges.len(),
    ensures
        insights::surprises(nodes, edges, weak, k).contains(found) <==> exists|e: int|
            e < k && #[trigger] surprises_at(nodes, edges, weak, e, found),
    decreases k,
{
    if k > 0 {
        lemma_surprises_before(nodes, edges, weak, k - 1, found);
        let before = insights::surprises(nodes, edges, weak, k - 1);
        let all = insights::surprises(nodes, edges, weak, k);
        if before.contains(found) {
            let x = choose|x: int| 0 <= x < before.len() && before[x] == found;
            assert(all[x] == found);
            let e = choose|e: int| e < k - 1 && #[trigger] surprises_at(nodes, edges, weak, e, found);
            assert(surprises_at(nodes, edges, weak, e, found));
        }
        if all.contains(found) && !before.contains(found) {
            let x = choose|x: int| 0 <= x < all.len() && all[x] == found;
            if x < before.len() {
                assert(before[x] == found);
            }
            assert(surprises_at(nodes, edges, weak, k - 1, found));
        }
        if exists|e: int| e < k && #[trigger] surprises_at(nodes, edges, weak, e, found) {
            let e = choose|e: int| e < k && #[trigger] surprises_at(nodes, edges, weak, e, found);
            if e == k - 1 {
                assert(all[before.len() as int] == found);
            }
        }
    }
}

/// Of the connections that surprise those with the highest score are shown first, and those with
/// the same score in the order of their keys.
pub proof fn lemma_most_surprising_first(all: Seq<Surprise>, limit: nat)
    ensures
        ({
            let shown = insights::first(order::sorted_list(all), limit);
            &&& shown.len() == if all.len() <= limit {
                all.len()
            } else {
                limit
            }
            &&& forall|i: int| 0 <= i < shown.len() ==> all.contains(#[trigger] shown[i])
            &&& forall|i: int, j: int|
                0 <= i < j < shown.len() ==> (#[trigger] shown[i]).score > (
                #[trigger] shown[j]).score || (shown[i].score == shown[j].score && text::text_le(
                    shown[i].key,
                    shown[j].key,
                ))
        }),
{
    let sorted = order::sorted_list(all);
    let shown = insights::first(sorted, limit);
    order::lemma_sorted_list(all);
    order::lemma_sorted_list_contains(all);
    assert forall|i: int| 0 <= i < shown.len() implies all.contains(#[trigger] shown[i]) by {
        assert(sorted.contains(sorted[i]));
    }
    assert forall|i: int, j: int| 0 <= i < j < shown.len() implies (#[trigger] shown[i]).score > (
    #[trigger] shown[j]).score || (shown[i].score == shown[j].score && text::text_le(
        shown[i].key,
        shown[j].key,
    )) by {
        assert(order::Ranked::le(sorted[i], sorted[j]));
    }
}

// ---------------------------------------------------------------------------------------
// Communities
// ---------------------------------------------------------------------------------------

/// The pages of a community.
pub open spec fn pages_in(nodes: Seq<Node>, c: int) -> Set<int> {
    Set::new(|i: int| 0 <= i < nodes.len() && nodes[i].community == c)
}

/// The pairs of pages of a community that are joined.
pub open spec fn pairs_in(nodes: Seq<Node>, edges: Seq<(int, int)>, c: int) -> Set<(int, int)> {
    Set::new(
        |p: (int, int)|
            0 <= p.0 < p.1 < nodes.len() && nodes[p.0].community == c && nodes[p.1].community == c
                && links::adjacent(edges, p.0, p.1),
    )
}

/// A community has as many pages as are in it and as many inner edges as pairs of its pages are
/// joined, and the edges that it could have are one for each pair of its pages.
pub proof fn lemma_community(nodes: Seq<Node>, edges: Seq<(int, int)>, c: int)
    ensures
        ({
            let found = insights::community(nodes, edges, c);
            let m = pages_in(nodes, c).len() as int;
            &&& found.node_count == m
            &&& found.intra_edges == pairs_in(nodes, edges, c).len()
            &&& m > 1 ==> 2 * found.possible_edges == m * (m - 1)
            &&& m <= 1 ==> found.possible_edges == 1
        }),
{
    let p = |i: int| nodes[i].community == c;
    let all = insights::members(nodes, c);
    order::lemma_select(nodes.len(), p);
    graph_laws::lemma_select_len(nodes.len(), p);
    assert(pages_in(nodes, c) =~= Set::new(|j: int| 0 <= j < nodes.len() && p(j)));
    let m = all.len() as int;
    lemma_pairs_from(nodes, edges, c, all);
    assert(pairs_from(nodes, edges, c, all) =~= pairs_in(nodes, edges, c));
    if m > 1 {
        assert((m * (m - 1)) % 2 == 0) by (nonlinear_arith)
            requires
                m > 1,
        {
            if m % 2 == 0 {
                let h = m / 2;
                assert(m * (m - 1) == 2 * (h * (m - 1)));
            } else {
                let h = (m - 1) / 2;
                assert(m * (m - 1) == 2 * (m * h));
            }
        }
        assert(m * (m - 1) >= 0) by (nonlinear_arith)
            requires
                m > 1,
        ;
    }
}

/// The joined pairs of pages of a community whose first page is one of a list.
spec fn pairs_from(nodes: Seq<Node>, edges: Seq<(int, int)>, c: int, list: Seq<int>) -> Set<
    (int, int),
> {
    Set::new(
        |p: (int, int)|
            list.contains(p.0) && p.0 < p.1 < nodes.len() && 0 <= p.1 && nodes[p.1].community == c
                && links::adjacent(edges, p.0, p.1),
    )
}

proof fn lemma_pairs_from(nodes: Seq<Node>, edges: Seq<(int, int)>, c: int, list: Seq<int>)
    requires
        list.no_duplicates() || order::rising(list),
    ensures
        insights::intra_edges(nodes, edges, c, list) == pairs_from(nodes, edges, c, list).len(),
        pairs_from(nodes, edges, c, list).finite(),
    decreases list.len(),
{
    let all = pairs_from(nodes, edges, c, list);
    if list.len() == 0 {
        assert(all =~= Set::<(int, int)>::empty());
    } else {
        let rest = list.drop_last();
        let i = list.last();
        assert(!rest.contains(i)) by {
            if rest.contains(i) {
                let k = choose|k: int| 0 <= k < rest.len() && rest[k] == i;
                assert(list[k] == list[list.len() - 1]);
            }
        }
        assert(rest.no_duplicates() || order::rising(rest)) by {
            if order::rising(list) {
                assert forall|a: int, b: int| 0 <= a < b < rest.len() implies #[trigger] rest[a]
                    < #[trigger] rest[b] by {
                    assert(list[a] < list[b]);
                }
            }
        }
        lemma_pairs_from(nodes, edges, c, rest);
        let before = pairs_from(nodes, edges, c, rest);
        let p = |j: int| i < j && nodes[j].community == c && links::adjacent(edges, i, j);
        graph_laws::lemma_select_len(nodes.len(), p);
        let ends = Set::new(|j: int| 0 <= j < nodes.len() && p(j));
        let mine = ends.map(|j: int| (i, j));
        vstd::set_lib::lemma_map_size(ends, mine, |j: int| (i, j));
        assert(before.disjoint(mine));
        assert(all =~= before.union(mine)) by {
            assert forall|x: (int, int)| all.contains(x) <==> before.union(mine).contains(x) by {
                assert(list.contains(x.0) <==> rest.contains(x.0) || x.0 == i) by {
                    if list.contains(x.0) {
                        let k = choose|k: int| 0 <= k < list.len() && list[k] == x.0;
                        if k < rest.len() {
                            assert(rest[k] == x.0);
                        }
                    }
                    if rest.contains(x.0) {
                        let k = choose|k: int| 0 <= k < rest.len() && rest[k] == x.0;
                        assert(list[k] == x.0);
                    }
                    assert(list[list.len() - 1] == i);
                }
                if all.contains(x) && x.0 == i {
                    assert(ends.contains(x.1));
                    assert(mine.contains((i, x.1)));
                }
                if mine.contains(x) {
                    let j = choose|j: int| ends.contains(j) && (i, j) == x;
                    assert(ends.contains(j));
                }
            }
        }
        vstd::set_lib::lemma_set_disjoint_lens(before, mine);
    }
}

/// The pages that a community is known by are up to five of its pages, those with the most links
/// first, and those with as many in the order of their ids.
pub proof fn lemma_top_pages(nodes: Seq<Node>, edges: Seq<(int, int)>, c: int)
    ensures
        ({
            let ranked = insights::ranked_members(nodes, c);
            let found = insights::community(nodes, edges, c);
            &&& ranked.len() == pages_in(nodes, c).len()
            &&& forall|k: int|
                0 <= k < ranked.len() ==> pages_in(nodes, c).contains(
                    (#[trigger] ranked[k]).page,
                ) && ranked[k].link_count == nodes[ranked[k].page].link_count && ranked[k].id
                    == nodes[ranked[k].page].id
            &&& forall|i: int, j: int|
                0 <= i < j < ranked.len() ==> (#[trigger] ranked[i]).link_count > (
                #[trigger] ranked[j]).link_count || (ranked[i].link_count == ranked[j].link_count
                    && text::text_le(ranked[i].id, ranked[j].id))
            &&& found.top_nodes.len() == if ranked.len() <= 5 {
                ranked.len()
            } else {
                5
            }
            &&& forall|k: int|
                0 <= k < found.top_nodes.len() ==> #[trigger] found.top_nodes[k]
                    == nodes[ranked[k].page].label
        }),
{
    let p = |i: int| nodes[i].community == c;
    let of = |i: int| Member { page: i, id: nodes[i].id, link_count: nodes[i].link_count };
    let all = insights::members(nodes, c);
    let list = all.map_values(of);
    let ranked = insights::ranked_members(nodes, c);
    order::lemma_select(nodes.len(), p);
    graph_laws::lemma_select_len(nodes.len(), p);
    assert(pages_in(nodes, c) =~= Set::new(|j: int| 0 <= j < nodes.len() && p(j)));
    assert(ranked == order::sorted_list(list));
    lemma_ranked(list);
    assert forall|k: int| 0 <= k < ranked.len() implies pages_in(nodes, c).contains(
        (#[trigger] ranked[k]).page,
    ) && ranked[k].link_count == nodes[ranked[k].page].link_count && ranked[k].id
        == nodes[ranked[k].page].id by {
        assert(list.contains(ranked[k]));
        let x = choose|x: int| 0 <= x < list.len() && list[x] == ranked[k];
        assert(list[x] == of(all[x]));
        assert(all.contains(all[x]));
    }
}

proof fn lemma_ranked(list: Seq<Member>)
    ensures
        ({
            let ranked = order::sorted_list(list);
            &&& ranked.len() == list.len()
            &&& forall|k: int| 0 <= k < ranked.len() ==> list.contains(#[trigger] ranked[k])
            &&& forall|k: int| 0 <= k < list.len() ==> ranked.contains(#[trigger] list[k])
            &&& forall|i: int, j: int|
                0 <= i < j < ranked.len() ==> (#[trigger] ranked[i]).link_count > (
                #[trigger] ranked[j]).link_count || (ranked[i].link_count == ranked[j].link_count
                    && text::text_le(ranked[i].id, ranked[j].id))
        }),
{
    let ranked = order::sorted_list(list);
    order::lemma_sorted_list(list);
    order::lemma_sorted_list_contains(list);
    assert forall|k: int| 0 <= k < ranked.len() implies list.contains(#[trigger] ranked[k]) by {
        assert(ranked.contains(ranked[k]));
    }
    assert forall|k: int| 0 <= k < list.len() implies ranked.contains(#[trigger] list[k]) by {
        assert(list.contains(list[k]));
    }
    assert forall|i: int, j: int| 0 <= i < j < ranked.len() implies (#[trigger] ranked[i]).link_count
        > (#[trigger] ranked[j]).link_count || (ranked[i].link_count == ranked[j].link_count
        && text::text_le(ranked[i].id, ranked[j].id)) by {
        assert(order::Ranked::le(ranked[i], ranked[j]));
    }
}

/// Every community that has a page is reported, once and in ascending order of the numbers.
pub proof fn lemma_communities(nodes: Seq<Node>, edges: Seq<(int, int)>, i: int)
    requires
        forall|k: int| 0 <= k < nodes.len() ==> (#[trigger] nodes[k]).community < nodes.len(),
        0 <= i < nodes.len(),
    ensures
        ({
            let all = insights::communities(nodes, edges);
            &&& exists|k: int|
                0 <= k < all.len() && (#[trigger] all[k]).id == nodes[i].community && all[k]
                    == insights::community(nodes, edges, nodes[i].community as int)
            &&& forall|a: int, b: int|
                0 <= a < b < all.len() ==> (#[trigger] all[a]).id < (#[trigger] all[b]).id
            &&& forall|k: int| 0 <= k < all.len() ==> (#[trigger] all[k]).node_count > 0
        }),
{
    let p = |c: int| insights::has_community(nodes, c);
    let numbers = order::select(nodes.len(), p);
    let all = insights::communities(nodes, edges);
    order::lemma_select(nodes.len(), p);
    let c = nodes[i].community as int;
    assert(p(c));
    assert(numbers.contains(c));
    let x = choose|x: int| 0 <= x < numbers.len() && numbers[x] == c;
    assert(all[x] == insights::community(nodes, edges, c));
    assert forall|a: int, b: int| 0 <= a < b < all.len() implies (#[trigger] all[a]).id < (
    #[trigger] all[b]).id by {
        assert(numbers[a] < numbers[b]);
        assert(all[a] == insights::community(nodes, edges, numbers[a]));
        assert(all[b] == insights::community(nodes, edges, numbers[b]));
    }
    assert forall|k: int| 0 <= k < all.len() implies (#[trigger] all[k]).node_count > 0 by {
        let d = numbers[k];
        assert(p(d));
        let j = choose|j: int| 0 <= j < nodes.len() && (#[trigger] nodes[j]).community == d;
        assert(all[k] == insights::community(nodes, edges, d));
        order::lemma_select(nodes.len(), |q: int| nodes[q].community == d);
        assert(insights::members(nodes, d).contains(j));
    }
}

// ---------------------------------------------------------------------------------------
// Gaps
// ---------------------------------------------------------------------------------------

/// A page is isolated where it is an end of one link at most, unless it is the index, the log or an
/// overview.
pub proof fn lemma_isolated(node: Node)
    ensures
        node.link_count >= 2 ==> !insights::is_isolated(node),
        node.id == "index"@ || node.id == "log"@ || node.kind == "overview"@
            ==> !insights::is_isolated(node),
        node.link_count <= 1 && node.id != "index"@ && node.id != "log"@ && node.kind
            != "overview"@ ==> insights::is_isolated(node),
{
}

/// Isolated pages are reported first, all of them in one gap, and exactly where there are any.
pub proof fn lemma_isolated_pages_are_reported(
    nodes: Seq<Node>,
    edges: Seq<(int, int)>,
    communities: Seq<Community>,
    cohesions: Seq<Seq<char>>,
    i: int,
)
    requires
        0 <= i < nodes.len(),
        insights::is_isolated(nodes[i]),
    ensures
        ({
            let all = insights::gaps(nodes, edges, communities, cohesions);
            &&& all.len() > 0
            &&& all[0].kind == "isolated-node"@
            &&& all[0].node_ids.contains(nodes[i].id)
            &&& forall|k: int|
                0 <= k < all[0].node_ids.len() ==> exists|j: int|
                    0 <= j < nodes.len() && insights::is_isolated(#[trigger] nodes[j])
                        && nodes[j].id == #[trigger] all[0].node_ids[k]
        }),
{
    let p = |k: int| insights::is_isolated(nodes[k]);
    let list = insights::isolated_pages(nodes);
    order::lemma_select(nodes.len(), p);
    assert(p(i));
    assert(list.contains(i));
    let x = choose|x: int| 0 <= x < list.len() && list[x] == i;
    let all = insights::gaps(nodes, edges, communities, cohesions);
    let ids = insights::ids_of(nodes, list);
    assert(all[0] == insights::isolated_gap(nodes));
    assert(ids[x] == nodes[i].id);
    assert forall|k: int| 0 <= k < all[0].node_ids.len() implies exists|j: int|
        0 <= j < nodes.len() && insights::is_isolated(#[trigger] nodes[j]) && nodes[j].id
            == #[trigger] all[0].node_ids[k] by {
        let j = list[k];
        assert(insights::is_isolated(nodes[j]) && nodes[j].id == ids[k]);
    }
}

/// A community is sparse where it has three pages or more and less than fifteen of a hundred of its
/// possible edges.
pub proof fn lemma_sparse(c: Community)
    ensures
        insights::is_sparse(c) <==> c.node_count >= 3 && 100 * c.intra_edges < 15
            * c.possible_edges,
{
}

/// Whether a gap is what a sparse community of a list is.
pub open spec fn is_gap_of(
    nodes: Seq<Node>,
    communities: Seq<Community>,
    cohesions: Seq<Seq<char>>,
    c: int,
    gap: Gap,
) -> bool {
    &&& 0 <= c < communities.len()
    &&& insights::is_sparse(communities[c])
    &&& gap == insights::sparse_gap(nodes, communities[c], cohesions[c])
}

/// Whether a gap is what one of the first `k` communities of a list is, which is sparse.
pub open spec fn is_sparse_gap(
    nodes: Seq<Node>,
    communities: Seq<Community>,
    cohesions: Seq<Seq<char>>,
    k: int,
    gap: Gap,
) -> bool {
    exists|c: int| c < k && is_gap_of(nodes, communities, cohesions, c, gap)
}

/// Every sparse community is a gap, with all its pages, and no other community is.
pub proof fn lemma_sparse_communities_are_reported(
    nodes: Seq<Node>,
    communities: Seq<Community>,
    cohesions: Seq<Seq<char>>,
    c: int,
)
    requires
        0 <= c < communities.len(),
        cohesions.len() == communities.len(),
    ensures
        ({
            let all = insights::sparse_gaps(
                nodes,
                communities,
                cohesions,
                communities.len() as int,
            );
            &&& insights::is_sparse(communities[c]) ==> all.contains(
                insights::sparse_gap(nodes, communities[c], cohesions[c]),
            )
            &&& forall|k: int|
                0 <= k < all.len() ==> is_sparse_gap(
                    nodes,
                    communities,
                    cohesions,
                    communities.len() as int,
                    #[trigger] all[k],
                )
            &&& forall|i: int|
                0 <= i < nodes.len() && nodes[i].community == communities[c].id
                    ==> insights::sparse_gap(
                    nodes,
                    communities[c],
                    cohesions[c],
                ).node_ids.contains((#[trigger] nodes[i]).id)
        }),
{
    lemma_sparse_before(nodes, communities, cohesions, communities.len() as int, c);
    let d = communities[c].id as int;
    order::lemma_select(nodes.len(), |i: int| nodes[i].community == d);
    let list = insights::members(nodes, d);
    let ids = insights::ids_of(nodes, list);
    assert(insights::sparse_gap(nodes, communities[c], cohesions[c]).node_ids == ids);
    assert forall|i: int| 0 <= i < nodes.len() && nodes[i].community == communities[c].id implies
        ids.contains((#[trigger] nodes[i]).id) by {
        assert(list.contains(i));
        let x = choose|x: int| 0 <= x < list.len() && list[x] == i;
        assert(ids[x] == nodes[i].id);
    }
}

proof fn lemma_sparse_before(
    nodes: Seq<Node>,
    communities: Seq<Community>,
    cohesions: Seq<Seq<char>>,
    k: int,
    c: int,
)
    requires
        0 <= k <= communities.len(),
    ensures
        ({
            let all = insights::sparse_gaps(nodes, communities, cohesions, k);
            &&& 0 <= c < k && insights::is_sparse(communities[c]) ==> all.contains(
                insights::sparse_gap(nodes, communities[c], cohesions[c]),
            )
            &&& forall|x: int|
                0 <= x < all.len() ==> is_sparse_gap(
                    nodes,
                    communities,
                    cohesions,
                    k,
                    #[trigger] all[x],
                )
        }),
    decreases k,
{
    if k > 0 {
        lemma_sparse_before(nodes, communities, cohesions, k - 1, c);
        let before = insights::sparse_gaps(nodes, communities, cohesions, k - 1);
        let all = insights::sparse_gaps(nodes, communities, cohesions, k);
        if 0 <= c < k && insights::is_sparse(communities[c]) {
            let gap = insights::sparse_gap(nodes, communities[c], cohesions[c]);
            if c < k - 1 {
                let x = choose|x: int| 0 <= x < before.len() && before[x] == gap;
                assert(all[x] == gap);
            } else {
                assert(all[before.len() as int] == gap);
            }
        }
        assert forall|x: int| 0 <= x < all.len() implies is_sparse_gap(
            nodes,
            communities,
            cohesions,
            k,
            #[trigger] all[x],
        ) by {
            let gap = all[x];
            if x < before.len() {
                assert(is_sparse_gap(nodes, communities, cohesions, k - 1, before[x]));
                let y = choose|y: int|
                    y < k - 1 && is_gap_of(nodes, communities, cohesions, y, gap);
                assert(is_gap_of(nodes, communities, cohesions, y, gap));
            } else {
                assert(is_gap_of(nodes, communities, cohesions, k - 1, gap));
            }
        }
    }
}

/// The communities that a page is joined to.
pub open spec fn communities_beside(nodes: Seq<Node>, edges: Seq<(int, int)>, i: int) -> Set<int> {
    Set::new(
        |c: int|
            exists|j: int|
                0 <= j < nodes.len() && (edges.contains((i, j)) || edges.contains((j, i))) && (
                #[trigger] nodes[j]).community == c,
    )
}

/// A page is a bridge exactly where it is joined to three communities or more and does not belong
/// to the structure of the wiki. The bridges between the most communities come first, and those
/// between as many in the order of their ids.
pub proof fn lemma_bridges(nodes: Seq<Node>, edges: Seq<(int, int)>, i: int)
    requires
        forall|k: int| 0 <= k < nodes.len() ==> (#[trigger] nodes[k]).community < nodes.len(),
        0 <= i < nodes.len(),
    ensures
        ({
            let all = insights::bridges(nodes, edges);
            let count = communities_beside(nodes, edges, i).len();
            &&& (exists|k: int| 0 <= k < all.len() && (#[trigger] all[k]).page == i) <==> count >= 3
                && nodes[i].id != "index"@ && nodes[i].id != "log"@ && nodes[i].id != "overview"@
            &&& forall|k: int|
                0 <= k < all.len() && (#[trigger] all[k]).page == i ==> all[k].link_count == count
            &&& forall|a: int, b: int|
                0 <= a < b < all.len() ==> (#[trigger] all[a]).link_count > (
                #[trigger] all[b]).link_count || (all[a].link_count == all[b].link_count
                    && text::text_le(all[a].id, all[b].id))
        }),
{
    let q = |c: int| insights::touches(nodes, edges, i, c);
    graph_laws::lemma_select_len(nodes.len(), q);
    assert(communities_beside(nodes, edges, i) =~= Set::new(
        |c: int| 0 <= c < nodes.len() && q(c),
    )) by {
        assert forall|c: int|
            communities_beside(nodes, edges, i).contains(c) <==> 0 <= c < nodes.len() && q(c) by {
            if communities_beside(nodes, edges, i).contains(c) {
                let j = choose|j: int|
                    0 <= j < nodes.len() && (edges.contains((i, j)) || edges.contains((j, i))) && (
                    #[trigger] nodes[j]).community == c;
                assert(links::adjacent(edges, i, j) && nodes[j].community == c);
            }
            if q(c) {
                let j = choose|j: int|
                    0 <= j < nodes.len() && links::adjacent(edges, i, j) && (
                    #[trigger] nodes[j]).community == c;
                assert(nodes[j].community == c);
            }
        }
    }
    let p = |k: int|
        !insights::is_structural(nodes[k].id) && insights::touched(nodes, edges, k) >= 3;
    let of = |k: int|
        Member { page: k, id: nodes[k].id, link_count: insights::touched(nodes, edges, k) };
    let picked = order::select(nodes.len(), p);
    let list = picked.map_values(of);
    let all = insights::bridges(nodes, edges);
    assert(all == order::sorted_list(list));
    order::lemma_select(nodes.len(), p);
    lemma_ranked(list);
    assert forall|k: int| 0 <= k < all.len() implies (#[trigger] all[k]) == of(all[k].page)
        && picked.contains(all[k].page) by {
        assert(list.contains(all[k]));
        let x = choose|x: int| 0 <= x < list.len() && list[x] == all[k];
        assert(list[x] == of(picked[x]));
        assert(picked.contains(picked[x]));
    }
    if p(i) {
        assert(picked.contains(i));
        let x = choose|x: int| 0 <= x < picked.len() && picked[x] == i;
        assert(list[x] == of(i));
        assert(all.contains(list[x]));
        let k = choose|k: int| 0 <= k < all.len() && all[k] == list[x];
        assert(all[k].page == i);
    }
}

/// The gaps are the isolated pages, the sparse communities and three bridges at most, in this
/// order.
pub proof fn lemma_gaps(
    nodes: Seq<Node>,
    edges: Seq<(int, int)>,
    communities: Seq<Community>,
    cohesions: Seq<Seq<char>>,
)
    ensures
        ({
            let all = insights::gaps(nodes, edges, communities, cohesions);
            let isolated = exists|i: int| 0 <= i < nodes.len() && insights::is_isolated(#[trigger] nodes[i]);
            let start: int = if isolated {
                1
            } else {
                0
            };
            let sparse = insights::sparse_gaps(
                nodes,
                communities,
                cohesions,
                communities.len() as int,
            );
            let bridges = insights::bridges(nodes, edges);
            let shown: int = if bridges.len() <= 3 {
                bridges.len() as int
            } else {
                3
            };
            &&& all.len() == start + sparse.len() + shown
            &&& forall|k: int|
                0 <= k < sparse.len() ==> #[trigger] all[start + k] == sparse[k]
            &&& forall|k: int|
                0 <= k < shown ==> {
                    let gap = #[trigger] all[start + sparse.len() + k];
                    &&& gap.kind == "bridge-node"@
                    &&& gap.node_ids == seq![nodes[bridges[k].page].id]
                    &&& gap.title == "Key bridge: "@ + nodes[bridges[k].page].label
                    &&& gap.description == "Connects "@ + text::decimal(bridges[k].link_count)
                        + " different knowledge clusters. This is a critical junction in your wiki."@
                }
        }),
{
    let p = |k: int| insights::is_isolated(nodes[k]);
    let list = insights::isolated_pages(nodes);
    order::lemma_select(nodes.len(), p);
    if list.len() > 0 {
        assert(insights::is_isolated(nodes[list[0]]));
    }
    if exists|i: int| 0 <= i < nodes.len() && insights::is_isolated(#[trigger] nodes[i]) {
        let i = choose|i: int| 0 <= i < nodes.len() && insights::is_isolated(#[trigger] nodes[i]);
        assert(p(i));
        assert(list.contains(i));
    }
}

/// What is said of isolated pages: how many there are, and the labels of up to five of them.
pub proof fn lemma_isolated_gap(nodes: Seq<Node>)
    ensures
        ({
            let gap = insights::isolated_gap(nodes);
            let list = insights::isolated_pages(nodes);
            let n = list.len();
            &&& gap.kind == "isolated-node"@
            &&& n == 1 ==> gap.title == text::decimal(1) + " isolated page"@
            &&& n > 1 ==> gap.title == text::decimal(n) + " isolated pages"@
            &&& n <= 5 ==> gap.description == text::joined(insights::labels_of(nodes, list), ", "@)
            &&& n > 5 ==> gap.description == text::joined(
                insights::labels_of(nodes, list.take(5)),
                ", "@,
            ) + " and "@ + text::decimal((n - 5) as nat) + " more"@
            &&& gap.node_ids.len() == n
        }),
{
}

/// What is said of a sparse community: the page that it is known by, how many pages it has, and its
/// cohesion.
pub proof fn lemma_sparse_gap(nodes: Seq<Node>, c: Community, cohesion: Seq<char>)
    ensures
        ({
            let gap = insights::sparse_gap(nodes, c, cohesion);
            &&& gap.kind == "sparse-community"@
            &&& c.top_nodes.len() > 0 ==> gap.title == "Sparse cluster: "@ + c.top_nodes[0]
            &&& c.top_nodes.len() == 0 ==> gap.title == "Sparse cluster: "@ + ("Community "@
                + text::decimal(c.id))
            &&& gap.description == text::decimal(c.node_count) + " pages with cohesion "@ + cohesion
                + " — internal connections are weak."@
        }),
{
}

// ---------------------------------------------------------------------------------------
// Neighbours
// ---------------------------------------------------------------------------------------

/// Where the pages have different paths, the pages beside those found are exactly the pages that
/// are joined to one of them and are none of them.
pub proof fn lemma_pages_beside(
    list: Seq<Seq<char>>,
    edges: Seq<(int, int)>,
    seeds: Set<Seq<char>>,
    j: int,
)
    requires
        list.no_duplicates(),
        links::join_pages(edges, list.len()),
        0 <= j < list.len(),
    ensures
        insights::is_beside(list, edges, seeds, edges.len() as int, list[j]) <==> !seeds.contains(
            list[j],
        ) && exists|i: int|
            0 <= i < list.len() && seeds.contains(#[trigger] list[i]) && links::adjacent(
                edges,
                i,
                j,
            ),
{
    assert forall|i: int| 0 <= i < list.len() implies insights::is_seed(list, seeds, i)
        == seeds.contains(#[trigger] list[i]) by {
        assert forall|k: int| i < k < list.len() implies #[trigger] list[k] != list[i] by {}
    }
    if insights::is_beside(list, edges, seeds, edges.len() as int, list[j]) {
        let e = choose|e: int|
            {
                let (a, b) = #[trigger] edges[e];
                &&& 0 <= e < edges.len()
                &&& ({
                    ||| insights::is_seed(list, seeds, a) && !insights::is_seed(list, seeds, b)
                        && list[b] == list[j]
                    ||| insights::is_seed(list, seeds, b) && !insights::is_seed(list, seeds, a)
                        && list[a] == list[j]
                })
            };
        let (a, b) = edges[e];
        assert(edges.contains((a, b)));
        if insights::is_seed(list, seeds, a) && list[b] == list[j] {
            assert(b == j);
            assert(seeds.contains(list[a]) && links::adjacent(edges, a, j));
        } else {
            assert(a == j);
            assert(seeds.contains(list[b]) && links::adjacent(edges, b, j));
        }
    }
    if !seeds.contains(list[j]) && exists|i: int|
        0 <= i < list.len() && seeds.contains(#[trigger] list[i]) && links::adjacent(edges, i, j) {
        let i = choose|i: int|
            0 <= i < list.len() && seeds.contains(#[trigger] list[i]) && links::adjacent(
                edges,
                i,
                j,
            );
        let e = if edges.contains((i, j)) {
            edges.index_of((i, j))
        } else {
            edges.index_of((j, i))
        };
        assert(edges[e] == (i, j) || edges[e] == (j, i));
        assert(insights::is_seed(list, seeds, i) && !insights::is_seed(list, seeds, j));
    }
}

/// A report shows the pages of the graph, each with its community, and the five most surprising
/// connections, or all of them where there are no more.
pub proof fn lemma_report(
    report: insights::GraphReport,
    graph: graph::WikiGraph,
    labels: Seq<usize>,
    weak: Seq<bool>,
    i: int,
)
    requires
        report.is_of(graph, labels, weak),
        0 <= i < graph.nodes@.len(),
    ensures
        ({
            let nodes = insights::nodes_of(graph, labels);
            let edges = links::pairs(graph.edges@);
            let all = insights::surprises(nodes, edges, weak, edges.len() as int);
            &&& report.nodes@.len() == graph.nodes@.len()
            &&& report.nodes@[i].id@ == graph.nodes@[i].id@
            &&& report.nodes@[i].label@ == graph.nodes@[i].label@
            &&& report.nodes@[i].kind@ == graph.nodes@[i].kind@
            &&& report.nodes@[i].path@ == graph.nodes@[i].path@
            &&& report.surprising_connections@.len() == if all.len() <= 5 {
                all.len()
            } else {
                5
            }
        }),
{
    let nodes = insights::nodes_of(graph, labels);
    let edges = links::pairs(graph.edges@);
    let all = insights::surprises(nodes, edges, weak, edges.len() as int);
    order::lemma_sorted_list(all);
    assert(graph::node_list(report.nodes@)[i] == nodes[i]);
    assert(graph::node_list(report.nodes@)[i] == report.nodes@[i]@);
    assert(graph::linked_pages(graph.nodes@)[i] == graph.nodes@[i]@);
    assert(graph::node_list(report.nodes@).len() == report.nodes@.len());
    assert(order::models(report.surprising_connections@).len()
        == report.surprising_connections@.len());
}

/// At most five surprising connections and eight gaps of a graph are shown.
pub proof fn lemma_shown()
    ensures
        insights::SURPRISES_SHOWN == 5,
        insights::GAPS_SHOWN == 8,
{
}

} // verus!
