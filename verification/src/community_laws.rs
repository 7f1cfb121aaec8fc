//! What holds of label propagation, however the graph looks and however the votes go.

use crate::communities;
use crate::communities::{Progress, MAX_COMMUNITY_PASSES};
use crate::links;
use crate::order;
use vstd::prelude::*;

verus! {

/// Whether page `i` has a neighbour: an edge has it as one of its ends.
pub open spec fn has_neighbour(edges: Seq<(int, int)>, i: int) -> bool {
    exists|e: int| 0 <= e < edges.len() && joins(edges, e, i)
}

/// Whether page `i` is an end of edge `e`.
pub open spec fn joins(edges: Seq<(int, int)>, e: int, i: int) -> bool {
    edges[e].0 == i || edges[e].1 == i
}

/// The neighbours of a page are the pages at the other ends of its edges, each known with the edge
/// that leads to it. A page has neighbours exactly where it is an end of an edge.
pub proof fn lemma_incident(edges: Seq<(int, int)>, i: int, j: int, e: int)
    ensures
        communities::incident(edges, i).contains((j, e)) <==> 0 <= e < edges.len() && (edges[e] == (
            i,
            j,
        ) || edges[e] == (j, i)),
        communities::incident(edges, i).len() > 0 <==> has_neighbour(edges, i),
{
    lemma_adjacency(edges, i, edges.len() as int);
    let all = communities::incident(edges, i);
    assert(all.contains((j, e)) <==> is_beside(edges, edges.len() as int, i, j, e));
    if all.len() > 0 {
        let (page, edge) = all[0];
        assert(all.contains((page, edge)));
        assert(is_beside(edges, edges.len() as int, i, page, edge));
        assert(joins(edges, edge, i));
    }
    if has_neighbour(edges, i) {
        let edge = choose|edge: int| 0 <= edge < edges.len() && joins(edges, edge, i);
        let page = if edges[edge].0 == i {
            edges[edge].1
        } else {
            edges[edge].0
        };
        assert(is_beside(edges, edges.len() as int, i, page, edge));
        assert(all.contains((page, edge)));
    }
}

spec fn is_beside(edges: Seq<(int, int)>, m: int, i: int, j: int, e: int) -> bool {
    0 <= e < m && (edges[e] == (i, j) || edges[e] == (j, i))
}

proof fn lemma_adjacency(edges: Seq<(int, int)>, i: int, m: int)
    requires
        0 <= m <= edges.len(),
    ensures
        forall|j: int, e: int| #[trigger]
            communities::adjacency(edges, i, m).contains((j, e)) <==> is_beside(edges, m, i, j, e),
    decreases m,
{
    if m > 0 {
        lemma_adjacency(edges, i, m - 1);
        let before = communities::adjacency(edges, i, m - 1);
        let (source, target) = edges[m - 1];
        let middle = if source == i {
            before.push((target, m - 1))
        } else {
            before
        };
        let all = communities::adjacency(edges, i, m);
        assert forall|j: int, e: int| #[trigger] all.contains((j, e)) <==> is_beside(
            edges,
            m,
            i,
            j,
            e,
        ) by {
            lemma_push_contains(before, (target, m - 1), (j, e));
            lemma_push_contains(middle, (source, m - 1), (j, e));
            assert(before.contains((j, e)) <==> is_beside(edges, m - 1, i, j, e));
        }
    }
}

proof fn lemma_push_contains(s: Seq<(int, int)>, x: (int, int), y: (int, int))
    ensures
        s.push(x).contains(y) <==> s.contains(y) || x == y,
{
    if s.contains(y) {
        let k = choose|k: int| 0 <= k < s.len() && s[k] == y;
        assert(s.push(x)[k] == y);
    }
    if s.push(x).contains(y) {
        let k = choose|k: int| 0 <= k < s.push(x).len() && s.push(x)[k] == y;
        if k < s.len() {
            assert(s[k] == y);
        }
    }
    assert(s.push(x)[s.len() as int] == x);
}

/// Whether page `i` is the first one from `from` on that has neighbours.
pub open spec fn is_next(edges: Seq<(int, int)>, from: int, i: int) -> bool {
    from <= i && has_neighbour(edges, i) && forall|j: int|
        from <= j < i ==> !#[trigger] has_neighbour(edges, j)
}

/// Every page starts with a label of its own, and the first page with neighbours takes a label
/// first. Where no page has neighbours nothing is left to do.
pub proof fn lemma_start(edges: Seq<(int, int)>, n: nat)
    ensures
        ({
            let p = communities::start(edges, n);
            &&& p.labels.len() == n
            &&& forall|i: int| 0 <= i < n ==> #[trigger] p.labels[i] == i
            &&& (exists|i: int| 0 <= i < n && has_neighbour(edges, i)) ==> p.passes == 0
                && !p.changed && p.page < n && is_next(edges, 0, p.page)
            &&& (forall|i: int| 0 <= i < n ==> !#[trigger] has_neighbour(edges, i)) ==> p.passes
                >= MAX_COMMUNITY_PASSES
        }),
{
    let p = Progress { labels: Seq::new(n, |i: int| i), page: 0, passes: 0, changed: false };
    communities::lemma_settled_labels(edges, p);
    lemma_goes_on(edges, p);
}

/// Goes on in the same pass where a page with neighbours is left in it.
proof fn lemma_goes_on(edges: Seq<(int, int)>, p: Progress)
    requires
        0 <= p.page <= p.labels.len(),
        0 <= p.passes < MAX_COMMUNITY_PASSES,
    ensures
        (exists|i: int| p.page <= i < p.labels.len() && has_neighbour(edges, i)) ==> ({
            let q = communities::settled(edges, p);
            &&& q.passes == p.passes
            &&& q.changed == p.changed
            &&& q.labels == p.labels
            &&& q.page < p.labels.len()
            &&& is_next(edges, p.page, q.page)
        }),
        (forall|i: int| p.page <= i < p.labels.len() ==> !#[trigger] has_neighbour(edges, i))
            ==> communities::settled(edges, p) == communities::settled(
            edges,
            Progress { page: p.labels.len() as int, ..p },
        ),
    decreases p.labels.len() - p.page,
{
    if p.page < p.labels.len() {
        lemma_incident(edges, p.page, 0, 0);
        let q = Progress { page: p.page + 1, ..p };
        if !has_neighbour(edges, p.page) {
            lemma_goes_on(edges, q);
            if exists|i: int| p.page <= i < p.labels.len() && has_neighbour(edges, i) {
                let i = choose|i: int| p.page <= i < p.labels.len() && has_neighbour(edges, i);
                assert(i != p.page);
                assert(q.page <= i < q.labels.len() && has_neighbour(edges, i));
                let r = communities::settled(edges, p);
                assert(is_next(edges, q.page, r.page));
                assert forall|j: int| p.page <= j < r.page implies !#[trigger] has_neighbour(
                    edges,
                    j,
                ) by {
                    if j > p.page {
                        assert(q.page <= j);
                    }
                }
            } else {
                assert forall|i: int| q.page <= i < q.labels.len() implies !#[trigger] has_neighbour(
                    edges,
                    i,
                ) by {
                    assert(p.page <= i < p.labels.len());
                }
                assert(Progress { page: q.labels.len() as int, ..q } == Progress {
                    page: p.labels.len() as int,
                    ..p
                });
            }
        } else {
            assert(is_next(edges, p.page, p.page));
            assert(p.page <= p.page < p.labels.len() && has_neighbour(edges, p.page));
        }
    } else {
        assert(p == Progress { page: p.labels.len() as int, ..p });
    }
}

/// While a page with neighbours is left in a pass, the next of them takes a label next. The pass
/// remembers whether the label of a page has changed in it.
pub proof fn lemma_pass_goes_on(edges: Seq<(int, int)>, p: Progress, label: int)
    requires
        0 <= p.page < p.labels.len(),
        0 <= p.passes < MAX_COMMUNITY_PASSES,
        exists|i: int| p.page < i < p.labels.len() && has_neighbour(edges, i),
    ensures
        ({
            let q = communities::labelled(edges, p, label);
            &&& q.labels == p.labels.update(p.page, label)
            &&& q.passes == p.passes
            &&& q.changed == (p.changed || p.labels[p.page] != label)
            &&& q.page < p.labels.len()
            &&& is_next(edges, p.page + 1, q.page)
        }),
{
    let q = Progress {
        labels: p.labels.update(p.page, label),
        page: p.page + 1,
        passes: p.passes,
        changed: p.changed || p.labels[p.page] != label,
    };
    let i = choose|i: int| p.page < i < p.labels.len() && has_neighbour(edges, i);
    assert(q.page <= i < q.labels.len() && has_neighbour(edges, i));
    lemma_goes_on(edges, q);
}

/// The labels are final only where they have settled: behind the last page of a pass in which the
/// label of a page has changed, a further pass over all pages with neighbours starts at the first of
/// them, unless it was the twentieth pass, which is the last one. Behind a pass that has changed no
/// label, nothing is left to do.
pub proof fn lemma_passes_go_on_until_labels_settle(
    edges: Seq<(int, int)>,
    p: Progress,
    label: int,
)
    requires
        0 <= p.page < p.labels.len(),
        0 <= p.passes < MAX_COMMUNITY_PASSES,
        has_neighbour(edges, p.page),
        forall|i: int| p.page < i < p.labels.len() ==> !#[trigger] has_neighbour(edges, i),
    ensures
        ({
            let q = communities::labelled(edges, p, label);
            let changed = p.changed || p.labels[p.page] != label;
            &&& q.labels == p.labels.update(p.page, label)
            &&& changed && p.passes + 1 < 20 ==> q.passes == p.passes + 1
                && !q.changed && q.page < p.labels.len() && is_next(edges, 0, q.page)
            &&& changed && p.passes + 1 == 20 ==> q.passes >= MAX_COMMUNITY_PASSES
            &&& !changed ==> q.passes >= MAX_COMMUNITY_PASSES
        }),
{
    let n = p.labels.len() as int;
    let q = Progress {
        labels: p.labels.update(p.page, label),
        page: p.page + 1,
        passes: p.passes,
        changed: p.changed || p.labels[p.page] != label,
    };
    communities::lemma_settled_labels(edges, q);
    assert forall|i: int| q.page <= i < q.labels.len() implies !#[trigger] has_neighbour(
        edges,
        i,
    ) by {
        assert(p.page < i);
    }
    lemma_goes_on(edges, q);
    let end = Progress { page: n, ..q };
    let again = Progress { page: 0, passes: q.passes + 1, changed: false, ..end };
    assert(communities::settled(edges, q) == communities::settled(edges, end));
    reveal_with_fuel(communities::settled, 2);
    assert(end.page >= end.labels.len());
    assert(q.changed ==> communities::settled(edges, end) == communities::settled(edges, again));
    if q.changed && p.passes + 1 < MAX_COMMUNITY_PASSES {
        assert(again.page <= p.page < again.labels.len() && has_neighbour(edges, p.page));
        lemma_goes_on(edges, again);
    }
}

/// The labels that a page may take are those of its neighbours, each once and in ascending order,
/// and the edges that count for a label are those to the neighbours that have it.
pub proof fn lemma_candidates(edges: Seq<(int, int)>, labels: Seq<int>, i: int, label: int, e: int)
    requires
        links::join_pages(edges, labels.len()),
        0 <= i < labels.len(),
        forall|k: int| 0 <= k < labels.len() ==> 0 <= #[trigger] labels[k] < labels.len(),
    ensures
        ({
            let around = communities::incident(edges, i);
            &&& communities::voted(around, labels).contains(label) <==> exists|j: int|
                0 <= j < labels.len() && links::adjacent(edges, i, j) && #[trigger] labels[j]
                    == label
            &&& order::rising(communities::voted(around, labels))
            &&& communities::votes(around, labels, label).contains(e) <==> exists|j: int|
                0 <= j < labels.len() && 0 <= e < edges.len() && (edges[e] == (i, j) || edges[e]
                    == (j, i)) && #[trigger] labels[j] == label
        }),
{
    let around = communities::incident(edges, i);
    let p = |l: int| communities::is_voted(around, labels, l);
    order::lemma_select(labels.len(), p);
    lemma_votes(around, labels, label);
    if communities::voted(around, labels).contains(label) {
        let k = choose|k: int| 0 <= k < around.len() && labels[(#[trigger] around[k]).0] == label;
        let (j, edge) = around[k];
        assert(around.contains((j, edge)));
        lemma_incident(edges, i, j, edge);
        assert(links::adjacent(edges, i, j)) by {
            assert(edges[edge] == (i, j) || edges[edge] == (j, i));
        }
        assert(labels[j] == label && 0 <= edges[edge].0 && 0 <= edges[edge].1);
    }
    if exists|j: int|
        0 <= j < labels.len() && links::adjacent(edges, i, j) && #[trigger] labels[j] == label {
        let j = choose|j: int|
            0 <= j < labels.len() && links::adjacent(edges, i, j) && #[trigger] labels[j] == label;
        let edge = if edges.contains((i, j)) {
            edges.index_of((i, j))
        } else {
            edges.index_of((j, i))
        };
        lemma_incident(edges, i, j, edge);
        let k = choose|k: int| 0 <= k < around.len() && around[k] == (j, edge);
        assert(labels[around[k].0] == label);
        assert(p(label));
    }
    let votes = communities::votes(around, labels, label);
    if votes.contains(e) {
        let k = choose|k: int| 0 <= k < around.len() && is_vote(around, labels, label, e, k);
        let j = around[k].0;
        assert(around.contains((j, e)));
        lemma_incident(edges, i, j, e);
        assert(labels[j] == label && 0 <= edges[e].0 && 0 <= edges[e].1);
    }
    if exists|j: int|
        0 <= j < labels.len() && 0 <= e < edges.len() && (edges[e] == (i, j) || edges[e] == (j, i))
            && #[trigger] labels[j] == label {
        let j = choose|j: int|
            0 <= j < labels.len() && 0 <= e < edges.len() && (edges[e] == (i, j) || edges[e] == (
                j,
                i,
            )) && #[trigger] labels[j] == label;
        lemma_incident(edges, i, j, e);
        let k = choose|k: int| 0 <= k < around.len() && around[k] == (j, e);
        assert(is_vote(around, labels, label, e, k));
    }
}

spec fn is_vote(
    around: Seq<(int, int)>,
    labels: Seq<int>,
    label: int,
    e: int,
    k: int,
) -> bool {
    around[k].1 == e && labels[around[k].0] == label
}

proof fn lemma_votes(around: Seq<(int, int)>, labels: Seq<int>, label: int)
    ensures
        forall|e: int| #[trigger]
            communities::votes(around, labels, label).contains(e) <==> exists|k: int|
                0 <= k < around.len() && is_vote(around, labels, label, e, k),
    decreases around.len(),
{
    if around.len() > 0 {
        let rest = around.drop_last();
        lemma_votes(rest, labels, label);
        let before = communities::votes(rest, labels, label);
        let all = communities::votes(around, labels, label);
        let last = around.len() - 1;
        assert forall|e: int| #[trigger] all.contains(e) <==> exists|k: int|
            0 <= k < around.len() && is_vote(around, labels, label, e, k) by {
            assert(before.contains(e) <==> exists|k: int|
                0 <= k < rest.len() && is_vote(rest, labels, label, e, k));
            if before.contains(e) {
                let k = choose|k: int| 0 <= k < rest.len() && is_vote(rest, labels, label, e, k);
                assert(is_vote(around, labels, label, e, k));
                let x = choose|x: int| 0 <= x < before.len() && before[x] == e;
                assert(all[x] == e);
            }
            if exists|k: int| 0 <= k < around.len() && is_vote(around, labels, label, e, k) {
                let k = choose|k: int|
                    0 <= k < around.len() && is_vote(around, labels, label, e, k);
                if k < last {
                    assert(is_vote(rest, labels, label, e, k));
                } else {
                    assert(all[before.len() as int] == e);
                }
            }
            if all.contains(e) && !before.contains(e) {
                let x = choose|x: int| 0 <= x < all.len() && all[x] == e;
                if x < before.len() {
                    assert(before[x] == e);
                }
                assert(is_vote(around, labels, label, e, last));
            }
        }
    }
}

/// A page takes the label that weighs most among its neighbours, and of several that weigh as much
/// the smallest.
pub proof fn lemma_heaviest_label_wins(
    edges: Seq<(int, int)>,
    p: Progress,
    keys: Seq<u64>,
    k: int,
)
    requires
        0 <= p.page < p.labels.len(),
        keys.len() == communities::voted(
            communities::incident(edges, p.page),
            p.labels,
        ).len(),
        0 <= k < keys.len(),
    ensures
        ({
            let candidates = communities::voted(communities::incident(edges, p.page), p.labels);
            let taken = communities::labelled(
                edges,
                p,
                candidates[communities::largest(keys)],
            ).labels[p.page];
            exists|best: int|
                0 <= best < keys.len() && #[trigger] candidates[best] == taken && (keys[k]
                    < keys[best] || (keys[k] == keys[best] && taken <= candidates[k]))
        }),
{
    let around = communities::incident(edges, p.page);
    let candidates = communities::voted(around, p.labels);
    let best = communities::largest(keys);
    communities::lemma_largest(keys);
    order::lemma_select(p.labels.len(), |l: int| communities::is_voted(around, p.labels, l));
    communities::lemma_vote_takes_a_neighbours_label(edges, p, best);
    assert(candidates[best] == candidates[best]);
    if best < k {
        assert(candidates[best] < candidates[k]);
    }
}

/// Larger communities have smaller numbers, and of two communities with as many pages the one whose
/// first page comes first. Pages are in one community exactly where they have the same label.
pub proof fn lemma_larger_communities_come_first(labels: Seq<int>, a: int, b: int, first: int)
    requires
        0 <= a < labels.len(),
        0 <= b < labels.len(),
    ensures
        labels[a] == labels[b] <==> communities::community(labels, a) == communities::community(
            labels,
            b,
        ),
        order::count_of(labels, labels[a]) > order::count_of(labels, labels[b])
            ==> communities::community(labels, a) < communities::community(labels, b),
        order::count_of(labels, labels[a]) == order::count_of(labels, labels[b]) && 0 <= first
            < labels.len() && labels[first] == labels[a] && (forall|k: int|
            0 <= k <= first ==> #[trigger] labels[k] != labels[b]) ==> communities::community(
            labels,
            a,
        ) < communities::community(labels, b),
{
    communities::lemma_community_order(labels, a, b);
    communities::lemma_first_of(labels, a);
    communities::lemma_first_of(labels, b);
    let (fa, fb) = (communities::first_of(labels, a), communities::first_of(labels, b));
    if 0 <= first < labels.len() && labels[first] == labels[a] {
        assert(fa <= first) by {
            if first < fa {
                assert(labels[first] != labels[fa]);
            }
        }
    }
}

/// The community with the most pages has the number zero, and the numbers of the communities are
/// those below their count.
pub proof fn lemma_every_page_has_a_community(labels: Seq<int>, i: int)
    requires
        0 <= i < labels.len(),
    ensures
        communities::community(labels, i) < labels.len(),
        forall|j: int|
            0 <= j < labels.len() && #[trigger] communities::community(labels, j) == 0
                ==> order::count_of(labels, labels[j]) >= order::count_of(labels, labels[i]),
{
    order::lemma_select(labels.len(), |j: int| communities::is_first(labels, j));
    communities::lemma_community_order(labels, i, i);
    assert forall|j: int|
        0 <= j < labels.len() && #[trigger] communities::community(labels, j) == 0 implies
        order::count_of(labels, labels[j]) >= order::count_of(labels, labels[i]) by {
        communities::lemma_community_order(labels, i, j);
        if order::count_of(labels, labels[i]) > order::count_of(labels, labels[j]) {
            lemma_larger_communities_come_first(labels, i, j, 0);
        }
    }
}

} // verus!
