//! Communities of pages, found by label propagation.
//!
//! Every page starts with a label of its own. Page by page, each takes the label that weighs
//! most among its neighbours. The weights are sums of edge weights, which this module does not
//! compute: it says which edges are summed for which label, and is told in return how the sums
//! compare.

use crate::links;
use crate::order;
use vstd::prelude::*;

verus! {

/// The most passes that are made over the pages.
pub const MAX_COMMUNITY_PASSES: usize = 20;

/// The neighbours of page `i` along the first `m` edges, each with the number of the edge.
pub open spec fn adjacency(edges: Seq<(int, int)>, i: int, m: int) -> Seq<(int, int)>
    decreases m,
{
    if m <= 0 {
        Seq::empty()
    } else {
        let before = adjacency(edges, i, m - 1);
        let (source, target) = edges[m - 1];
        let with_target = if source == i {
            before.push((target, m - 1))
        } else {
            before
        };
        if target == i {
            with_target.push((source, m - 1))
        } else {
            with_target
        }
    }
}

/// The neighbours of page `i`, each with the number of the edge to it.
pub open spec fn incident(edges: Seq<(int, int)>, i: int) -> Seq<(int, int)> {
    adjacency(edges, i, edges.len() as int)
}

/// Where label propagation stands.
pub struct Progress {
    /// The label of each page.
    pub labels: Seq<int>,
    /// The page that takes a label next.
    pub page: int,
    /// How many passes over all pages are over.
    pub passes: int,
    /// Whether a label has changed in this pass.
    pub changed: bool,
}

/// Goes on to the next page that has neighbours. At the end of a pass in which a label has
/// changed a new one starts. After a pass without a change, and after the last pass, nothing is
/// left to do.
pub open spec fn settled(edges: Seq<(int, int)>, p: Progress) -> Progress
    decreases MAX_COMMUNITY_PASSES - p.passes, p.labels.len() - p.page,
{
    if p.passes >= MAX_COMMUNITY_PASSES || p.passes < 0 {
        p
    } else if p.page >= p.labels.len() {
        if p.changed {
            settled(edges, Progress { page: 0, passes: p.passes + 1, changed: false, ..p })
        } else {
            Progress { passes: MAX_COMMUNITY_PASSES as int, ..p }
        }
    } else if incident(edges, p.page).len() == 0 {
        settled(edges, Progress { page: p.page + 1, ..p })
    } else {
        p
    }
}

/// Where label propagation among `n` pages starts.
pub open spec fn start(edges: Seq<(int, int)>, n: nat) -> Progress {
    settled(
        edges,
        Progress { labels: Seq::new(n, |i: int| i), page: 0, passes: 0, changed: false },
    )
}

/// Whether the label `label` is that of a neighbour.
pub open spec fn is_voted(around: Seq<(int, int)>, labels: Seq<int>, label: int) -> bool {
    exists|k: int| 0 <= k < around.len() && labels[(#[trigger] around[k]).0] == label
}

/// The labels of the neighbours, in ascending order.
pub open spec fn voted(around: Seq<(int, int)>, labels: Seq<int>) -> Seq<int> {
    order::select(labels.len(), |label: int| is_voted(around, labels, label))
}

/// The edges to the neighbours with the label `label`, in the order of the edges.
pub open spec fn votes(around: Seq<(int, int)>, labels: Seq<int>, label: int) -> Seq<int>
    decreases around.len(),
{
    if around.len() == 0 {
        Seq::empty()
    } else {
        let before = votes(around.drop_last(), labels, label);
        let (page, edge) = around.last();
        if labels[page] == label {
            before.push(edge)
        } else {
            before
        }
    }
}

/// The position of the first of the largest keys.
pub open spec fn largest(keys: Seq<u64>) -> int
    decreases keys.len(),
{
    if keys.len() <= 1 {
        0
    } else {
        let before = largest(keys.drop_last());
        if keys.last() > keys[before] {
            keys.len() - 1
        } else {
            before
        }
    }
}

/// Where label propagation stands after the page that is next has taken the label `label`.
pub open spec fn labelled(edges: Seq<(int, int)>, p: Progress, label: int) -> Progress {
    settled(
        edges,
        Progress {
            labels: p.labels.update(p.page, label),
            page: p.page + 1,
            passes: p.passes,
            changed: p.changed || p.labels[p.page] != label,
        },
    )
}

/// The position of a largest key is one of theirs, and no key is larger.
pub proof fn lemma_largest(keys: Seq<u64>)
    requires
        keys.len() > 0,
    ensures
        0 <= largest(keys) < keys.len(),
        forall|i: int| 0 <= i < keys.len() ==> #[trigger] keys[i] <= keys[largest(keys)],
        forall|i: int| 0 <= i < largest(keys) ==> #[trigger] keys[i] < keys[largest(keys)],
    decreases keys.len(),
{
    if keys.len() > 1 {
        let rest = keys.drop_last();
        lemma_largest(rest);
        assert forall|i: int| 0 <= i < keys.len() implies #[trigger] keys[i] <= keys[largest(
            keys,
        )] by {
            if i < rest.len() {
                assert(rest[i] == keys[i]);
            }
        }
        assert forall|i: int| 0 <= i < largest(keys) implies #[trigger] keys[i] < keys[largest(
            keys,
        )] by {
            assert(rest[i] == keys[i]);
        }
    }
}

/// The position of the first of the largest keys.
pub fn find_largest(keys: &Vec<u64>) -> (r: usize)
    requires
        keys@.len() > 0,
    ensures
        r == largest(keys@),
        r < keys@.len(),
{
    let mut best: usize = 0;
    let mut i: usize = 1;
    while i < keys.len()
        invariant
            1 <= i <= keys@.len(),
            best < i,
            best == largest(keys@.take(i as int)),
        decreases keys@.len() - i,
    {
        assert(keys@.take(i + 1).drop_last() =~= keys@.take(i as int));
        assert(keys@.take(i as int)[best as int] == keys@[best as int]);
        if keys[i] > keys[best] {
            best = i;
        }
        i += 1;
    }
    assert(keys@.take(keys@.len() as int) =~= keys@);
    best
}

/// A label that a page may take, with the edges whose weights count for it.
pub struct Candidate {
    pub label: usize,
    pub edges: Vec<usize>,
}

/// The labels of a list of candidates.
pub open spec fn candidate_labels(v: Seq<Candidate>) -> Seq<int> {
    v.map_values(|c: Candidate| c.label as int)
}

/// Label propagation over the pages of a graph.
pub struct LabelPropagation {
    edges: Vec<(usize, usize)>,
    around: Vec<Vec<(usize, usize)>>,
    labels: Vec<usize>,
    page: usize,
    passes: usize,
    changed: bool,
}

impl LabelPropagation {
    /// The edges of the graph.
    pub closed spec fn edges(&self) -> Seq<(int, int)> {
        links::pairs(self.edges@)
    }

    /// Where the propagation stands.
    pub closed spec fn progress(&self) -> Progress {
        Progress {
            labels: order::ints(self.labels@),
            page: self.page as int,
            passes: self.passes as int,
            changed: self.changed,
        }
    }

    /// Whether nothing is left to do.
    pub open spec fn is_finished(&self) -> bool {
        self.progress().passes >= MAX_COMMUNITY_PASSES
    }

    /// The neighbours of each page are known, every label is the number of a page, and unless
    /// nothing is left to do the next page has neighbours.
    pub closed spec fn wf(&self) -> bool {
        &&& self.prepared()
        &&& self.passes <= MAX_COMMUNITY_PASSES
        &&& !self.is_finished() ==> self.page < self.labels@.len() && incident(
            self.edges(),
            self.page as int,
        ).len() > 0
    }

    /// The neighbours of each page are known, and every label is the number of a page.
    spec fn prepared(&self) -> bool {
        &&& self.around@.len() == self.labels@.len()
        &&& forall|k: int|
            0 <= k < self.edges@.len() ==> (#[trigger] self.edges@[k]).0 < self.labels@.len()
                && self.edges@[k].1 < self.labels@.len()
        &&& forall|i: int|
            0 <= i < self.labels@.len() ==> links::pairs((#[trigger] self.around@[i])@) == incident(
                self.edges(),
                i,
            )
        &&& forall|i: int| 0 <= i < self.labels@.len() ==> #[trigger] self.labels@[i] < self.labels@.len()
    }

    /// Starts label propagation among `n` pages. Every page has its number as its label.
    pub fn new(n: usize, edges: Vec<(usize, usize)>) -> (r: LabelPropagation)
        requires
            forall|k: int|
                0 <= k < edges@.len() ==> (#[trigger] edges@[k]).0 < n && edges@[k].1 < n,
        ensures
            r.wf(),
            r.edges() == links::pairs(edges@),
            r.progress() == start(links::pairs(edges@), n as nat),
    {
        let mut labels: Vec<usize> = Vec::new();
        let mut around: Vec<Vec<(usize, usize)>> = Vec::new();
        let ghost all = links::pairs(edges@);
        let mut i: usize = 0;
        while i < n
            invariant
                i <= n,
                labels@.len() == i,
                around@.len() == i,
                forall|k: int| 0 <= k < i ==> #[trigger] labels@[k] == k,
                forall|k: int|
                    0 <= k < i ==> links::pairs((#[trigger] around@[k])@) =~= adjacency(all, k, 0),
            decreases n - i,
        {
            labels.push(i);
            around.push(Vec::new());
            i += 1;
        }
        let mut m: usize = 0;
        while m < edges.len()
            invariant
                m <= edges@.len(),
                all == links::pairs(edges@),
                around@.len() == n,
                forall|k: int|
                    0 <= k < edges@.len() ==> (#[trigger] edges@[k]).0 < n && edges@[k].1 < n,
                forall|k: int|
                    0 <= k < n ==> links::pairs((#[trigger] around@[k])@) == adjacency(
                        all,
                        k,
                        m as int,
                    ),
            decreases edges@.len() - m,
        {
            let (source, target): (usize, usize) = edges[m];
            assert(all[m as int] == (source as int, target as int));
            let ghost around0 = around@;
            around[source].push((target, m));
            let ghost around1 = around@;
            around[target].push((source, m));
            assert forall|k: int| 0 <= k < n implies links::pairs((#[trigger] around@[k])@)
                == adjacency(all, k, m + 1) by {
                let before = links::pairs(around0[k]@);
                assert(before == adjacency(all, k, m as int));
                let middle = if k == source {
                    before.push((target as int, m as int))
                } else {
                    before
                };
                assert(links::pairs(around1[k]@) =~= middle);
                let after = if k == target {
                    middle.push((source as int, m as int))
                } else {
                    middle
                };
                assert(links::pairs(around@[k]@) =~= after);
            }
            m += 1;
        }
        let mut r = LabelPropagation { edges, around, labels, page: 0, passes: 0, changed: false };
        assert(order::ints(r.labels@) =~= Seq::new(n as nat, |i: int| i));
        r.settle();
        r
    }

    /// Goes on to the next page that has neighbours.
    fn settle(&mut self)
        requires
            old(self).prepared(),
            old(self).passes <= MAX_COMMUNITY_PASSES,
        ensures
            final(self).wf(),
            final(self).edges() == old(self).edges(),
            final(self).progress() == settled(old(self).edges(), old(self).progress()),
    {
        let ghost goal = settled(self.edges(), self.progress());
        let ghost edges = self.edges();
        while self.passes < MAX_COMMUNITY_PASSES
            invariant_except_break
                settled(edges, self.progress()) == goal,
            invariant
                self.prepared(),
                self.passes <= MAX_COMMUNITY_PASSES,
                self.edges() == edges,
            ensures
                self.progress() == goal,
                !self.is_finished() ==> self.page < self.labels@.len() && incident(
                    edges,
                    self.page as int,
                ).len() > 0,
            decreases MAX_COMMUNITY_PASSES - self.passes, self.labels@.len() - self.page,
        {
            if self.page >= self.labels.len() {
                if self.changed {
                    self.page = 0;
                    self.passes = self.passes + 1;
                    self.changed = false;
                } else {
                    self.passes = MAX_COMMUNITY_PASSES;
                    assert(self.progress() == goal);
                    break ;
                }
            } else {
                assert(links::pairs(self.around@[self.page as int]@) == incident(
                    edges,
                    self.page as int,
                ));
                if self.around[self.page].len() == 0 {
                    self.page = self.page + 1;
                } else {
                    break ;
                }
            }
        }
    }

    /// The labels that the next page may take, in ascending order, with the edges whose weights
    /// count for each. `None` where nothing is left to do.
    pub fn ballot(&self) -> (r: Option<Vec<Candidate>>)
        requires
            self.wf(),
        ensures
            match r {
                Some(candidates) => {
                    let around = incident(self.edges(), self.progress().page);
                    let labels = self.progress().labels;
                    &&& !self.is_finished()
                    &&& candidates@.len() > 0
                    &&& candidate_labels(candidates@) == voted(around, labels)
                    &&& forall|k: int|
                        0 <= k < candidates@.len() ==> order::ints(
                            (#[trigger] candidates@[k]).edges@,
                        ) == votes(around, labels, candidates@[k].label as int)
                },
                None => self.is_finished(),
            },
    {
        if self.passes >= MAX_COMMUNITY_PASSES {
            return None;
        }
        let near: &Vec<(usize, usize)> = &self.around[self.page];
        let ghost around = incident(self.edges(), self.progress().page);
        let ghost labels = self.progress().labels;
        assert(links::pairs(near@) == around);
        let mut found: Vec<usize> = Vec::new();
        let mut i: usize = 0;
        while i < near.len()
            invariant
                i <= near@.len(),
                self.prepared(),
                self.page < self.labels@.len(),
                near@ == self.around@[self.page as int]@,
                links::pairs(near@) == around,
                around == incident(self.edges(), self.page as int),
                labels == order::ints(self.labels@),
                order::rising(order::ints(found@)),
                forall|x: usize|
                    #[trigger] found@.contains(x) <==> is_voted(
                        around.take(i as int),
                        labels,
                        x as int,
                    ),
            decreases near@.len() - i,
        {
            let ghost before = found@;
            let page: usize = near[i].0;
            proof {
                lemma_incident_pages(self.edges(), self.page as int, self.edges().len() as int);
                assert(around[i as int] == (near@[i as int].0 as int, near@[i as int].1 as int));
            }
            let label: usize = self.labels[page];
            order::add_index(&mut found, label);
            proof {
                let (a, b) = (around.take(i as int), around.take(i + 1));
                assert(labels[page as int] == label);
                assert forall|x: usize|
                    #[trigger] found@.contains(x) <==> is_voted(b, labels, x as int) by {
                    assert(found@.to_set().contains(x) <==> found@.contains(x));
                    assert(before.to_set().contains(x) <==> before.contains(x));
                    if is_voted(a, labels, x as int) {
                        let k = choose|k: int|
                            0 <= k < a.len() && labels[(#[trigger] a[k]).0] == x;
                        assert(labels[b[k].0] == x);
                    }
                    if x == label {
                        assert(labels[b[i as int].0] == x);
                    }
                    if is_voted(b, labels, x as int) {
                        let k = choose|k: int|
                            0 <= k < b.len() && labels[(#[trigger] b[k]).0] == x;
                        if k < i {
                            assert(labels[a[k].0] == x);
                        }
                    }
                }
            }
            i += 1;
        }
        assert(around.take(around.len() as int) =~= around);
        let n: usize = self.labels.len();
        let ghost p = |label: int| is_voted(around, labels, label);
        proof {
            assert forall|x: usize| #[trigger] found@.contains(x) <==> x < n && p(x as int) by {
                if is_voted(around, labels, x as int) {
                    let k = choose|k: int|
                        0 <= k < around.len() && labels[(#[trigger] around[k]).0] == x;
                    lemma_incident_pages(self.edges(), self.page as int, self.edges().len() as int);
                    assert(self.labels@[around[k].0] < n);
                }
            }
            order::lemma_selected(found@, n as nat, p);
            assert(labels[around[0].0] == self.labels@[near@[0].0 as int]) by {
                lemma_incident_pages(self.edges(), self.page as int, self.edges().len() as int);
                assert(around[0] == (near@[0].0 as int, near@[0].1 as int));
            }
            assert(is_voted(around, labels, labels[around[0].0]));
            assert(found@.contains(self.labels@[near@[0].0 as int]));
        }
        let mut out: Vec<Candidate> = Vec::new();
        let mut k: usize = 0;
        while k < found.len()
            invariant
                k <= found@.len(),
                self.prepared(),
                self.page < self.labels@.len(),
                near@ == self.around@[self.page as int]@,
                links::pairs(near@) == around,
                around == incident(self.edges(), self.page as int),
                labels == order::ints(self.labels@),
                out@.len() == k,
                forall|x: int|
                    0 <= x < k ==> (#[trigger] out@[x]).label == found@[x] && order::ints(
                        out@[x].edges@,
                    ) == votes(around, labels, found@[x] as int),
            decreases found@.len() - k,
        {
            let label: usize = found[k];
            let mut counted: Vec<usize> = Vec::new();
            let mut i: usize = 0;
            assert(order::ints(counted@) =~= votes(around.take(0), labels, label as int));
            while i < near.len()
                invariant
                    i <= near@.len(),
                    self.prepared(),
                    self.page < self.labels@.len(),
                    near@ == self.around@[self.page as int]@,
                    links::pairs(near@) == around,
                    around == incident(self.edges(), self.page as int),
                    labels == order::ints(self.labels@),
                    order::ints(counted@) == votes(around.take(i as int), labels, label as int),
                decreases near@.len() - i,
            {
                let ghost before = order::ints(counted@);
                let (page, edge): (usize, usize) = near[i];
                proof {
                    lemma_incident_pages(self.edges(), self.page as int, self.edges().len() as int);
                    assert(around[i as int] == (page as int, edge as int));
                    assert(around.take(i + 1).drop_last() =~= around.take(i as int));
                }
                if self.labels[page] == label {
                    counted.push(edge);
                    assert(order::ints(counted@) =~= before.push(edge as int));
                }
                i += 1;
            }
            assert(around.take(around.len() as int) =~= around);
            out.push(Candidate { label, edges: counted });
            k += 1;
        }
        assert(candidate_labels(out@) =~= order::ints(found@));
        Some(out)
    }

    /// Gives the next page the first of the labels with the largest key, where `keys` holds a key
    /// for each label that the page may take. The keys compare as the sums of weights do.
    pub fn vote(&mut self, keys: &Vec<u64>)
        requires
            old(self).wf(),
            !old(self).is_finished(),
            keys@.len() == voted(
                incident(old(self).edges(), old(self).progress().page),
                old(self).progress().labels,
            ).len(),
        ensures
            final(self).wf(),
            final(self).edges() == old(self).edges(),
            final(self).progress() == labelled(
                old(self).edges(),
                old(self).progress(),
                voted(
                    incident(old(self).edges(), old(self).progress().page),
                    old(self).progress().labels,
                )[largest(keys@)],
            ),
    {
        match self.ballot() {
            Some(candidates) => {
                let best = find_largest(keys);
                let n: usize = self.labels.len();
                let ghost before = self.progress();
                let ghost around = incident(self.edges(), before.page);
                let label: usize = candidates[best].label;
                assert(candidate_labels(candidates@)[best as int] == label);
                proof {
                    let p = |l: int| is_voted(around, before.labels, l);
                    order::lemma_select(before.labels.len(), p);
                }
                if self.labels[self.page] != label {
                    self.changed = true;
                }
                self.labels[self.page] = label;
                assert(order::ints(self.labels@) =~= before.labels.update(
                    before.page,
                    label as int,
                ));
                self.page = self.page + 1;
                self.settle();
            },
            None => {},
        }
    }

    /// The label of each page.
    pub fn labels(&self) -> (r: &Vec<usize>)
        requires
            self.wf(),
        ensures
            order::ints(r@) == self.progress().labels,
            forall|i: int| 0 <= i < r@.len() ==> #[trigger] r@[i] < r@.len(),
    {
        &self.labels
    }
}

/// The neighbours of a page are ends of edges.
proof fn lemma_incident_pages(edges: Seq<(int, int)>, i: int, m: int)
    requires
        0 <= m <= edges.len(),
    ensures
        forall|k: int|
            0 <= k < adjacency(edges, i, m).len() ==> {
                let (page, edge) = #[trigger] adjacency(edges, i, m)[k];
                &&& 0 <= edge < m
                &&& page == edges[edge].0 || page == edges[edge].1
            },
    decreases m,
{
    if m > 0 {
        lemma_incident_pages(edges, i, m - 1);
        let (before, all) = (adjacency(edges, i, m - 1), adjacency(edges, i, m));
        assert forall|k: int| 0 <= k < all.len() implies {
            let (page, edge) = #[trigger] all[k];
            &&& 0 <= edge < m
            &&& page == edges[edge].0 || page == edges[edge].1
        } by {
            if k < before.len() {
                assert(all[k] == before[k]);
            }
        }
    }
}

// ---------------------------------------------------------------------------------------
// Laws of propagation
// ---------------------------------------------------------------------------------------

/// Settling changes no label.
pub proof fn lemma_settled_labels(edges: Seq<(int, int)>, p: Progress)
    ensures
        settled(edges, p).labels == p.labels,
        0 <= p.passes <= MAX_COMMUNITY_PASSES ==> p.passes <= settled(edges, p).passes
            <= MAX_COMMUNITY_PASSES,
    decreases MAX_COMMUNITY_PASSES - p.passes, p.labels.len() - p.page,
{
    if 0 <= p.passes < MAX_COMMUNITY_PASSES {
        if p.page >= p.labels.len() {
            if p.changed {
                lemma_settled_labels(
                    edges,
                    Progress { page: 0, passes: p.passes + 1, changed: false, ..p },
                );
            }
        } else if incident(edges, p.page).len() == 0 {
            lemma_settled_labels(edges, Progress { page: p.page + 1, ..p });
        }
    }
}

/// A vote changes the label of the next page alone, and that page takes a label that one of its
/// neighbours has. So every label in use was in use before.
pub proof fn lemma_vote_takes_a_neighbours_label(edges: Seq<(int, int)>, p: Progress, best: int)
    requires
        0 <= p.page < p.labels.len(),
        0 <= best < voted(incident(edges, p.page), p.labels).len(),
    ensures
        ({
            let label = voted(incident(edges, p.page), p.labels)[best];
            let after = labelled(edges, p, label).labels;
            &&& after.len() == p.labels.len()
            &&& after[p.page] == label
            &&& is_voted(incident(edges, p.page), p.labels, label)
            &&& forall|i: int|
                0 <= i < p.labels.len() && i != p.page ==> #[trigger] after[i] == p.labels[i]
        }),
{
    let around = incident(edges, p.page);
    let label = voted(around, p.labels)[best];
    order::lemma_select(p.labels.len(), |l: int| is_voted(around, p.labels, l));
    lemma_settled_labels(
        edges,
        Progress {
            labels: p.labels.update(p.page, label),
            page: p.page + 1,
            passes: p.passes,
            changed: p.changed || p.labels[p.page] != label,
        },
    );
}

// ---------------------------------------------------------------------------------------
// Numbering
// ---------------------------------------------------------------------------------------

/// Whether page `j` is the first page with its label.
pub open spec fn is_first(labels: Seq<int>, j: int) -> bool {
    forall|k: int| 0 <= k < j ==> #[trigger] labels[k] != labels[j]
}

/// The first page with the label of page `i`.
pub open spec fn first_of(labels: Seq<int>, i: int) -> int {
    labels.index_of_first(labels[i]).unwrap()
}

/// Whether the community of page `a` is numbered before that of page `b`: it has more pages, or
/// as many and an earlier first page.
pub open spec fn ranks_before(labels: Seq<int>, a: int, b: int) -> bool {
    let (sa, sb) = (order::count_of(labels, labels[a]), order::count_of(labels, labels[b]));
    sa > sb || (sa == sb && first_of(labels, a) < first_of(labels, b))
}

/// The number of the community of page `i`: how many communities are numbered before it.
pub open spec fn community(labels: Seq<int>, i: int) -> nat {
    order::select(labels.len(), |j: int| is_first(labels, j) && ranks_before(labels, j, i)).len()
}

/// How many communities there are.
pub open spec fn community_count(labels: Seq<int>) -> nat {
    order::select(labels.len(), |j: int| is_first(labels, j)).len()
}

/// The first page with a label is found, and it is the first one.
pub proof fn lemma_first_of(labels: Seq<int>, i: int)
    requires
        0 <= i < labels.len(),
    ensures
        0 <= first_of(labels, i) <= i,
        labels[first_of(labels, i)] == labels[i],
        is_first(labels, first_of(labels, i)),
        is_first(labels, i) ==> first_of(labels, i) == i,
{
    labels.index_of_first_ensures(labels[i]);
    assert(labels.contains(labels[i]));
}

/// Pages have the same community number exactly if they have the same label, and a community
/// with a smaller number has at least as many pages.
pub proof fn lemma_community_order(labels: Seq<int>, a: int, b: int)
    requires
        0 <= a < labels.len(),
        0 <= b < labels.len(),
    ensures
        community(labels, a) == community(labels, b) <==> labels[a] == labels[b],
        community(labels, a) < community(labels, b) <==> ranks_before(labels, a, b),
        community(labels, a) < community(labels, b) ==> order::count_of(labels, labels[a])
            >= order::count_of(labels, labels[b]),
        community(labels, a) < community_count(labels),
{
    let n = labels.len();
    lemma_first_of(labels, a);
    lemma_first_of(labels, b);
    let pa = |j: int| is_first(labels, j) && ranks_before(labels, j, a);
    let pb = |j: int| is_first(labels, j) && ranks_before(labels, j, b);
    let (fa, fb) = (first_of(labels, a), first_of(labels, b));
    lemma_first_of(labels, fa);
    lemma_first_of(labels, fb);
    if ranks_before(labels, a, b) {
        assert(pb(fa) && !pa(fa));
        order::lemma_select_more(n, pa, pb);
    } else if ranks_before(labels, b, a) {
        assert(pa(fb) && !pb(fb));
        order::lemma_select_more(n, pb, pa);
    } else {
        assert(fa == fb);
        order::lemma_select_same(n, pa, pb);
    }
    let all = |j: int| is_first(labels, j);
    assert(all(fa) && !pa(fa));
    order::lemma_select_more(n, pa, all);
}

/// The community numbers are those below the number of communities: each of these is the number
/// of some page.
pub proof fn lemma_community_numbers(labels: Seq<int>, c: nat)
    requires
        c < community_count(labels),
    ensures
        exists|i: int| 0 <= i < labels.len() && #[trigger] community(labels, i) == c,
{
    let n = labels.len();
    let g = community_count(labels);
    let first = |j: int| is_first(labels, j);
    let firsts = order::select(n, first);
    order::lemma_select(n, first);
    let numbers = firsts.map_values(|j: int| community(labels, j) as int);
    assert forall|x: int, y: int|
        0 <= x < numbers.len() && 0 <= y < numbers.len() && x != y implies numbers[x]
        != numbers[y] by {
        let (i, j) = (firsts[x], firsts[y]);
        assert(first(i) && first(j));
        if x < y {
            assert(firsts[x] < firsts[y]);
        } else {
            assert(firsts[y] < firsts[x]);
        }
        lemma_community_order(labels, i, j);
    }
    numbers.unique_seq_to_set();
    let range = vstd::set_lib::set_int_range(0, g as int);
    vstd::set_lib::lemma_int_range(0, g as int);
    assert forall|x: int| #[trigger] numbers.to_set().contains(x) implies range.contains(x) by {
        let k = choose|k: int| 0 <= k < numbers.len() && numbers[k] == x;
        assert(first(firsts[k]));
        lemma_community_order(labels, firsts[k], firsts[k]);
    }
    vstd::set_lib::lemma_subset_equality(numbers.to_set(), range);
    assert(range.contains(c as int));
    assert(numbers.contains(c as int));
    let k = choose|k: int| 0 <= k < numbers.len() && numbers[k] == c as int;
    assert(community(labels, firsts[k]) == c);
}

/// The number of the community of each page, given the label of each.
pub fn number_communities(labels: &Vec<usize>) -> (r: Vec<usize>)
    requires
        forall|i: int| 0 <= i < labels@.len() ==> #[trigger] labels@[i] < labels@.len(),
    ensures
        r@.len() == labels@.len(),
        forall|i: int|
            0 <= i < labels@.len() ==> #[trigger] r@[i] == community(order::ints(labels@), i),
{
    let n: usize = labels.len();
    let ghost all = order::ints(labels@);
    let mut sizes: Vec<usize> = Vec::new();
    let mut firsts: Vec<usize> = Vec::new();
    let mut opens: Vec<bool> = Vec::new();
    let mut i: usize = 0;
    while i < n
        invariant
            i <= n,
            sizes@.len() == i,
            firsts@.len() == i,
            opens@.len() == i,
            forall|k: int| 0 <= k < i ==> #[trigger] sizes@[k] == 0,
            forall|k: int| 0 <= k < i ==> #[trigger] opens@[k] == false,
        decreases n - i,
    {
        sizes.push(0);
        firsts.push(0);
        opens.push(false);
        i += 1;
    }
    i = 0;
    while i < n
        invariant
            i <= n,
            n == labels@.len(),
            all == order::ints(labels@),
            forall|k: int| 0 <= k < n ==> #[trigger] labels@[k] < n,
            sizes@.len() == n,
            firsts@.len() == n,
            opens@.len() == n,
            forall|l: int|
                0 <= l < n ==> #[trigger] sizes@[l] == order::count_of(all.take(i as int), l),
            forall|l: int|
                0 <= l < n && #[trigger] sizes@[l] > 0 ==> 0 <= firsts@[l] < i && all[
                    firsts@[l] as int
                ] == l && is_first(all, firsts@[l] as int),
            forall|k: int|
                0 <= k < n ==> #[trigger] opens@[k] == (k < i && is_first(all, k)),
        decreases n - i,
    {
        let label: usize = labels[i];
        let ghost sizes0 = sizes@;
        proof {
            assert(all[i as int] == label);
            assert(all.take(i + 1).drop_last() =~= all.take(i as int));
            order::lemma_count_of(all.take(i as int), label as int);
            assert(sizes@[label as int] == order::count_of(all.take(i as int), label as int));
            if sizes@[label as int] == 0 {
                assert forall|k: int| 0 <= k < i implies #[trigger] all[k] != all[i as int] by {
                    assert(all.take(i as int)[k] == all[k]);
                }
            } else {
                assert(all[firsts@[label as int] as int] == all[i as int]);
            }
        }
        if sizes[label] == 0 {
            firsts[label] = i;
            opens[i] = true;
        }
        sizes[label] = sizes[label] + 1;
        i += 1;
    }
    assert(all.take(n as int) =~= all);
    proof {
        assert forall|l: int| 0 <= l < n && #[trigger] sizes@[l] > 0 implies forall|a: int|
            0 <= a < n && #[trigger] all[a] == l ==> first_of(all, a) == firsts@[l] by {
            assert forall|a: int| 0 <= a < n && #[trigger] all[a] == l implies first_of(all, a)
                == firsts@[l] by {
                lemma_first_of(all, a);
                let (f, g) = (first_of(all, a), firsts@[l] as int);
                if f < g {
                    assert(all[f] != all[g]);
                } else if g < f {
                    assert(all[g] != all[f]);
                }
            }
        }
    }
    let mut ranks: Vec<usize> = Vec::new();
    let mut l: usize = 0;
    while l < n
        invariant
            l <= n,
            n == labels@.len(),
            all == order::ints(labels@),
            forall|k: int| 0 <= k < n ==> #[trigger] labels@[k] < n,
            sizes@.len() == n,
            firsts@.len() == n,
            opens@.len() == n,
            forall|x: int| 0 <= x < n ==> #[trigger] sizes@[x] == order::count_of(all, x),
            forall|x: int|
                0 <= x < n && #[trigger] sizes@[x] > 0 ==> forall|a: int|
                    0 <= a < n && #[trigger] all[a] == x ==> first_of(all, a) == firsts@[x],
            forall|k: int| 0 <= k < n ==> #[trigger] opens@[k] == is_first(all, k),
            ranks@.len() == l,
            forall|a: int|
                0 <= a < n && #[trigger] all[a] < l ==> ranks@[all[a]] == community(all, a),
        decreases n - l,
    {
        let mut count: usize = 0;
        if sizes[l] > 0 {
            let own: usize = firsts[l];
            let size: usize = sizes[l];
            let ghost page = choose|a: int| 0 <= a < n && #[trigger] all[a] == l;
            proof {
                order::lemma_count_of(all, l as int);
                assert(all.contains(l as int));
            }
            let ghost p = |j: int| is_first(all, j) && ranks_before(all, j, page);
            let mut j: usize = 0;
            while j < n
                invariant
                    j <= n,
                    count <= j,
                    n == labels@.len(),
                    all == order::ints(labels@),
                    forall|k: int| 0 <= k < n ==> #[trigger] labels@[k] < n,
                    sizes@.len() == n,
                    firsts@.len() == n,
                    opens@.len() == n,
                    forall|x: int| 0 <= x < n ==> #[trigger] sizes@[x] == order::count_of(all, x),
                    forall|k: int| 0 <= k < n ==> #[trigger] opens@[k] == is_first(all, k),
                    0 <= page < n,
                    all[page] == l,
                    l < n,
                    size == sizes@[l as int],
                    own == first_of(all, page),
                    p == |j: int| is_first(all, j) && ranks_before(all, j, page),
                    count == order::select(j as nat, p).len(),
                decreases n - j,
            {
                assert(all[j as int] == labels@[j as int]);
                if opens[j] {
                    proof {
                        lemma_first_of(all, j as int);
                        assert(opens@[j as int] == is_first(all, j as int));
                        assert(sizes@[labels@[j as int] as int] == order::count_of(
                            all,
                            all[j as int],
                        ));
                        assert(sizes@[l as int] == order::count_of(all, all[page]));
                    }
                    let other: usize = sizes[labels[j]];
                    assert(p(j as int) == (other > size || (other == size && j < own)));
                    if other > size || (other == size && j < own) {
                        count += 1;
                    }
                }
                j += 1;
            }
            proof {
                assert forall|a: int| 0 <= a < n && #[trigger] all[a] == l implies community(all, a)
                    == count by {
                    lemma_community_order(all, a, page);
                }
            }
        } else {
            proof {
                assert forall|a: int| 0 <= a < n implies #[trigger] all[a] != l by {
                    order::lemma_count_of(all, l as int);
                    assert(sizes@[l as int] == order::count_of(all, l as int));
                    assert(all.contains(all[a]));
                }
            }
        }
        ranks.push(count);
        l += 1;
    }
    let mut out: Vec<usize> = Vec::new();
    i = 0;
    while i < n
        invariant
            i <= n,
            n == labels@.len(),
            all == order::ints(labels@),
            forall|k: int| 0 <= k < n ==> #[trigger] labels@[k] < n,
            ranks@.len() == n,
            forall|a: int|
                0 <= a < n && #[trigger] all[a] < n ==> ranks@[all[a]] == community(all, a),
            out@.len() == i,
            forall|k: int| 0 <= k < i ==> #[trigger] out@[k] == community(all, k),
        decreases n - i,
    {
        assert(all[i as int] == labels@[i as int]);
        out.push(ranks[labels[i]]);
        i += 1;
    }
    out
}

// ---------------------------------------------------------------------------------------
// Whole runs
// ---------------------------------------------------------------------------------------

/// Whether a walk along the edges takes an edge from its place `k` to the next.
pub open spec fn takes_edge(edges: Seq<(int, int)>, walk: Seq<int>, k: int) -> bool {
    links::adjacent(edges, walk[k], walk[k + 1])
}

/// Whether a list of pages is a walk along the edges from page `a` to page `b`.
pub open spec fn is_walk(edges: Seq<(int, int)>, walk: Seq<int>, a: int, b: int) -> bool {
    &&& walk.len() > 0
    &&& walk[0] == a
    &&& walk.last() == b
    &&& forall|k: int| 0 <= k < walk.len() - 1 ==> #[trigger] takes_edge(edges, walk, k)
}

/// Whether two pages are connected: there is a walk along the edges from one to the other.
pub open spec fn connected(edges: Seq<(int, int)>, a: int, b: int) -> bool {
    exists|walk: Seq<int>| #[trigger] is_walk(edges, walk, a, b)
}

/// Where label propagation among `n` pages stands after the given votes, each of which is the place
/// of the label that was taken among those that could be.
pub open spec fn after_votes(edges: Seq<(int, int)>, n: nat, picks: Seq<int>) -> Progress
    decreases picks.len(),
{
    if picks.len() == 0 {
        start(edges, n)
    } else {
        let p = after_votes(edges, n, picks.drop_last());
        labelled(edges, p, voted(incident(edges, p.page), p.labels)[picks.last()])
    }
}

/// Whether each of the votes was held while something was left to do, and took one of the labels
/// that could be taken.
pub open spec fn are_votes(edges: Seq<(int, int)>, n: nat, picks: Seq<int>) -> bool
    decreases picks.len(),
{
    picks.len() > 0 ==> {
        let p = after_votes(edges, n, picks.drop_last());
        &&& are_votes(edges, n, picks.drop_last())
        &&& p.passes < MAX_COMMUNITY_PASSES
        &&& 0 <= picks.last() < voted(incident(edges, p.page), p.labels).len()
    }
}

/// Every page is connected to itself.
proof fn lemma_connected_to_itself(edges: Seq<(int, int)>, a: int)
    ensures
        connected(edges, a, a),
{
    assert(is_walk(edges, seq![a], a, a));
}

/// A walk backwards is one too.
proof fn lemma_connected_back(edges: Seq<(int, int)>, a: int, b: int)
    requires
        connected(edges, a, b),
    ensures
        connected(edges, b, a),
{
    let walk = choose|walk: Seq<int>| #[trigger] is_walk(edges, walk, a, b);
    let back = Seq::new(walk.len(), |k: int| walk[walk.len() - 1 - k]);
    assert forall|k: int| 0 <= k < back.len() - 1 implies #[trigger] takes_edge(edges, back, k) by {
        assert(takes_edge(edges, walk, walk.len() - 2 - k));
    }
    assert(is_walk(edges, back, b, a));
}

/// A walk behind a walk is one too.
proof fn lemma_connected_on(edges: Seq<(int, int)>, a: int, b: int, c: int)
    requires
        connected(edges, a, b),
        connected(edges, b, c),
    ensures
        connected(edges, a, c),
{
    let first = choose|walk: Seq<int>| #[trigger] is_walk(edges, walk, a, b);
    let second = choose|walk: Seq<int>| #[trigger] is_walk(edges, walk, b, c);
    let n = first.len() as int;
    let walk = first + second.subrange(1, second.len() as int);
    assert forall|k: int| 0 <= k < walk.len() - 1 implies #[trigger] takes_edge(edges, walk, k) by {
        if k < n - 1 {
            assert(takes_edge(edges, first, k));
        } else {
            assert(takes_edge(edges, second, k - (n - 1)));
            assert(walk[k] == second[k - (n - 1)]);
        }
    }
    if second.len() == 1 {
        assert(walk.last() == first.last());
    } else {
        assert(walk.last() == second.last());
    }
    assert(is_walk(edges, walk, a, c));
}

/// A page is joined to its neighbours.
proof fn lemma_neighbours_joined(edges: Seq<(int, int)>, i: int, m: int)
    requires
        0 <= m <= edges.len(),
    ensures
        forall|k: int|
            0 <= k < adjacency(edges, i, m).len() ==> links::adjacent(
                edges,
                i,
                (#[trigger] adjacency(edges, i, m)[k]).0,
            ),
    decreases m,
{
    if m > 0 {
        lemma_neighbours_joined(edges, i, m - 1);
        let (before, all) = (adjacency(edges, i, m - 1), adjacency(edges, i, m));
        assert(edges.contains(edges[m - 1]));
        assert forall|k: int| 0 <= k < all.len() implies links::adjacent(
            edges,
            i,
            (#[trigger] all[k]).0,
        ) by {
            if k < before.len() {
                assert(all[k] == before[k]);
            }
        }
    }
}

/// Unless nothing is left to do, the next page is one of the pages.
proof fn lemma_settled_page(edges: Seq<(int, int)>, p: Progress)
    requires
        0 <= p.page,
        0 <= p.passes <= MAX_COMMUNITY_PASSES,
    ensures
        0 <= settled(edges, p).page,
        settled(edges, p).passes < MAX_COMMUNITY_PASSES ==> settled(edges, p).page
            < p.labels.len(),
    decreases MAX_COMMUNITY_PASSES - p.passes, p.labels.len() - p.page,
{
    if p.passes < MAX_COMMUNITY_PASSES {
        if p.page >= p.labels.len() {
            if p.changed {
                lemma_settled_page(
                    edges,
                    Progress { page: 0, passes: p.passes + 1, changed: false, ..p },
                );
            }
        } else if incident(edges, p.page).len() == 0 {
            lemma_settled_page(edges, Progress { page: p.page + 1, ..p });
        }
    }
}

/// After any votes, the label of each page is the number of a page that it is connected to.
proof fn lemma_labels_connected(edges: Seq<(int, int)>, n: nat, picks: Seq<int>)
    requires
        links::join_pages(edges, n),
        are_votes(edges, n, picks),
    ensures
        ({
            let p = after_votes(edges, n, picks);
            &&& p.labels.len() == n
            &&& 0 <= p.passes <= MAX_COMMUNITY_PASSES
            &&& 0 <= p.page
            &&& p.passes < MAX_COMMUNITY_PASSES ==> p.page < n
            &&& forall|i: int|
                0 <= i < n ==> 0 <= #[trigger] p.labels[i] < n && connected(edges, i, p.labels[i])
        }),
    decreases picks.len(),
{
    if picks.len() == 0 {
        let first = Progress {
            labels: Seq::new(n, |i: int| i),
            page: 0,
            passes: 0,
            changed: false,
        };
        lemma_settled_labels(edges, first);
        lemma_settled_page(edges, first);
        assert forall|i: int| 0 <= i < n implies 0 <= #[trigger] start(edges, n).labels[i] < n
            && connected(edges, i, start(edges, n).labels[i]) by {
            lemma_connected_to_itself(edges, i);
        }
    } else {
        let rest = picks.drop_last();
        lemma_labels_connected(edges, n, rest);
        let p = after_votes(edges, n, rest);
        let around = incident(edges, p.page);
        let label = voted(around, p.labels)[picks.last()];
        let after = after_votes(edges, n, picks);
        lemma_vote_takes_a_neighbours_label(edges, p, picks.last());
        let next = Progress {
            labels: p.labels.update(p.page, label),
            page: p.page + 1,
            passes: p.passes,
            changed: p.changed || p.labels[p.page] != label,
        };
        lemma_settled_labels(edges, next);
        lemma_settled_page(edges, next);
        lemma_neighbours_joined(edges, p.page, edges.len() as int);
        lemma_incident_pages(edges, p.page, edges.len() as int);
        let k = choose|k: int| 0 <= k < around.len() && p.labels[(#[trigger] around[k]).0] == label;
        let (j, edge) = around[k];
        assert(0 <= j < n) by {
            assert(0 <= edges[edge].0 < n && 0 <= edges[edge].1 < n);
        }
        assert(connected(edges, p.page, j)) by {
            let walk = seq![p.page, j];
            assert(takes_edge(edges, walk, 0));
            assert(is_walk(edges, walk, p.page, j));
        }
        assert(0 <= p.labels[j] < n && connected(edges, j, p.labels[j]));
        lemma_connected_on(edges, p.page, j, label);
        assert forall|i: int| 0 <= i < n implies 0 <= #[trigger] after.labels[i] < n && connected(
            edges,
            i,
            after.labels[i],
        ) by {
            if i != p.page {
                assert(after.labels[i] == p.labels[i]);
            }
        }
    }
}

/// Communities stay inside the connected parts of the graph: however the votes go, two pages that
/// have the same label, and so the same community, are connected.
pub proof fn lemma_communities_are_connected(
    edges: Seq<(int, int)>,
    n: nat,
    picks: Seq<int>,
    a: int,
    b: int,
)
    requires
        links::join_pages(edges, n),
        are_votes(edges, n, picks),
        0 <= a < n,
        0 <= b < n,
    ensures
        after_votes(edges, n, picks).labels.len() == n,
        community(after_votes(edges, n, picks).labels, a) == community(
            after_votes(edges, n, picks).labels,
            b,
        ) ==> connected(edges, a, b),
{
    let labels = after_votes(edges, n, picks).labels;
    lemma_labels_connected(edges, n, picks);
    lemma_community_order(labels, a, b);
    if labels[a] == labels[b] {
        assert(connected(edges, b, labels[b]));
        assert(connected(edges, a, labels[a]));
        lemma_connected_back(edges, b, labels[b]);
        lemma_connected_on(edges, a, labels[a], b);
    }
}

} // verus!
