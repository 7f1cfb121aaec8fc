//! What the graph of a wiki shows: its communities, connections that surprise, and gaps.
//!
//! Pages are numbered by their place in the list of nodes, and an edge is the pair of the
//! numbers of its pages.

use crate::communities;
use crate::graph;
use crate::graph::{GraphNode, WikiGraph};
use crate::links;
use crate::order;
use crate::order::{Ordered, Ranked, TextSet};
use crate::text;
use vstd::prelude::*;

verus! {

/// Whether the edges join two different pages of `n` each.
pub open spec fn edges_join(edges: Seq<(usize, usize)>, n: nat) -> bool {
    links::join_pages(links::pairs(edges), n)
}

/// Whether the number of each community is below the number of nodes.
pub open spec fn communities_numbered(nodes: Seq<GraphNode>) -> bool {
    forall|i: int| 0 <= i < nodes.len() ==> (#[trigger] nodes[i]).community < nodes.len()
}

/// The first `limit` values of a list, or all where it has fewer.
pub open spec fn first<A>(s: Seq<A>, limit: nat) -> Seq<A> {
    if s.len() <= limit {
        s
    } else {
        s.take(limit as int)
    }
}

// ---------------------------------------------------------------------------------------
// Communities
// ---------------------------------------------------------------------------------------

/// The pages of community `c`, in ascending order.
pub open spec fn members(nodes: Seq<graph::Node>, c: int) -> Seq<int> {
    order::select(nodes.len(), |i: int| nodes[i].community == c)
}

/// How many pages of community `c` with a larger number page `i` is joined to.
pub open spec fn inner_edges(
    nodes: Seq<graph::Node>,
    edges: Seq<(int, int)>,
    c: int,
    i: int,
) -> nat {
    order::select(
        nodes.len(),
        |j: int| i < j && nodes[j].community == c && links::adjacent(edges, i, j),
    ).len()
}

/// How many pairs of the pages `list` of community `c` are joined.
pub open spec fn intra_edges(
    nodes: Seq<graph::Node>,
    edges: Seq<(int, int)>,
    c: int,
    list: Seq<int>,
) -> nat
    decreases list.len(),
{
    if list.len() == 0 {
        0
    } else {
        intra_edges(nodes, edges, c, list.drop_last()) + inner_edges(nodes, edges, c, list.last())
    }
}

/// How many pairs there are of `m` pages, and at least one.
pub open spec fn possible_edges(m: nat) -> nat {
    if m > 1 {
        (m * (m - 1) / 2) as nat
    } else {
        1
    }
}

/// A page of a community, ordered by the number of its links, most first, and then by its id.
pub struct Member {
    pub page: int,
    pub id: Seq<char>,
    pub link_count: nat,
}

impl Ranked for Member {
    open spec fn le(self, other: Self) -> bool {
        self.link_count > other.link_count || (self.link_count == other.link_count
            && text::text_le(self.id, other.id))
    }

    proof fn le_total(self, other: Self) {
        text::lemma_text_total(self.id, other.id);
    }

    proof fn le_transitive(self, middle: Self, other: Self) {
        if self.link_count == middle.link_count && middle.link_count == other.link_count {
            text::lemma_text_transitive(self.id, middle.id, other.id);
        }
    }
}

/// A page with the number that it is ordered by, the largest first, and with its id.
pub struct CountedPage {
    pub page: usize,
    pub id: String,
    pub count: usize,
}

impl Ordered for CountedPage {
    type Model = Member;

    open spec fn model(&self) -> Member {
        Member { page: self.page as int, id: self.id@, link_count: self.count as nat }
    }

    fn is_le(&self, other: &Self) -> (r: bool) {
        self.count > other.count || (self.count == other.count && text::string_at_most(
            self.id.as_str(),
            other.id.as_str(),
        ))
    }
}

/// The pages of community `c` by the number of their links, most first. Pages with as many links
/// stand in ascending order of their ids.
pub open spec fn ranked_members(nodes: Seq<graph::Node>, c: int) -> Seq<Member> {
    order::sorted_list(
        members(nodes, c).map_values(
            |i: int| Member { page: i, id: nodes[i].id, link_count: nodes[i].link_count },
        ),
    )
}

/// A community of pages.
///
/// Its cohesion is the number of joined pairs of its pages over the number of all pairs.
#[derive(Debug, Clone)]
pub struct CommunityInfo {
    pub id: usize,
    pub node_count: usize,
    pub intra_edges: u128,
    pub possible_edges: u128,
    pub top_nodes: Vec<String>,
}

/// What a community of pages stands for.
pub struct Community {
    pub id: nat,
    pub node_count: nat,
    pub intra_edges: nat,
    pub possible_edges: nat,
    pub top_nodes: Seq<Seq<char>>,
}

impl View for CommunityInfo {
    type V = Community;

    open spec fn view(&self) -> Community {
        Community {
            id: self.id as nat,
            node_count: self.node_count as nat,
            intra_edges: self.intra_edges as nat,
            possible_edges: self.possible_edges as nat,
            top_nodes: text::strings(self.top_nodes@),
        }
    }
}

/// What the communities of a list stand for.
pub open spec fn community_list(v: Seq<CommunityInfo>) -> Seq<Community> {
    v.map_values(|c: CommunityInfo| c@)
}

/// Community `c` of the nodes.
pub open spec fn community(nodes: Seq<graph::Node>, edges: Seq<(int, int)>, c: int) -> Community {
    let all = members(nodes, c);
    Community {
        id: c as nat,
        node_count: all.len(),
        intra_edges: intra_edges(nodes, edges, c, all),
        possible_edges: possible_edges(all.len()),
        top_nodes: first(ranked_members(nodes, c), 5).map_values(
            |m: Member| nodes[m.page].label,
        ),
    }
}

/// Whether a node is in community `c`.
pub open spec fn has_community(nodes: Seq<graph::Node>, c: int) -> bool {
    exists|i: int| 0 <= i < nodes.len() && (#[trigger] nodes[i]).community == c
}

/// The communities of the nodes, in ascending order of their numbers.
pub open spec fn communities(nodes: Seq<graph::Node>, edges: Seq<(int, int)>) -> Seq<Community> {
    order::select(nodes.len(), |c: int| has_community(nodes, c)).map_values(
        |c: int| community(nodes, edges, c),
    )
}

/// The pages of each community, in ascending order.
fn group_members(nodes: &Vec<GraphNode>) -> (r: Vec<Vec<usize>>)
    requires
        communities_numbered(nodes@),
    ensures
        r@.len() == nodes@.len(),
        forall|c: int|
            0 <= c < nodes@.len() ==> order::ints((#[trigger] r@[c])@) == members(
                graph::node_list(nodes@),
                c,
            ),
{
    let ghost list = graph::node_list(nodes@);
    let mut groups = order::empty_rows(nodes.len());
    let mut i: usize = 0;
    assert forall|c: int| 0 <= c < nodes@.len() implies order::ints((#[trigger] groups@[c])@)
        == order::select(0, |k: int| list[k].community == c) by {
        assert(order::ints(groups@[c]@) =~= Seq::<int>::empty());
    }
    while i < nodes.len()
        invariant
            i <= nodes@.len(),
            list == graph::node_list(nodes@),
            communities_numbered(nodes@),
            groups@.len() == nodes@.len(),
            forall|c: int|
                0 <= c < nodes@.len() ==> order::ints((#[trigger] groups@[c])@) == order::select(
                    i as nat,
                    |k: int| list[k].community == c,
                ),
        decreases nodes@.len() - i,
    {
        let own: usize = nodes[i].community;
        let ghost before = groups@;
        assert(list[i as int].community == own);
        groups[own].push(i);
        assert forall|c: int| 0 <= c < nodes@.len() implies order::ints((#[trigger] groups@[c])@)
            == order::select((i + 1) as nat, |k: int| list[k].community == c) by {
            let p = |k: int| list[k].community == c;
            assert(order::ints(before[c]@) == order::select(i as nat, p));
            if c == own {
                assert(order::ints(groups@[c]@) =~= order::ints(before[c]@).push(i as int));
            }
        }
        i += 1;
    }
    groups
}

/// How many pages of a community with a larger number page `i` is joined to, given the pages of
/// the community.
fn count_inner_edges(
    nodes: &Vec<GraphNode>,
    edges: &Vec<(usize, usize)>,
    table: &links::LinkTable,
    group: &Vec<usize>,
    c: usize,
    i: usize,
) -> (r: usize)
    requires
        table.holds(links::pairs(edges@), nodes@.len()),
        order::ints(group@) == members(graph::node_list(nodes@), c as int),
        i < nodes@.len(),
    ensures
        r == inner_edges(
            graph::node_list(nodes@),
            links::pairs(edges@),
            c as int,
            i as int,
        ),
        r <= nodes@.len(),
{
    let n: usize = nodes.len();
    let ghost list = graph::node_list(nodes@);
    let ghost all = links::pairs(edges@);
    let ghost (near, own) = (
        |j: int| links::adjacent(all, i as int, j),
        |j: int| list[j].community == c,
    );
    let around = links::neighbors(n, edges, table, i);
    proof {
        order::lemma_select(n as nat, near);
        order::lemma_select(n as nat, own);
        order::lemma_ints(around@);
        order::lemma_ints(group@);
    }
    let kept = order::above(&order::intersect(&around, group), i);
    proof {
        let p = |j: int|
            i < j && list[j].community == c && links::adjacent(all, i as int, j);
        assert forall|x: usize| #[trigger] kept@.contains(x) <==> x < n && p(x as int) by {
            assert(around@.contains(x) <==> x < n && near(x as int));
            assert(group@.contains(x) <==> x < n && own(x as int));
        }
        order::lemma_selected(kept@, n as nat, p);
        order::lemma_select(n as nat, p);
        assert(order::ints(kept@).len() == kept@.len());
    }
    kept.len()
}

/// Community `c`, given its pages.
fn describe_community(
    nodes: &Vec<GraphNode>,
    edges: &Vec<(usize, usize)>,
    table: &links::LinkTable,
    group: &Vec<usize>,
    c: usize,
) -> (r: CommunityInfo)
    requires
        table.holds(links::pairs(edges@), nodes@.len()),
        order::ints(group@) == members(graph::node_list(nodes@), c as int),
    ensures
        r@ == community(graph::node_list(nodes@), links::pairs(edges@), c as int),
{
    let ghost list = graph::node_list(nodes@);
    let ghost all = links::pairs(edges@);
    let ghost pages = members(list, c as int);
    let n: usize = nodes.len();
    let m: usize = group.len();
    proof {
        order::lemma_select(n as nat, |i: int| list[i].community == c);
        assert(order::ints(group@).len() == m);
    }
    let mut intra: u128 = 0;
    let mut counted: Vec<CountedPage> = Vec::new();
    let ghost unsorted = pages.map_values(
        |i: int| Member { page: i, id: list[i].id, link_count: list[i].link_count },
    );
    let mut k: usize = 0;
    assert(order::models(counted@) =~= unsorted.take(0));
    while k < m
        invariant
            k <= m,
            n == nodes@.len(),
            m == group@.len(),
            list == graph::node_list(nodes@),
            all == links::pairs(edges@),
            table.holds(all, n as nat),
            pages == members(list, c as int),
            order::ints(group@) == pages,
            forall|x: int| 0 <= x < pages.len() ==> 0 <= #[trigger] pages[x] < n,
            unsorted == pages.map_values(
                |i: int| Member { page: i, id: list[i].id, link_count: list[i].link_count },
            ),
            intra == intra_edges(list, all, c as int, pages.take(k as int)),
            intra <= k * n,
            order::models(counted@) == unsorted.take(k as int),
        decreases m - k,
    {
        let page: usize = group[k];
        assert(order::ints(group@)[k as int] == page);
        assert(0 <= pages[k as int] < n);
        let ghost before = order::models(counted@);
        let inner = count_inner_edges(nodes, edges, table, group, c, page);
        assert(pages.take(k + 1).drop_last() =~= pages.take(k as int));
        assert(k * n + n == (k + 1) * n) by (nonlinear_arith);
        assert(k * n + n <= 0xffff_ffff_ffff_ffff * 0xffff_ffff_ffff_ffff
            + 0xffff_ffff_ffff_ffff) by (nonlinear_arith)
            requires
                k <= 0xffff_ffff_ffff_ffff,
                n <= 0xffff_ffff_ffff_ffff,
        ;
        intra = intra + inner as u128;
        counted.push(
            CountedPage {
                page,
                id: nodes[page].id.as_str().to_string(),
                count: nodes[page].link_count,
            },
        );
        assert(order::models(counted@) =~= before.push(unsorted[k as int]));
        assert(unsorted.take(k + 1) =~= unsorted.take(k as int).push(unsorted[k as int]));
        k += 1;
    }
    assert(pages.take(m as int) =~= pages);
    assert(unsorted.take(m as int) =~= unsorted);
    let possible: u128 = if m > 1 {
        assert(m * (m - 1) <= 0xffff_ffff_ffff_ffff * 0xffff_ffff_ffff_ffff) by (nonlinear_arith)
            requires
                1 < m <= 0xffff_ffff_ffff_ffff,
        ;
        assert(0 <= m * (m - 1)) by (nonlinear_arith)
            requires
                1 < m,
        ;
        (m as u128 * (m as u128 - 1)) / 2
    } else {
        1
    };
    let ranked = order::sort(counted);
    let ghost top = first(ranked_members(list, c as int), 5);
    proof {
        order::lemma_sorted_list_contains(unsorted);
        assert forall|x: int| 0 <= x < ranked@.len() implies 0 <= (#[trigger] ranked@[x]).page
            < n by {
            assert(order::models(ranked@)[x] == ranked@[x].model());
            assert(order::models(ranked@) == order::sorted_list(unsorted));
            assert(order::sorted_list(unsorted).contains(order::models(ranked@)[x]));
            assert(unsorted.contains(ranked@[x].model()));
            let y = choose|y: int| 0 <= y < unsorted.len() && unsorted[y] == ranked@[x].model();
            assert(0 <= pages[y] < n);
        }
    }
    let mut labels: Vec<String> = Vec::new();
    let mut x: usize = 0;
    let ghost wanted = top.map_values(|w: Member| list[w.page].label);
    assert(text::strings(labels@) =~= wanted.take(0));
    while x < ranked.len() && x < 5
        invariant
            x <= ranked@.len(),
            x <= 5,
            n == nodes@.len(),
            list == graph::node_list(nodes@),
            order::models(ranked@) == ranked_members(list, c as int),
            forall|y: int| 0 <= y < ranked@.len() ==> 0 <= (#[trigger] ranked@[y]).page < n,
            top == first(ranked_members(list, c as int), 5),
            wanted == top.map_values(|w: Member| list[w.page].label),
            text::strings(labels@) == wanted.take(x as int),
        decreases ranked@.len() - x,
    {
        let ghost before = text::strings(labels@);
        let page: usize = ranked[x].page;
        assert(order::models(ranked@)[x as int] == ranked@[x as int].model());
        assert(top[x as int] == ranked@[x as int].model());
        assert(wanted[x as int] == nodes@[page as int].label@);
        labels.push(nodes[page].label.as_str().to_string());
        assert(text::strings(labels@) =~= before.push(wanted[x as int]));
        assert(wanted.take(x + 1) =~= wanted.take(x as int).push(wanted[x as int]));
        x += 1;
    }
    assert(order::models(ranked@).len() == ranked@.len());
    assert(wanted.take(wanted.len() as int) =~= wanted);
    CommunityInfo {
        id: c,
        node_count: m,
        intra_edges: intra,
        possible_edges: possible,
        top_nodes: labels,
    }
}

/// The communities of the nodes, in ascending order of their numbers.
pub fn community_info(nodes: &Vec<GraphNode>, edges: &Vec<(usize, usize)>) -> (r: Vec<
    CommunityInfo,
>)
    requires
        edges_join(edges@, nodes@.len()),
        communities_numbered(nodes@),
    ensures
        community_list(r@) == communities(graph::node_list(nodes@), links::pairs(edges@)),
{
    let n: usize = nodes.len();
    let ghost list = graph::node_list(nodes@);
    let ghost all = links::pairs(edges@);
    let table = links::link_table(n, edges);
    let groups = group_members(nodes);
    let mut out: Vec<CommunityInfo> = Vec::new();
    let ghost present = |c: int| has_community(list, c);
    let ghost describe = |c: int| community(list, all, c);
    let mut c: usize = 0;
    assert(community_list(out@) =~= order::select(0, present).map_values(describe));
    while c < n
        invariant
            c <= n,
            n == nodes@.len(),
            list == graph::node_list(nodes@),
            all == links::pairs(edges@),
            table.holds(all, n as nat),
            groups@.len() == n,
            forall|k: int|
                0 <= k < n ==> order::ints((#[trigger] groups@[k])@) == members(list, k),
            present == |c: int| has_community(list, c),
            describe == |c: int| community(list, all, c),
            community_list(out@) == order::select(c as nat, present).map_values(describe),
        decreases n - c,
    {
        let ghost before = community_list(out@);
        proof {
            let p = |i: int| list[i].community == c;
            order::lemma_select(n as nat, p);
            assert(order::ints(groups@[c as int]@) == members(list, c as int));
            assert(order::ints(groups@[c as int]@).len() == groups@[c as int]@.len());
            if groups@[c as int]@.len() > 0 {
                let i = order::select(n as nat, p)[0];
                assert(list[i].community == c);
            }
            if has_community(list, c as int) {
                let i = choose|i: int| 0 <= i < list.len() && (#[trigger] list[i]).community == c;
                assert(p(i));
                assert(order::select(n as nat, p).contains(i));
            }
        }
        if groups[c].len() > 0 {
            out.push(describe_community(nodes, edges, &table, &groups[c], c));
            assert(community_list(out@) =~= before.push(describe(c as int)));
            assert(order::select(c as nat, present).push(c as int).map_values(describe)
                =~= order::select(c as nat, present).map_values(describe).push(
                describe(c as int),
            ));
        }
        c += 1;
    }
    out
}

// ---------------------------------------------------------------------------------------
// Surprising connections
// ---------------------------------------------------------------------------------------

/// Whether a page belongs to the structure of the wiki and not to its knowledge.
pub open spec fn is_structural(id: Seq<char>) -> bool {
    id == "index"@ || id == "log"@ || id == "overview"@
}

/// Whether two kinds of pages are far from each other.
pub open spec fn are_distant(left: Seq<char>, right: Seq<char>) -> bool {
    let (source, concept, synthesis) = ("source"@, "concept"@, "synthesis"@);
    let (query, entity) = ("query"@, "entity"@);
    ||| left == source && right == concept
    ||| left == concept && right == source
    ||| left == source && right == synthesis
    ||| left == synthesis && right == source
    ||| left == query && right == entity
    ||| left == entity && right == query
}

/// The largest number of links that a node has, and at least one.
pub open spec fn max_degree(nodes: Seq<graph::Node>) -> nat
    decreases nodes.len(),
{
    if nodes.len() == 0 {
        1
    } else {
        let before = max_degree(nodes.drop_last());
        if nodes.last().link_count > before {
            nodes.last().link_count
        } else {
            before
        }
    }
}

/// Why a connection surprises, with how much that counts.
pub struct Reason {
    pub points: nat,
    pub text: Seq<char>,
}

/// Why the connection of two pages surprises. `weak` says whether the weight of the edge between
/// them is positive and below two, `max_degree` is the largest number of links of a page.
pub open spec fn surprise_reasons(
    source: graph::Node,
    target: graph::Node,
    weak: bool,
    max_degree: nat,
) -> Seq<Reason> {
    let crossing = if source.community != target.community {
        seq![Reason { points: 3, text: "crosses community boundary"@ }]
    } else {
        seq![]
    };
    let kinds = if source.kind == target.kind {
        seq![]
    } else if are_distant(source.kind, target.kind) {
        seq![Reason { points: 2, text: "connects "@ + source.kind + " to "@ + target.kind }]
    } else {
        seq![Reason { points: 1, text: "different types"@ }]
    };
    let (low, high) = if source.link_count <= target.link_count {
        (source.link_count, target.link_count)
    } else {
        (target.link_count, source.link_count)
    };
    let hub = if low <= 2 && 2 * high >= max_degree {
        seq![Reason { points: 2, text: "peripheral node links to hub"@ }]
    } else {
        seq![]
    };
    let weight = if weak {
        seq![Reason { points: 1, text: "weak but present connection"@ }]
    } else {
        seq![]
    };
    crossing + kinds + hub + weight
}

/// The sum of the points of reasons.
pub open spec fn points(reasons: Seq<Reason>) -> nat
    decreases reasons.len(),
{
    if reasons.len() == 0 {
        0
    } else {
        points(reasons.drop_last()) + reasons.last().points
    }
}

/// The texts of reasons.
pub open spec fn reason_texts(reasons: Seq<Reason>) -> Seq<Seq<char>> {
    reasons.map_values(|r: Reason| r.text)
}

/// The key of a pair of pages: the ids in ascending order with three colons between them.
pub open spec fn pair_key(left: Seq<char>, right: Seq<char>) -> Seq<char> {
    if text::text_le(left, right) {
        left + ":::"@ + right
    } else {
        right + ":::"@ + left
    }
}

/// A connection that surprises.
#[derive(Debug, Clone)]
pub struct SurprisingConnection {
    pub source: GraphNode,
    pub target: GraphNode,
    pub score: u32,
    pub reasons: Vec<String>,
    pub key: String,
}

/// What a connection that surprises stands for.
pub struct Surprise {
    pub source: graph::Node,
    pub target: graph::Node,
    pub score: nat,
    pub reasons: Seq<Seq<char>>,
    pub key: Seq<char>,
}

/// Connections are ordered by score, the highest first, and by key.
impl Ranked for Surprise {
    open spec fn le(self, other: Self) -> bool {
        self.score > other.score || (self.score == other.score && text::text_le(
            self.key,
            other.key,
        ))
    }

    proof fn le_total(self, other: Self) {
        text::lemma_text_total(self.key, other.key);
    }

    proof fn le_transitive(self, middle: Self, other: Self) {
        if self.score == middle.score && middle.score == other.score {
            text::lemma_text_transitive(self.key, middle.key, other.key);
        }
    }
}

impl Ordered for SurprisingConnection {
    type Model = Surprise;

    open spec fn model(&self) -> Surprise {
        Surprise {
            source: self.source@,
            target: self.target@,
            score: self.score as nat,
            reasons: text::strings(self.reasons@),
            key: self.key@,
        }
    }

    fn is_le(&self, other: &Self) -> (r: bool) {
        self.score > other.score || (self.score == other.score && text::string_at_most(
            self.key.as_str(),
            other.key.as_str(),
        ))
    }
}

/// The connection of two pages where it surprises: neither belongs to the structure of the wiki,
/// and the reasons make three points or more.
pub open spec fn surprise(
    source: graph::Node,
    target: graph::Node,
    weak: bool,
    max_degree: nat,
) -> Option<Surprise> {
    let reasons = surprise_reasons(source, target, weak, max_degree);
    if is_structural(source.id) || is_structural(target.id) || points(reasons) < 3 {
        None
    } else {
        Some(
            Surprise {
                source,
                target,
                score: points(reasons),
                reasons: reason_texts(reasons),
                key: pair_key(source.id, target.id),
            },
        )
    }
}

/// The connections along the first `k` edges that surprise.
pub open spec fn surprises(
    nodes: Seq<graph::Node>,
    edges: Seq<(int, int)>,
    weak: Seq<bool>,
    k: int,
) -> Seq<Surprise>
    decreases k,
{
    if k <= 0 {
        Seq::empty()
    } else {
        let before = surprises(nodes, edges, weak, k - 1);
        let (i, j) = edges[k - 1];
        match surprise(nodes[i], nodes[j], weak[k - 1], max_degree(nodes)) {
            Some(found) => before.push(found),
            None => before,
        }
    }
}

/// Whether a page belongs to the structure of the wiki.
fn structural(id: &str) -> (r: bool)
    ensures
        r == is_structural(id@),
{
    let id = text::to_chars(id);
    text::is_text(id.as_slice(), "index") || text::is_text(id.as_slice(), "log") || text::is_text(
        id.as_slice(),
        "overview",
    )
}

/// Whether two kinds of pages are far from each other.
fn distant(left: &str, right: &str) -> (r: bool)
    ensures
        r == are_distant(left@, right@),
{
    let (l, r) = (text::to_chars(left), text::to_chars(right));
    let (l, r): (&[char], &[char]) = (l.as_slice(), r.as_slice());
    (text::is_text(l, "source") && text::is_text(r, "concept")) || (text::is_text(l, "concept")
        && text::is_text(r, "source")) || (text::is_text(l, "source") && text::is_text(
        r,
        "synthesis",
    )) || (text::is_text(l, "synthesis") && text::is_text(r, "source")) || (text::is_text(l, "query")
        && text::is_text(r, "entity")) || (text::is_text(l, "entity") && text::is_text(r, "query"))
}

/// The largest number of links that a node has, and at least one.
fn largest_degree(nodes: &Vec<GraphNode>) -> (r: usize)
    ensures
        r == max_degree(graph::node_list(nodes@)),
{
    let ghost list = graph::node_list(nodes@);
    let mut best: usize = 1;
    let mut i: usize = 0;
    while i < nodes.len()
        invariant
            i <= nodes@.len(),
            list == graph::node_list(nodes@),
            best == max_degree(list.take(i as int)),
        decreases nodes@.len() - i,
    {
        assert(list.take(i + 1).drop_last() =~= list.take(i as int));
        if nodes[i].link_count > best {
            best = nodes[i].link_count;
        }
        i += 1;
    }
    assert(list.take(list.len() as int) =~= list);
    best
}

/// Adding a reason adds its points.
proof fn lemma_points_push(reasons: Seq<Reason>, reason: Reason)
    ensures
        points(reasons.push(reason)) == points(reasons) + reason.points,
        reason_texts(reasons.push(reason)) == reason_texts(reasons).push(reason.text),
{
    assert(reasons.push(reason).drop_last() =~= reasons);
    assert(reason_texts(reasons.push(reason)) =~= reason_texts(reasons).push(reason.text));
}

/// The connection of two pages where it surprises.
pub fn surprising_connection(
    source: &GraphNode,
    target: &GraphNode,
    weak: bool,
    max_degree: usize,
) -> (r: Option<SurprisingConnection>)
    ensures
        match r {
            Some(found) => surprise(source@, target@, weak, max_degree as nat) == Some(
                found.model(),
            ),
            None => surprise(source@, target@, weak, max_degree as nat) is None,
        },
{
    if structural(source.id.as_str()) || structural(target.id.as_str()) {
        return None;
    }
    let mut score: u32 = 0;
    let mut reasons: Vec<String> = Vec::new();
    let ghost mut given: Seq<Reason> = Seq::empty();
    assert(text::strings(reasons@) =~= reason_texts(given));
    if source.community != target.community {
        let ghost before = text::strings(reasons@);
        score = score + 3;
        reasons.push("crosses community boundary".to_string());
        proof {
            let reason = Reason { points: 3, text: "crosses community boundary"@ };
            lemma_points_push(given, reason);
            given = given.push(reason);
            assert(text::strings(reasons@) =~= before.push(reason.text));
        }
    }
    if !text::same_text(source.kind.as_str(), target.kind.as_str()) {
        let ghost before = text::strings(reasons@);
        if distant(source.kind.as_str(), target.kind.as_str()) {
            score = score + 2;
            let mut reason = "connects ".to_string();
            reason.append(source.kind.as_str());
            reason.append(" to ");
            reason.append(target.kind.as_str());
            let ghost words = reason@;
            reasons.push(reason);
            proof {
                let reason = Reason { points: 2, text: words };
                lemma_points_push(given, reason);
                given = given.push(reason);
                assert(text::strings(reasons@) =~= before.push(reason.text));
            }
        } else {
            score = score + 1;
            reasons.push("different types".to_string());
            proof {
                let reason = Reason { points: 1, text: "different types"@ };
                lemma_points_push(given, reason);
                given = given.push(reason);
                assert(text::strings(reasons@) =~= before.push(reason.text));
            }
        }
    }
    let (low, high): (usize, usize) = if source.link_count <= target.link_count {
        (source.link_count, target.link_count)
    } else {
        (target.link_count, source.link_count)
    };
    if low <= 2 && 2 * (high as u128) >= max_degree as u128 {
        let ghost before = text::strings(reasons@);
        score = score + 2;
        reasons.push("peripheral node links to hub".to_string());
        proof {
            let reason = Reason { points: 2, text: "peripheral node links to hub"@ };
            lemma_points_push(given, reason);
            given = given.push(reason);
            assert(text::strings(reasons@) =~= before.push(reason.text));
        }
    }
    if weak {
        let ghost before = text::strings(reasons@);
        score = score + 1;
        reasons.push("weak but present connection".to_string());
        proof {
            let reason = Reason { points: 1, text: "weak but present connection"@ };
            lemma_points_push(given, reason);
            given = given.push(reason);
            assert(text::strings(reasons@) =~= before.push(reason.text));
        }
    }
    assert(given =~= surprise_reasons(source@, target@, weak, max_degree as nat));
    if score < 3 {
        return None;
    }
    let (smaller, larger): (&String, &String) = if text::string_at_most(
        source.id.as_str(),
        target.id.as_str(),
    ) {
        (&source.id, &target.id)
    } else {
        (&target.id, &source.id)
    };
    let mut key = smaller.as_str().to_string();
    key.append(":::");
    key.append(larger.as_str());
    Some(SurprisingConnection { source: source.copy(), target: target.copy(), score, reasons, key })
}

/// The first `limit` of the connections that surprise, by score and by key. `weak` says of each
/// edge whether its weight is positive and below two.
pub fn surprising_connections(
    nodes: &Vec<GraphNode>,
    edges: &Vec<(usize, usize)>,
    weak: &Vec<bool>,
    limit: usize,
) -> (r: Vec<SurprisingConnection>)
    requires
        edges_join(edges@, nodes@.len()),
        weak@.len() == edges@.len(),
    ensures
        order::models(r@) == first(
            order::sorted_list(
                surprises(
                    graph::node_list(nodes@),
                    links::pairs(edges@),
                    weak@,
                    edges@.len() as int,
                ),
            ),
            limit as nat,
        ),
{
    let ghost list = graph::node_list(nodes@);
    let ghost all = links::pairs(edges@);
    let most = largest_degree(nodes);
    let mut found: Vec<SurprisingConnection> = Vec::new();
    let mut k: usize = 0;
    assert(order::models(found@) =~= surprises(list, all, weak@, 0));
    while k < edges.len()
        invariant
            k <= edges@.len(),
            weak@.len() == edges@.len(),
            edges_join(edges@, nodes@.len()),
            list == graph::node_list(nodes@),
            all == links::pairs(edges@),
            most == max_degree(list),
            order::models(found@) == surprises(list, all, weak@, k as int),
        decreases edges@.len() - k,
    {
        let ghost before = order::models(found@);
        let (i, j): (usize, usize) = edges[k];
        assert(all[k as int] == (i as int, j as int));
        assert(list[i as int] == nodes@[i as int]@ && list[j as int] == nodes@[j as int]@);
        match surprising_connection(&nodes[i], &nodes[j], weak[k], most) {
            Some(connection) => {
                let ghost model = connection.model();
                found.push(connection);
                assert(order::models(found@) =~= before.push(model));
            },
            None => {},
        }
        k += 1;
    }
    let sorted = order::sort(found);
    let ghost whole = order::models(sorted@);
    let mut out = sorted;
    if out.len() > limit {
        out.truncate(limit);
        assert(order::models(out@) =~= whole.take(limit as int));
    } else {
        assert(order::models(out@).len() == out@.len());
    }
    out
}

// ---------------------------------------------------------------------------------------
// Gaps
// ---------------------------------------------------------------------------------------

/// Something that the wiki lacks.
#[derive(Debug, Clone)]
pub struct KnowledgeGap {
    pub kind: String,
    pub title: String,
    pub description: String,
    pub node_ids: Vec<String>,
    pub suggestion: String,
}

/// What something that the wiki lacks stands for.
#[verifier::ext_equal]
pub struct Gap {
    pub kind: Seq<char>,
    pub title: Seq<char>,
    pub description: Seq<char>,
    pub node_ids: Seq<Seq<char>>,
    pub suggestion: Seq<char>,
}

impl View for KnowledgeGap {
    type V = Gap;

    open spec fn view(&self) -> Gap {
        Gap {
            kind: self.kind@,
            title: self.title@,
            description: self.description@,
            node_ids: text::strings(self.node_ids@),
            suggestion: self.suggestion@,
        }
    }
}

/// What the gaps of a list stand for.
pub open spec fn gap_list(v: Seq<KnowledgeGap>) -> Seq<Gap> {
    v.map_values(|g: KnowledgeGap| g@)
}

/// The ids of the nodes with the given numbers.
pub open spec fn ids_of(nodes: Seq<graph::Node>, list: Seq<int>) -> Seq<Seq<char>> {
    list.map_values(|i: int| nodes[i].id)
}

/// The labels of the nodes with the given numbers.
pub open spec fn labels_of(nodes: Seq<graph::Node>, list: Seq<int>) -> Seq<Seq<char>> {
    list.map_values(|i: int| nodes[i].label)
}

/// Whether a page is isolated: it is an end of one link at most, and no overview, index or log.
pub open spec fn is_isolated(node: graph::Node) -> bool {
    node.link_count <= 1 && node.kind != "overview"@ && node.id != "index"@ && node.id != "log"@
}

/// The isolated pages.
pub open spec fn isolated_pages(nodes: Seq<graph::Node>) -> Seq<int> {
    order::select(nodes.len(), |i: int| is_isolated(nodes[i]))
}

/// The labels of pages with commas between them, five at most, and how many more there are.
pub open spec fn some_labels(nodes: Seq<graph::Node>, list: Seq<int>) -> Seq<char> {
    let shown = text::joined(labels_of(nodes, first(list, 5)), ", "@);
    if list.len() > 5 {
        shown + " and "@ + text::decimal((list.len() - 5) as nat) + " more"@
    } else {
        shown
    }
}

/// The gap that isolated pages are.
pub open spec fn isolated_gap(nodes: Seq<graph::Node>) -> Gap {
    let list = isolated_pages(nodes);
    Gap {
        kind: "isolated-node"@,
        title: text::decimal(list.len()) + if list.len() == 1 {
            " isolated page"@
        } else {
            " isolated pages"@
        },
        description: some_labels(nodes, list),
        node_ids: ids_of(nodes, list),
        suggestion:
            "These pages have few or no connections. Consider adding [[wikilinks]] to related pages, or research to expand their content."@,
    }
}

/// Whether a community is sparse: it has three pages or more and a cohesion below 0.15.
pub open spec fn is_sparse(c: Community) -> bool {
    20 * c.intra_edges < 3 * c.possible_edges && c.node_count >= 3
}

/// The gap that a sparse community is. `cohesion` is its cohesion in digits.
pub open spec fn sparse_gap(nodes: Seq<graph::Node>, c: Community, cohesion: Seq<char>) -> Gap {
    Gap {
        kind: "sparse-community"@,
        title: "Sparse cluster: "@ + if c.top_nodes.len() > 0 {
            c.top_nodes[0]
        } else {
            "Community "@ + text::decimal(c.id)
        },
        description: text::decimal(c.node_count) + " pages with cohesion "@ + cohesion
            + " — internal connections are weak."@,
        node_ids: ids_of(nodes, members(nodes, c.id as int)),
        suggestion:
            "This knowledge area lacks internal cross-references. Consider adding links between these pages or researching to fill gaps."@,
    }
}

/// The gaps that the sparse ones of the first `k` communities are.
pub open spec fn sparse_gaps(
    nodes: Seq<graph::Node>,
    communities: Seq<Community>,
    cohesions: Seq<Seq<char>>,
    k: int,
) -> Seq<Gap>
    decreases k,
{
    if k <= 0 {
        Seq::empty()
    } else {
        let before = sparse_gaps(nodes, communities, cohesions, k - 1);
        if is_sparse(communities[k - 1]) {
            before.push(sparse_gap(nodes, communities[k - 1], cohesions[k - 1]))
        } else {
            before
        }
    }
}

/// Whether page `i` is joined to a page of community `c`.
pub open spec fn touches(
    nodes: Seq<graph::Node>,
    edges: Seq<(int, int)>,
    i: int,
    c: int,
) -> bool {
    exists|j: int|
        0 <= j < nodes.len() && links::adjacent(edges, i, j) && (#[trigger] nodes[j]).community == c
}

/// How many communities page `i` is joined to.
pub open spec fn touched(nodes: Seq<graph::Node>, edges: Seq<(int, int)>, i: int) -> nat {
    order::select(nodes.len(), |c: int| touches(nodes, edges, i, c)).len()
}

/// The pages that bridge three communities or more, by their number, most first. Pages that bridge
/// as many stand in ascending order of their ids.
pub open spec fn bridges(nodes: Seq<graph::Node>, edges: Seq<(int, int)>) -> Seq<Member> {
    order::sorted_list(
        order::select(
            nodes.len(),
            |i: int| !is_structural(nodes[i].id) && touched(nodes, edges, i) >= 3,
        ).map_values(
            |i: int| Member { page: i, id: nodes[i].id, link_count: touched(nodes, edges, i) },
        ),
    )
}

/// The gap that a bridge between `count` communities is.
pub open spec fn bridge_gap(node: graph::Node, count: nat) -> Gap {
    Gap {
        kind: "bridge-node"@,
        title: "Key bridge: "@ + node.label,
        description: "Connects "@ + text::decimal(count)
            + " different knowledge clusters. This is a critical junction in your wiki."@,
        node_ids: seq![node.id],
        suggestion:
            "This page bridges multiple knowledge areas. Ensure it's well-maintained — if it's thin, expanding it will strengthen your entire wiki."@,
    }
}

/// What the wiki lacks: isolated pages, sparse communities, and up to three bridges.
pub open spec fn gaps(
    nodes: Seq<graph::Node>,
    edges: Seq<(int, int)>,
    communities: Seq<Community>,
    cohesions: Seq<Seq<char>>,
) -> Seq<Gap> {
    (if isolated_pages(nodes).len() > 0 {
        seq![isolated_gap(nodes)]
    } else {
        seq![]
    }) + sparse_gaps(nodes, communities, cohesions, communities.len() as int) + first(
        bridges(nodes, edges),
        3,
    ).map_values(|m: Member| bridge_gap(nodes[m.page], m.link_count))
}

/// The ids of the nodes with the given numbers.
fn copy_ids(nodes: &Vec<GraphNode>, list: &Vec<usize>) -> (r: Vec<String>)
    requires
        forall|k: int| 0 <= k < list@.len() ==> #[trigger] list@[k] < nodes@.len(),
    ensures
        text::strings(r@) == ids_of(graph::node_list(nodes@), order::ints(list@)),
{
    let ghost wanted = ids_of(graph::node_list(nodes@), order::ints(list@));
    let mut out: Vec<String> = Vec::new();
    let mut i: usize = 0;
    while i < list.len()
        invariant
            i <= list@.len(),
            forall|k: int| 0 <= k < list@.len() ==> #[trigger] list@[k] < nodes@.len(),
            wanted == ids_of(graph::node_list(nodes@), order::ints(list@)),
            text::strings(out@) =~= wanted.take(i as int),
        decreases list@.len() - i,
    {
        let ghost before = text::strings(out@);
        let page: usize = list[i];
        assert(wanted[i as int] == nodes@[page as int].id@);
        out.push(nodes[page].id.as_str().to_string());
        assert(text::strings(out@) =~= before.push(wanted[i as int]));
        i += 1;
    }
    assert(text::strings(out@) =~= wanted);
    out
}

/// The labels of pages with commas between them, five at most, and how many more there are.
fn list_some_labels(nodes: &Vec<GraphNode>, list: &Vec<usize>) -> (r: String)
    requires
        forall|k: int| 0 <= k < list@.len() ==> #[trigger] list@[k] < nodes@.len(),
    ensures
        r@ == some_labels(graph::node_list(nodes@), order::ints(list@)),
{
    let ghost all = order::ints(list@);
    let ghost wanted = labels_of(graph::node_list(nodes@), first(all, 5));
    let mut labels: Vec<Vec<char>> = Vec::new();
    let mut i: usize = 0;
    while i < list.len() && i < 5
        invariant
            i <= list@.len(),
            i <= 5,
            forall|k: int| 0 <= k < list@.len() ==> #[trigger] list@[k] < nodes@.len(),
            all == order::ints(list@),
            wanted == labels_of(graph::node_list(nodes@), first(all, 5)),
            text::texts(labels@) =~= wanted.take(i as int),
        decreases list@.len() - i,
    {
        let ghost before = text::texts(labels@);
        let page: usize = list[i];
        assert(all[i as int] == page);
        assert(first(all, 5)[i as int] == page);
        assert(wanted[i as int] == nodes@[page as int].label@);
        labels.push(text::to_chars(nodes[page].label.as_str()));
        assert(text::texts(labels@) =~= before.push(wanted[i as int]));
        i += 1;
    }
    assert(text::texts(labels@) =~= wanted);
    let shown = text::join(&labels, text::to_chars(", ").as_slice());
    let mut out = text::to_text(shown.as_slice());
    let count: usize = list.len();
    if count > 5 {
        out.append(" and ");
        out.append(text::decimal_text((count - 5) as u64).as_str());
        out.append(" more");
    }
    out
}

/// The gap that isolated pages are, where there are any.
fn find_isolated(nodes: &Vec<GraphNode>) -> (r: Option<KnowledgeGap>)
    ensures
        match r {
            Some(gap) => isolated_pages(graph::node_list(nodes@)).len() > 0 && gap@
                == isolated_gap(graph::node_list(nodes@)),
            None => isolated_pages(graph::node_list(nodes@)).len() == 0,
        },
{
    let ghost all = graph::node_list(nodes@);
    let ghost p = |i: int| is_isolated(all[i]);
    let mut list: Vec<usize> = Vec::new();
    let mut i: usize = 0;
    assert(order::ints(list@) =~= order::select(0, p));
    while i < nodes.len()
        invariant
            i <= nodes@.len(),
            all == graph::node_list(nodes@),
            p == |i: int| is_isolated(all[i]),
            order::ints(list@) == order::select(i as nat, p),
            forall|k: int| 0 <= k < list@.len() ==> #[trigger] list@[k] < nodes@.len(),
        decreases nodes@.len() - i,
    {
        let ghost before = order::ints(list@);
        let node: &GraphNode = &nodes[i];
        assert(all[i as int] == node@);
        let isolated = node.link_count <= 1 && !text::same_text(node.kind.as_str(), "overview")
            && !text::same_text(node.id.as_str(), "index") && !text::same_text(
            node.id.as_str(),
            "log",
        );
        assert(isolated == p(i as int));
        if isolated {
            list.push(i);
            assert(order::ints(list@) =~= before.push(i as int));
        }
        i += 1;
    }
    let count: usize = list.len();
    assert(order::ints(list@).len() == count);
    if count == 0 {
        return None;
    }
    let mut title = text::decimal_text(count as u64);
    title.append(
        if count == 1 {
            " isolated page"
        } else {
            " isolated pages"
        },
    );
    Some(
        KnowledgeGap {
            kind: "isolated-node".to_string(),
            title,
            description: list_some_labels(nodes, &list),
            node_ids: copy_ids(nodes, &list),
            suggestion:
                "These pages have few or no connections. Consider adding [[wikilinks]] to related pages, or research to expand their content.".to_string(),
        },
    )
}

/// Whether a community is sparse.
pub fn sparse(community: &CommunityInfo) -> (r: bool)
    ensures
        r == is_sparse(community@),
{
    let (q, rest): (u128, u128) = (community.possible_edges / 20, community.possible_edges % 20);
    assert(20 * q + rest == community.possible_edges);
    assert(20 * community.intra_edges < 3 * community.possible_edges <==> community.intra_edges < 3
        * q + (3 * rest + 19) / 20);
    community.intra_edges < 3 * q + (3 * rest + 19) / 20 && community.node_count >= 3
}

/// The gap that a sparse community is.
fn describe_sparse(nodes: &Vec<GraphNode>, community: &CommunityInfo, cohesion: &str) -> (r:
    KnowledgeGap)
    ensures
        r@ == sparse_gap(graph::node_list(nodes@), community@, cohesion@),
{
    let ghost all = graph::node_list(nodes@);
    let ghost p = |i: int| all[i].community == community@.id as int;
    let mut list: Vec<usize> = Vec::new();
    let mut i: usize = 0;
    assert(order::ints(list@) =~= order::select(0, p));
    while i < nodes.len()
        invariant
            i <= nodes@.len(),
            all == graph::node_list(nodes@),
            p == |i: int| all[i].community == community@.id as int,
            order::ints(list@) == order::select(i as nat, p),
            forall|k: int| 0 <= k < list@.len() ==> #[trigger] list@[k] < nodes@.len(),
        decreases nodes@.len() - i,
    {
        let ghost before = order::ints(list@);
        assert(all[i as int] == nodes@[i as int]@);
        if nodes[i].community == community.id {
            list.push(i);
            assert(order::ints(list@) =~= before.push(i as int));
        }
        i += 1;
    }
    let mut title = "Sparse cluster: ".to_string();
    if community.top_nodes.len() > 0 {
        assert(text::strings(community.top_nodes@)[0] == community.top_nodes@[0]@);
        title.append(community.top_nodes[0].as_str());
    } else {
        let mut name = "Community ".to_string();
        name.append(text::decimal_text(community.id as u64).as_str());
        title.append(name.as_str());
    }
    let mut description = text::decimal_text(community.node_count as u64);
    description.append(" pages with cohesion ");
    description.append(cohesion);
    description.append(" — internal connections are weak.");
    KnowledgeGap {
        kind: "sparse-community".to_string(),
        title,
        description,
        node_ids: copy_ids(nodes, &list),
        suggestion:
            "This knowledge area lacks internal cross-references. Consider adding links between these pages or researching to fill gaps.".to_string(),
    }
}

/// How many communities page `i` is joined to.
fn count_touched(
    nodes: &Vec<GraphNode>,
    edges: &Vec<(usize, usize)>,
    table: &links::LinkTable,
    i: usize,
) -> (r: usize)
    requires
        communities_numbered(nodes@),
        table.holds(links::pairs(edges@), nodes@.len()),
        i < nodes@.len(),
    ensures
        r == touched(graph::node_list(nodes@), links::pairs(edges@), i as int),
{
    let n: usize = nodes.len();
    let ghost list = graph::node_list(nodes@);
    let ghost all = links::pairs(edges@);
    let ghost near = |j: int| links::adjacent(all, i as int, j);
    let around = links::neighbors(n, edges, table, i);
    proof {
        order::lemma_select(n as nat, near);
        order::lemma_ints(around@);
    }
    let mut found: Vec<usize> = Vec::new();
    let mut k: usize = 0;
    while k < around.len()
        invariant
            k <= around@.len(),
            n == nodes@.len(),
            list == graph::node_list(nodes@),
            communities_numbered(nodes@),
            near == |j: int| links::adjacent(all, i as int, j),
            forall|x: usize| #[trigger] around@.contains(x) <==> x < n && near(x as int),
            order::rising(order::ints(found@)),
            forall|c: usize|
                #[trigger] found@.contains(c) <==> exists|y: int|
                    0 <= y < k && list[#[trigger] around@[y] as int].community == c,
        decreases around@.len() - k,
    {
        let page: usize = around[k];
        assert(around@.contains(page));
        let ghost before = found@;
        let c: usize = nodes[page].community;
        assert(list[page as int].community == c);
        order::add_index(&mut found, c);
        assert forall|d: usize|
            #[trigger] found@.contains(d) <==> exists|y: int|
                0 <= y < k + 1 && list[#[trigger] around@[y] as int].community == d by {
            assert(found@.to_set().contains(d) <==> found@.contains(d));
            assert(before.to_set().contains(d) <==> before.contains(d));
            if before.contains(d) {
                let y = choose|y: int|
                    0 <= y < k && list[#[trigger] around@[y] as int].community == d;
                assert(list[around@[y] as int].community == d);
            }
            if d == c {
                assert(list[around@[k as int] as int].community == d);
            }
        }
        k += 1;
    }
    proof {
        let p = |c: int| touches(list, all, i as int, c);
        assert forall|c: usize| #[trigger] found@.contains(c) <==> c < n && p(c as int) by {
            if found@.contains(c) {
                let y = choose|y: int|
                    0 <= y < around@.len() && list[#[trigger] around@[y] as int].community == c;
                assert(around@.contains(around@[y]));
                assert(nodes@[around@[y] as int].community < n);
                assert(list[around@[y] as int].community == c);
            }
            if c < n && touches(list, all, i as int, c as int) {
                let j = choose|j: int|
                    0 <= j < list.len() && links::adjacent(all, i as int, j) && (
                    #[trigger] list[j]).community == c;
                assert(around@.contains(j as usize));
                let y = choose|y: int| 0 <= y < around@.len() && around@[y] == j as usize;
                assert(list[around@[y] as int].community == c);
            }
        }
        order::lemma_selected(found@, n as nat, p);
        assert(order::ints(found@).len() == found@.len());
    }
    found.len()
}

/// The gaps that the first three bridges are.
fn find_bridges(nodes: &Vec<GraphNode>, edges: &Vec<(usize, usize)>) -> (r: Vec<KnowledgeGap>)
    requires
        edges_join(edges@, nodes@.len()),
        communities_numbered(nodes@),
    ensures
        gap_list(r@) == first(
            bridges(graph::node_list(nodes@), links::pairs(edges@)),
            3,
        ).map_values(
            |m: Member| bridge_gap(graph::node_list(nodes@)[m.page], m.link_count),
        ),
{
    let n: usize = nodes.len();
    let ghost list = graph::node_list(nodes@);
    let ghost all = links::pairs(edges@);
    let table = links::link_table(n, edges);
    let ghost p = |i: int| !is_structural(list[i].id) && touched(list, all, i) >= 3;
    let ghost count = |i: int| Member { page: i, id: list[i].id, link_count: touched(list, all, i) };
    let mut found: Vec<CountedPage> = Vec::new();
    let mut i: usize = 0;
    assert(order::models(found@) =~= order::select(0, p).map_values(count));
    while i < n
        invariant
            i <= n,
            n == nodes@.len(),
            communities_numbered(nodes@),
            list == graph::node_list(nodes@),
            all == links::pairs(edges@),
            table.holds(all, n as nat),
            p == |i: int| !is_structural(list[i].id) && touched(list, all, i) >= 3,
            count == (|i: int| Member { page: i, id: list[i].id, link_count: touched(list, all, i) }),
            order::models(found@) == order::select(i as nat, p).map_values(count),
            forall|k: int| 0 <= k < found@.len() ==> (#[trigger] found@[k]).page < n,
        decreases n - i,
    {
        let ghost before = order::models(found@);
        assert(list[i as int] == nodes@[i as int]@);
        if !structural(nodes[i].id.as_str()) {
            let touching = count_touched(nodes, edges, &table, i);
            if touching >= 3 {
                found.push(
                    CountedPage { page: i, id: nodes[i].id.as_str().to_string(), count: touching },
                );
                assert(order::models(found@) =~= before.push(count(i as int)));
                assert(order::select(i as nat, p).push(i as int).map_values(count) =~= order::select(
                    i as nat,
                    p,
                ).map_values(count).push(count(i as int)));
            }
        }
        i += 1;
    }
    let ghost unsorted = order::models(found@);
    let ghost pages_ok = found@;
    let ranked = order::sort(found);
    let ghost top = first(bridges(list, all), 3);
    proof {
        assert(unsorted == order::select(n as nat, p).map_values(count));
        assert(order::models(ranked@) == bridges(list, all));
        assert forall|x: int| 0 <= x < ranked@.len() implies (#[trigger] ranked@[x]).page < n by {
            broadcast use vstd::seq_lib::group_to_multiset_ensures;

            assert(ranked@.contains(ranked@[x]));
            assert(ranked@.to_multiset().count(ranked@[x]) > 0);
            assert(pages_ok.contains(ranked@[x]));
            let y = choose|y: int| 0 <= y < pages_ok.len() && pages_ok[y] == ranked@[x];
            assert(pages_ok[y].page < n);
        }
    }
    let ghost wanted = top.map_values(|m: Member| bridge_gap(list[m.page], m.link_count));
    let mut out: Vec<KnowledgeGap> = Vec::new();
    let mut x: usize = 0;
    assert(gap_list(out@) =~= wanted.take(0));
    while x < ranked.len() && x < 3
        invariant
            x <= ranked@.len(),
            x <= 3,
            n == nodes@.len(),
            list == graph::node_list(nodes@),
            order::models(ranked@) == bridges(list, all),
            forall|y: int| 0 <= y < ranked@.len() ==> (#[trigger] ranked@[y]).page < n,
            top == first(bridges(list, all), 3),
            wanted == top.map_values(|m: Member| bridge_gap(list[m.page], m.link_count)),
            gap_list(out@) == wanted.take(x as int),
        decreases ranked@.len() - x,
    {
        let ghost before = gap_list(out@);
        let bridge: &CountedPage = &ranked[x];
        assert(order::models(ranked@)[x as int] == bridge.model());
        assert(top[x as int] == bridge.model());
        let node: &GraphNode = &nodes[bridge.page];
        assert(list[bridge.page as int] == node@);
        let mut title = "Key bridge: ".to_string();
        title.append(node.label.as_str());
        let mut description = "Connects ".to_string();
        description.append(text::decimal_text(bridge.count as u64).as_str());
        description.append(
            " different knowledge clusters. This is a critical junction in your wiki.",
        );
        let mut node_ids: Vec<String> = Vec::new();
        node_ids.push(node.id.as_str().to_string());
        assert(text::strings(node_ids@) =~= seq![node.id@]);
        let gap = KnowledgeGap {
            kind: "bridge-node".to_string(),
            title,
            description,
            node_ids,
            suggestion:
                "This page bridges multiple knowledge areas. Ensure it's well-maintained — if it's thin, expanding it will strengthen your entire wiki.".to_string(),
        };
        assert(gap@ =~= wanted[x as int]);
        out.push(gap);
        assert(gap_list(out@) =~= before.push(wanted[x as int]));
        assert(wanted.take(x + 1) =~= wanted.take(x as int).push(wanted[x as int]));
        x += 1;
    }
    assert(order::models(ranked@).len() == ranked@.len());
    assert(wanted.take(wanted.len() as int) =~= wanted);
    out
}

/// The first `limit` of the things that the wiki lacks. `cohesions` holds the cohesion of each
/// community in digits.
pub fn knowledge_gaps(
    nodes: &Vec<GraphNode>,
    edges: &Vec<(usize, usize)>,
    communities: &Vec<CommunityInfo>,
    cohesions: &Vec<String>,
    limit: usize,
) -> (r: Vec<KnowledgeGap>)
    requires
        edges_join(edges@, nodes@.len()),
        communities_numbered(nodes@),
        cohesions@.len() == communities@.len(),
    ensures
        gap_list(r@) == first(
            gaps(
                graph::node_list(nodes@),
                links::pairs(edges@),
                community_list(communities@),
                text::strings(cohesions@),
            ),
            limit as nat,
        ),
{
    let ghost list = graph::node_list(nodes@);
    let ghost all = links::pairs(edges@);
    let ghost known = community_list(communities@);
    let ghost words = text::strings(cohesions@);
    let mut out: Vec<KnowledgeGap> = Vec::new();
    match find_isolated(nodes) {
        Some(gap) => {
            out.push(gap);
        },
        None => {},
    }
    let ghost alone: Seq<Gap> = if isolated_pages(list).len() > 0 {
        seq![isolated_gap(list)]
    } else {
        seq![]
    };
    assert(gap_list(out@) =~= alone);
    let mut k: usize = 0;
    assert(alone + sparse_gaps(list, known, words, 0) =~= alone);
    while k < communities.len()
        invariant
            k <= communities@.len(),
            cohesions@.len() == communities@.len(),
            list == graph::node_list(nodes@),
            known == community_list(communities@),
            words == text::strings(cohesions@),
            gap_list(out@) == alone + sparse_gaps(list, known, words, k as int),
        decreases communities@.len() - k,
    {
        let ghost before = gap_list(out@);
        assert(known[k as int] == communities@[k as int]@);
        assert(words[k as int] == cohesions@[k as int]@);
        if sparse(&communities[k]) {
            let gap = describe_sparse(nodes, &communities[k], cohesions[k].as_str());
            let ghost model = gap@;
            out.push(gap);
            assert(gap_list(out@) =~= before.push(model));
            assert(before.push(model) =~= alone + sparse_gaps(list, known, words, k as int).push(
                model,
            ));
        }
        k += 1;
    }
    let ghost start = gap_list(out@);
    let mut crossings = find_bridges(nodes, edges);
    let ghost found = gap_list(crossings@);
    let ghost crossings0 = crossings@;
    let ghost out0 = out@;
    out.append(&mut crossings);
    assert(gap_list(out@) =~= start + found);
    let ghost whole = gap_list(out@);
    assert(whole =~= gaps(list, all, known, words));
    if out.len() > limit {
        out.truncate(limit);
        assert(gap_list(out@) =~= whole.take(limit as int));
    } else {
        assert(whole.len() == out@.len());
    }
    out
}

// ---------------------------------------------------------------------------------------
// Neighbours of found pages
// ---------------------------------------------------------------------------------------

/// Whether page `i` is the last one with its path, and its path is one of `seeds`.
pub open spec fn is_seed(list: Seq<Seq<char>>, seeds: Set<Seq<char>>, i: int) -> bool {
    &&& seeds.contains(list[i])
    &&& forall|k: int| i < k < list.len() ==> #[trigger] list[k] != list[i]
}

/// Whether `path` is that of a page which is no seed and is joined to one along the first `k`
/// edges, where `list` holds the paths of the pages.
pub open spec fn is_beside(
    list: Seq<Seq<char>>,
    edges: Seq<(int, int)>,
    seeds: Set<Seq<char>>,
    k: int,
    path: Seq<char>,
) -> bool {
    exists|e: int|
        {
            let (i, j) = #[trigger] edges[e];
            &&& 0 <= e < k
            &&& ({
                ||| is_seed(list, seeds, i) && !is_seed(list, seeds, j) && list[j] == path
                ||| is_seed(list, seeds, j) && !is_seed(list, seeds, i) && list[i] == path
            })
        }
}

/// The paths of the pages that are joined to a page with one of the paths `seeds`, and have no
/// such path themselves. `paths` holds the paths of all pages.
pub fn neighbor_paths(
    paths: &Vec<String>,
    edges: &Vec<(usize, usize)>,
    seeds: &TextSet,
) -> (r: TextSet)
    requires
        edges_join(edges@, paths@.len()),
        seeds.wf(),
    ensures
        r.wf(),
        forall|path: Seq<char>|
            #[trigger] r.set().contains(path) <==> is_beside(
                text::strings(paths@),
                links::pairs(edges@),
                seeds.set(),
                edges@.len() as int,
                path,
            ),
{
    let n: usize = paths.len();
    let ghost list = text::strings(paths@);
    let ghost all = links::pairs(edges@);
    let ghost wanted = seeds.set();
    let mut is_start: Vec<bool> = Vec::new();
    let mut i: usize = 0;
    while i < n
        invariant
            i <= n,
            is_start@.len() == i,
        decreases n - i,
    {
        is_start.push(false);
        i += 1;
    }
    let mut later = TextSet::new();
    while i > 0
        invariant
            i <= n,
            n == paths@.len(),
            list == text::strings(paths@),
            seeds.wf(),
            wanted == seeds.set(),
            later.wf(),
            is_start@.len() == n,
            forall|path: Seq<char>|
                #[trigger] later.set().contains(path) <==> exists|k: int|
                    i <= k < n && #[trigger] list[k] == path,
            forall|k: int| i <= k < n ==> #[trigger] is_start@[k] == is_seed(list, wanted, k),
        decreases i,
    {
        i -= 1;
        let path = text::to_chars(paths[i].as_str());
        assert(list[i as int] == path@);
        let found = seeds.contains(path.as_slice());
        let ghost before = later.set();
        let fresh = later.insert(path);
        is_start[i] = fresh && found;
        assert forall|p: Seq<char>|
            #[trigger] later.set().contains(p) <==> exists|k: int|
                i <= k < n && #[trigger] list[k] == p by {
            if before.contains(p) {
                let k = choose|k: int| i + 1 <= k < n && #[trigger] list[k] == p;
                assert(list[k] == p);
            }
            if p == list[i as int] {
                assert(list[i as int] == p);
            }
        }
    }
    let mut out = TextSet::new();
    let mut k: usize = 0;
    while k < edges.len()
        invariant
            k <= edges@.len(),
            n == paths@.len(),
            edges_join(edges@, n as nat),
            list == text::strings(paths@),
            all == links::pairs(edges@),
            wanted == seeds.set(),
            is_start@.len() == n,
            forall|x: int| 0 <= x < n ==> #[trigger] is_start@[x] == is_seed(list, wanted, x),
            out.wf(),
            forall|path: Seq<char>|
                #[trigger] out.set().contains(path) <==> is_beside(
                    list,
                    all,
                    wanted,
                    k as int,
                    path,
                ),
        decreases edges@.len() - k,
    {
        let (a, b): (usize, usize) = edges[k];
        let ghost before = out.set();
        assert(all[k as int] == (a as int, b as int));
        assert(list[a as int] == paths@[a as int]@);
        assert(list[b as int] == paths@[b as int]@);
        if is_start[a] && !is_start[b] {
            out.insert(text::to_chars(paths[b].as_str()));
        } else if is_start[b] && !is_start[a] {
            out.insert(text::to_chars(paths[a].as_str()));
        }
        assert forall|path: Seq<char>|
            #[trigger] out.set().contains(path) <==> is_beside(
                list,
                all,
                wanted,
                k + 1,
                path,
            ) by {
            if before.contains(path) {
                let e = choose|e: int|
                    {
                        let (i, j) = #[trigger] all[e];
                        &&& 0 <= e < k
                        &&& ({
                            ||| is_seed(list, wanted, i) && !is_seed(list, wanted, j)
                                && list[j] == path
                            ||| is_seed(list, wanted, j) && !is_seed(list, wanted, i)
                                && list[i] == path
                        })
                    };
                assert(0 <= e < k + 1 && all[e] == all[e]);
            }
        }
        k += 1;
    }
    out
}

/// A page beside the pages found is none of them, where the pages have different paths.
pub proof fn lemma_neighbours_are_new(
    list: Seq<Seq<char>>,
    edges: Seq<(int, int)>,
    seeds: Set<Seq<char>>,
    path: Seq<char>,
)
    requires
        list.no_duplicates(),
        forall|e: int|
            0 <= e < edges.len() ==> 0 <= (#[trigger] edges[e]).0 < list.len() && 0 <= edges[e].1
                < list.len(),
        is_beside(list, edges, seeds, edges.len() as int, path),
    ensures
        !seeds.contains(path),
{
}

// ---------------------------------------------------------------------------------------
// The whole graph
// ---------------------------------------------------------------------------------------

/// How many surprising connections of a graph are shown.
pub const SURPRISES_SHOWN: usize = 5;

/// How many gaps of a graph are shown.
pub const GAPS_SHOWN: usize = 8;

/// What is shown of a graph, apart from its edges and its gaps.
pub struct GraphReport {
    pub nodes: Vec<GraphNode>,
    pub communities: Vec<CommunityInfo>,
    pub surprising_connections: Vec<SurprisingConnection>,
}

/// The nodes of a graph, where label propagation has given its pages the labels `labels`.
pub open spec fn nodes_of(graph: WikiGraph, labels: Seq<usize>) -> Seq<graph::Node> {
    Seq::new(
        graph.nodes@.len(),
        |i: int| graph::graph_node(graph::linked_pages(graph.nodes@), order::ints(labels), i),
    )
}

impl GraphReport {
    /// Whether the report is that of a graph, where label propagation has given its pages the
    /// labels `labels`, and `weak` says of each edge whether its weight is positive and below two.
    pub open spec fn is_of(&self, graph: WikiGraph, labels: Seq<usize>, weak: Seq<bool>) -> bool {
        let nodes = nodes_of(graph, labels);
        let edges = links::pairs(graph.edges@);
        &&& graph::node_list(self.nodes@) == nodes
        &&& community_list(self.communities@) == communities(nodes, edges)
        &&& order::models(self.surprising_connections@) == first(
            order::sorted_list(surprises(nodes, edges, weak, edges.len() as int)),
            SURPRISES_SHOWN as nat,
        )
    }
}

/// What is shown of a graph, where label propagation has given its pages the labels `labels`, and
/// `weak` says of each edge whether its weight is positive and below two.
pub fn report_graph(graph: &WikiGraph, labels: &Vec<usize>, weak: &Vec<bool>) -> (r: GraphReport)
    requires
        graph.wf(),
        labels@.len() == graph.nodes@.len(),
        forall|i: int| 0 <= i < labels@.len() ==> #[trigger] labels@[i] < labels@.len(),
        weak@.len() == graph.edges@.len(),
    ensures
        r.is_of(*graph, labels@, weak@),
{
    let nodes = graph::graph_nodes(graph, labels);
    proof {
        lemma_report_nodes(*graph, labels@, nodes@);
    }
    let communities = community_info(&nodes, &graph.edges);
    let surprising_connections = surprising_connections(&nodes, &graph.edges, weak, SURPRISES_SHOWN);
    GraphReport { nodes, communities, surprising_connections }
}

/// The edges of a graph join its nodes, and the numbers of their communities are below the number
/// of nodes.
proof fn lemma_report_nodes(graph: WikiGraph, labels: Seq<usize>, nodes: Seq<GraphNode>)
    requires
        graph.wf(),
        labels.len() == graph.nodes@.len(),
        graph::node_list(nodes) == nodes_of(graph, labels),
    ensures
        nodes.len() == graph.nodes@.len(),
        edges_join(graph.edges@, nodes.len()),
        communities_numbered(nodes),
{
    let list = graph::linked_pages(graph.nodes@);
    let ints = order::ints(labels);
    assert(graph::node_list(nodes).len() == nodes.len());
    graph::lemma_edges_join_pages(list);
    assert forall|i: int| 0 <= i < nodes.len() implies (#[trigger] nodes[i]).community
        < nodes.len() by {
        assert(graph::node_list(nodes)[i] == nodes[i]@);
        communities::lemma_community_order(ints, i, i);
        order::lemma_select(ints.len(), |j: int| communities::is_first(ints, j));
    }
}

/// The gaps of a graph that are shown. `cohesions` holds the cohesion of each community in digits.
pub fn report_gaps(
    graph: &WikiGraph,
    labels: &Vec<usize>,
    weak: &Vec<bool>,
    report: &GraphReport,
    cohesions: &Vec<String>,
) -> (r: Vec<KnowledgeGap>)
    requires
        graph.wf(),
        labels@.len() == graph.nodes@.len(),
        report.is_of(*graph, labels@, weak@),
        cohesions@.len() == report.communities@.len(),
    ensures
        gap_list(r@) == first(
            gaps(
                nodes_of(*graph, labels@),
                links::pairs(graph.edges@),
                communities(nodes_of(*graph, labels@), links::pairs(graph.edges@)),
                text::strings(cohesions@),
            ),
            GAPS_SHOWN as nat,
        ),
{
    proof {
        lemma_report_nodes(*graph, labels@, report.nodes@);
    }
    knowledge_gaps(&report.nodes, &graph.edges, &report.communities, cohesions, GAPS_SHOWN)
}

} // verus!
