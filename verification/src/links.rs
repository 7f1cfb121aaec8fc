//! The links between the pages of a wiki.
//!
//! Pages are numbered by their place in the ascending list of page ids. A link names a page in
//! words. Resolving it gives the number of that page, and everything behind it is stated over
//! pairs of numbers.

use crate::order;
use crate::order::TextSet;
use crate::outside;
use crate::text;
use vstd::prelude::*;

verus! {

// ---------------------------------------------------------------------------------------
// Resolving
// ---------------------------------------------------------------------------------------

/// The words of a text with hyphens between them.
pub open spec fn dashed(s: Seq<char>) -> Seq<char> {
    text::joined(text::words(s), "-"@)
}

/// Whether a link names a page, both in lower case: they are the same, or they are with hyphens
/// between the words of the link, or with hyphens between the words of both.
pub open spec fn names(link: Seq<char>, id: Seq<char>) -> bool {
    id == link || id == dashed(link) || dashed(id) == dashed(link)
}

/// The first of the ids from `from` on that a link names, all in lower case.
pub open spec fn first_named(link: Seq<char>, ids: Seq<Seq<char>>, from: int) -> Option<int>
    decreases ids.len() - from,
{
    if from < 0 || from >= ids.len() {
        None
    } else if names(link, ids[from]) {
        Some(from)
    } else {
        first_named(link, ids, from + 1)
    }
}

/// The page that a link names: the one with that very id, or else the first one that it names in
/// lower case. `link_lower` and `ids_lower` are the link and the ids in lower case.
pub open spec fn resolved(
    link: Seq<char>,
    link_lower: Seq<char>,
    ids: Seq<Seq<char>>,
    ids_lower: Seq<Seq<char>>,
) -> Option<int> {
    if ids.contains(link) {
        Some(ids.index_of(link))
    } else {
        first_named(link_lower, ids_lower, 0)
    }
}

/// The texts in lower case.
pub open spec fn lowered(s: Seq<Seq<char>>) -> Seq<Seq<char>> {
    s.map_values(|x: Seq<char>| outside::lowercase(x))
}

/// The words of a text with hyphens between them.
pub fn dash(s: &[char]) -> (r: Vec<char>)
    ensures
        r@ == dashed(s@),
{
    text::join(&text::split_words(s), text::to_chars("-").as_slice())
}

/// The page ids that links are resolved against.
pub struct LinkIndex {
    ids: TextSet,
    lower: Vec<Vec<char>>,
    dashed: Vec<Vec<char>>,
}

impl LinkIndex {
    /// The ids, in ascending order.
    pub closed spec fn ids(&self) -> Seq<Seq<char>> {
        self.ids.list()
    }

    /// The ids in lower case.
    pub closed spec fn ids_lower(&self) -> Seq<Seq<char>> {
        text::texts(self.lower@)
    }

    /// The ids are in ascending order, and each has its lower case.
    pub closed spec fn wf(&self) -> bool {
        &&& self.ids.wf()
        &&& self.lower@.len() == self.ids.list().len()
        &&& self.dashed@.len() == self.lower@.len()
        &&& forall|i: int|
            0 <= i < self.lower@.len() ==> (#[trigger] self.dashed@[i])@ == dashed(self.lower@[i]@)
    }

    /// The index of the ids with the given lower case.
    pub fn of_lowered(ids: TextSet, lower: Vec<Vec<char>>) -> (r: LinkIndex)
        requires
            ids.wf(),
            lower@.len() == ids.list().len(),
        ensures
            r.wf(),
            r.ids() == ids.list(),
            r.ids_lower() == text::texts(lower@),
    {
        let mut hyphens: Vec<Vec<char>> = Vec::new();
        let mut i: usize = 0;
        while i < lower.len()
            invariant
                i <= lower@.len(),
                hyphens@.len() == i,
                forall|k: int| 0 <= k < i ==> (#[trigger] hyphens@[k])@ == dashed(lower@[k]@),
            decreases lower@.len() - i,
        {
            hyphens.push(dash(lower[i].as_slice()));
            i += 1;
        }
        LinkIndex { ids, lower, dashed: hyphens }
    }

    /// The index of the ids.
    pub fn new(ids: TextSet) -> (r: LinkIndex)
        requires
            ids.wf(),
        ensures
            r.wf(),
            r.ids() == ids.list(),
            r.ids_lower() == lowered(ids.list()),
    {
        let mut lower: Vec<Vec<char>> = Vec::new();
        let mut i: usize = 0;
        while i < ids.len()
            invariant
                i <= ids.list().len(),
                lower@.len() == i,
                forall|k: int|
                    0 <= k < i ==> (#[trigger] lower@[k])@ == outside::lowercase(ids.list()[k]),
            decreases ids.list().len() - i,
        {
            let id = text::to_text(ids.get(i));
            lower.push(text::to_chars(id.as_str().to_lowercase().as_str()));
            i += 1;
        }
        assert(text::texts(lower@) =~= lowered(ids.list()));
        LinkIndex::of_lowered(ids, lower)
    }

    /// The page that a link names, given the link in lower case too.
    pub fn resolve_lowered(&self, link: &[char], link_lower: &[char]) -> (r: Option<usize>)
        requires
            self.wf(),
        ensures
            match r {
                Some(i) => resolved(link@, link_lower@, self.ids(), self.ids_lower()) == Some(
                    i as int,
                ) && i < self.ids().len(),
                None => resolved(link@, link_lower@, self.ids(), self.ids_lower()) is None,
            },
    {
        match self.ids.position(link) {
            Some(i) => {
                proof {
                    self.ids.lemma_index_of(i as int);
                }
                return Some(i);
            },
            None => {
                assert(!self.ids.list().to_set().contains(link@));
            },
        }
        let with_hyphens = dash(link_lower);
        let mut i: usize = 0;
        while i < self.lower.len()
            invariant
                i <= self.lower@.len(),
                self.wf(),
                !self.ids().contains(link@),
                with_hyphens@ == dashed(link_lower@),
                first_named(link_lower@, self.ids_lower(), i as int) == first_named(
                    link_lower@,
                    self.ids_lower(),
                    0,
                ),
            decreases self.lower@.len() - i,
        {
            assert(self.ids_lower()[i as int] == self.lower@[i as int]@);
            let id: &[char] = self.lower[i].as_slice();
            if text::same(id, link_lower) || text::same(id, with_hyphens.as_slice()) || text::same(
                self.dashed[i].as_slice(),
                with_hyphens.as_slice(),
            ) {
                return Some(i);
            }
            i += 1;
        }
        None
    }

    /// The page that a link names.
    pub fn resolve_target(&self, link: &str) -> (r: Option<usize>)
        requires
            self.wf(),
        ensures
            match r {
                Some(i) => resolved(
                    link@,
                    outside::lowercase(link@),
                    self.ids(),
                    self.ids_lower(),
                ) == Some(i as int) && i < self.ids().len(),
                None => resolved(
                    link@,
                    outside::lowercase(link@),
                    self.ids(),
                    self.ids_lower(),
                ) is None,
            },
    {
        let lower = link.to_lowercase();
        self.resolve_lowered(
            text::to_chars(link).as_slice(),
            text::to_chars(lower.as_str()).as_slice(),
        )
    }
}

/// A link names a page of the index where it names one at all.
pub proof fn lemma_resolved(
    link: Seq<char>,
    link_lower: Seq<char>,
    ids: Seq<Seq<char>>,
    ids_lower: Seq<Seq<char>>,
)
    requires
        ids_lower.len() == ids.len(),
    ensures
        resolved(link, link_lower, ids, ids_lower) matches Some(i) ==> 0 <= i < ids.len(),
        ids.contains(link) ==> resolved(link, link_lower, ids, ids_lower) is Some && ids[resolved(
            link,
            link_lower,
            ids,
            ids_lower,
        ).unwrap()] == link,
{
    lemma_first_named(link_lower, ids_lower, 0);
}

/// A position found among the ids is one of theirs.
proof fn lemma_first_named(link: Seq<char>, ids: Seq<Seq<char>>, from: int)
    ensures
        first_named(link, ids, from) matches Some(i) ==> from <= i < ids.len() && names(
            link,
            ids[i],
        ),
    decreases ids.len() - from,
{
    if 0 <= from < ids.len() && !names(link, ids[from]) {
        lemma_first_named(link, ids, from + 1);
    }
}

// ---------------------------------------------------------------------------------------
// Links
// ---------------------------------------------------------------------------------------

/// The numbers that a list of pairs of positions holds.
pub open spec fn pairs(v: Seq<(usize, usize)>) -> Seq<(int, int)> {
    v.map_values(|p: (usize, usize)| (p.0 as int, p.1 as int))
}

/// The links of page `own` that name another page, each with the number of that page.
pub open spec fn links_of(own: int, links: Seq<Seq<char>>, ids: Seq<Seq<char>>) -> Seq<(int, int)>
    decreases links.len(),
{
    if links.len() == 0 {
        Seq::empty()
    } else {
        let before = links_of(own, links.drop_last(), ids);
        let link = links.last();
        match resolved(link, outside::lowercase(link), ids, lowered(ids)) {
            Some(target) => if target != own {
                before.push((own, target))
            } else {
                before
            },
            None => before,
        }
    }
}

/// The links of the pages before page `k`.
pub open spec fn all_links(
    links: Seq<Seq<Seq<char>>>,
    ids: Seq<Seq<char>>,
    k: int,
) -> Seq<(int, int)>
    decreases k,
{
    if k <= 0 {
        Seq::empty()
    } else {
        all_links(links, ids, k - 1) + links_of(k - 1, links[k - 1], ids)
    }
}

/// Whether the links join two different pages of `n` each.
pub open spec fn join_pages(links: Seq<(int, int)>, n: nat) -> bool {
    forall|k: int|
        0 <= k < links.len() ==> {
            &&& 0 <= (#[trigger] links[k]).0 < n
            &&& 0 <= links[k].1 < n
            &&& links[k].0 != links[k].1
        }
}

/// The links of one page join it to other pages.
proof fn lemma_links_of(own: int, links: Seq<Seq<char>>, ids: Seq<Seq<char>>)
    requires
        0 <= own < ids.len(),
    ensures
        join_pages(links_of(own, links, ids), ids.len()),
    decreases links.len(),
{
    if links.len() > 0 {
        lemma_links_of(own, links.drop_last(), ids);
        lemma_resolved(links.last(), outside::lowercase(links.last()), ids, lowered(ids));
    }
}

/// The links of all pages join two different pages each: no page is linked to itself.
pub proof fn lemma_all_links(links: Seq<Seq<Seq<char>>>, ids: Seq<Seq<char>>, k: int)
    requires
        k <= ids.len(),
    ensures
        join_pages(all_links(links, ids, k), ids.len()),
    decreases k,
{
    if k > 0 {
        lemma_all_links(links, ids, k - 1);
        lemma_links_of(k - 1, links[k - 1], ids);
    }
}

/// Appends the links of page `own` that name another page.
pub fn append_links(
    out: &mut Vec<(usize, usize)>,
    own: usize,
    links: &Vec<String>,
    index: &LinkIndex,
)
    requires
        index.wf(),
        index.ids_lower() == lowered(index.ids()),
    ensures
        pairs(final(out)@) == pairs(old(out)@) + links_of(
            own as int,
            text::strings(links@),
            index.ids(),
        ),
{
    let ghost start = pairs(out@);
    let ghost all = text::strings(links@);
    let mut i: usize = 0;
    assert(start + links_of(own as int, all.take(0), index.ids()) =~= start);
    while i < links.len()
        invariant
            i <= links@.len(),
            all == text::strings(links@),
            index.wf(),
            index.ids_lower() == lowered(index.ids()),
            pairs(out@) == start + links_of(own as int, all.take(i as int), index.ids()),
        decreases links@.len() - i,
    {
        let ghost before = pairs(out@);
        let ghost listed = links_of(own as int, all.take(i as int), index.ids());
        assert(all.take(i + 1).drop_last() =~= all.take(i as int));
        assert(all[i as int] == links@[i as int]@);
        match index.resolve_target(links[i].as_str()) {
            Some(target) => {
                if target != own {
                    out.push((own, target));
                    assert(pairs(out@) =~= before.push((own as int, target as int)));
                    assert(before.push((own as int, target as int)) =~= start + listed.push(
                        (own as int, target as int),
                    ));
                }
            },
            None => {},
        }
        i += 1;
    }
    assert(all.take(all.len() as int) =~= all);
}

/// How often page `i` is an end of a link.
pub open spec fn link_count(links: Seq<(int, int)>, i: int) -> nat
    decreases links.len(),
{
    if links.len() == 0 {
        0
    } else {
        let link = links.last();
        link_count(links.drop_last(), i) + if link.0 == i {
            1nat
        } else {
            0
        } + if link.1 == i {
            1nat
        } else {
            0
        }
    }
}

/// How often each of `n` pages is an end of a link.
pub fn link_counts(n: usize, links: &Vec<(usize, usize)>) -> (r: Vec<usize>)
    requires
        join_pages(pairs(links@), n as nat),
    ensures
        r@.len() == n,
        forall|i: int| 0 <= i < n ==> #[trigger] r@[i] == link_count(pairs(links@), i),
{
    let mut counts: Vec<usize> = Vec::new();
    let mut k: usize = 0;
    while k < n
        invariant
            k <= n,
            counts@.len() == k,
            forall|i: int| 0 <= i < k ==> #[trigger] counts@[i] == 0,
        decreases n - k,
    {
        counts.push(0);
        k += 1;
    }
    let ghost all = pairs(links@);
    let total: usize = links.len();
    let mut m: usize = 0;
    while m < total
        invariant
            m <= total,
            total == links@.len(),
            all == pairs(links@),
            join_pages(all, n as nat),
            counts@.len() == n,
            forall|i: int| 0 <= i < n ==> #[trigger] counts@[i] == link_count(all.take(m as int), i),
            forall|i: int| 0 <= i < n ==> #[trigger] counts@[i] <= m,
        decreases total - m,
    {
        let (source, target): (usize, usize) = links[m];
        let ghost before = counts@;
        assert(all[m as int] == (source as int, target as int));
        assert(all.take(m + 1).drop_last() =~= all.take(m as int));
        counts[source] = counts[source] + 1;
        counts[target] = counts[target] + 1;
        assert forall|i: int| 0 <= i < n implies #[trigger] counts@[i] == link_count(
            all.take(m + 1),
            i,
        ) && counts@[i] <= m + 1 by {
            assert(before[i] == link_count(all.take(m as int), i));
        }
        m += 1;
    }
    assert(all.take(all.len() as int) =~= all);
    counts
}

// ---------------------------------------------------------------------------------------
// Neighbours
// ---------------------------------------------------------------------------------------

/// The pages that page `i` links to, in ascending order.
pub open spec fn targets(links: Seq<(int, int)>, n: nat, i: int) -> Seq<int> {
    order::select(n, |j: int| links.contains((i, j)))
}

/// The pages that link to page `i`, in ascending order.
pub open spec fn sources(links: Seq<(int, int)>, n: nat, i: int) -> Seq<int> {
    order::select(n, |j: int| links.contains((j, i)))
}

/// Whether one of two pages links to the other.
pub open spec fn adjacent(links: Seq<(int, int)>, i: int, j: int) -> bool {
    links.contains((i, j)) || links.contains((j, i))
}

/// The pages that page `i` links to or that link to it, in ascending order.
pub open spec fn neighbours(links: Seq<(int, int)>, n: nat, i: int) -> Seq<int> {
    order::select(n, |j: int| adjacent(links, i, j))
}

/// The pages that each page links to, and the pages that link to it.
pub struct LinkTable {
    pub targets: Vec<Vec<usize>>,
    pub sources: Vec<Vec<usize>>,
}

impl LinkTable {
    /// Whether the table is that of the links among `n` pages.
    pub open spec fn holds(&self, links: Seq<(int, int)>, n: nat) -> bool {
        &&& self.targets@.len() == n
        &&& self.sources@.len() == n
        &&& forall|i: int|
            0 <= i < n ==> order::ints((#[trigger] self.targets@[i])@) == targets(links, n, i)
        &&& forall|i: int|
            0 <= i < n ==> order::ints((#[trigger] self.sources@[i])@) == sources(links, n, i)
    }
}

/// Whether each list is in ascending order and holds the numbers that are paired with its own.
spec fn rows(v: Seq<Vec<usize>>, p: spec_fn(int, int) -> bool) -> bool {
    &&& forall|i: int| 0 <= i < v.len() ==> order::rising(order::ints((#[trigger] v[i])@))
    &&& forall|i: int, j: usize|
        #![trigger v[i]@.contains(j)]
        0 <= i < v.len() ==> (v[i]@.contains(j) <==> p(i, j as int))
}

/// The table of the links among `n` pages.
pub fn link_table(n: usize, links: &Vec<(usize, usize)>) -> (r: LinkTable)
    requires
        join_pages(pairs(links@), n as nat),
    ensures
        r.holds(pairs(links@), n as nat),
{
    let mut out = order::empty_rows(n);
    let mut back = order::empty_rows(n);
    let ghost all = pairs(links@);
    let mut m: usize = 0;
    while m < links.len()
        invariant
            m <= links@.len(),
            all == pairs(links@),
            join_pages(all, n as nat),
            out@.len() == n,
            back@.len() == n,
            rows(out@, |i: int, j: int| all.take(m as int).contains((i, j))),
            rows(back@, |i: int, j: int| all.take(m as int).contains((j, i))),
        decreases links@.len() - m,
    {
        let (source, target): (usize, usize) = links[m];
        let ghost (out0, back0) = (out@, back@);
        let ghost (before, after) = (all.take(m as int), all.take(m + 1));
        assert(all[m as int] == (source as int, target as int));
        proof {
            assert(after =~= before.push((source as int, target as int)));
            assert forall|e: (int, int)|
                #[trigger] after.contains(e) <==> before.contains(e) || e == (
                    source as int,
                    target as int,
                ) by {
                if before.contains(e) {
                    let k = choose|k: int| 0 <= k < before.len() && before[k] == e;
                    assert(after[k] == e);
                }
                if e == (source as int, target as int) {
                    assert(after[m as int] == e);
                }
                if after.contains(e) {
                    let k = choose|k: int| 0 <= k < after.len() && after[k] == e;
                    if k < m {
                        assert(before[k] == e);
                    }
                }
            }
        }
        order::add_index(&mut out[source], target);
        order::add_index(&mut back[target], source);
        proof {
            assert(out0[source as int]@.to_set().insert(target) =~= out@[source as int]@.to_set());
            assert forall|i: int, j: usize|
                #![trigger out@[i]@.contains(j)]
                0 <= i < n implies (out@[i]@.contains(j) <==> after.contains((i, j as int))) by {
                assert(out0[i]@.contains(j) <==> before.contains((i, j as int)));
                assert(out@[i]@.to_set().contains(j) <==> out@[i]@.contains(j));
            }
            assert forall|i: int, j: usize|
                #![trigger back@[i]@.contains(j)]
                0 <= i < n implies (back@[i]@.contains(j) <==> after.contains((j as int, i))) by {
                assert(back0[i]@.contains(j) <==> before.contains((j as int, i)));
                assert(back@[i]@.to_set().contains(j) <==> back@[i]@.contains(j));
            }
        }
        m += 1;
    }
    assert(all.take(all.len() as int) =~= all);
    let r = LinkTable { targets: out, sources: back };
    proof {
        assert forall|i: int| 0 <= i < n implies order::ints((#[trigger] r.targets@[i])@)
            == targets(all, n as nat, i) by {
            let p = |j: int| all.contains((i, j));
            assert forall|j: usize| #[trigger] r.targets@[i]@.contains(j) <==> j < n && p(
                j as int,
            ) by {
                if all.contains((i, j as int)) {
                    let k = choose|k: int| 0 <= k < all.len() && all[k] == (i, j as int);
                    assert(all[k].1 < n);
                }
            }
            order::lemma_selected(r.targets@[i]@, n as nat, p);
        }
        assert forall|i: int| 0 <= i < n implies order::ints((#[trigger] r.sources@[i])@)
            == sources(all, n as nat, i) by {
            let p = |j: int| all.contains((j, i));
            assert forall|j: usize| #[trigger] r.sources@[i]@.contains(j) <==> j < n && p(
                j as int,
            ) by {
                if all.contains((j as int, i)) {
                    let k = choose|k: int| 0 <= k < all.len() && all[k] == (j as int, i);
                    assert(all[k].0 < n);
                }
            }
            order::lemma_selected(r.sources@[i]@, n as nat, p);
        }
    }
    r
}

// ---------------------------------------------------------------------------------------
// Edges
// ---------------------------------------------------------------------------------------

/// Whether the graph has an edge from page `i` to page `j`: the first links to the second, and
/// where they link to each other the first has the smaller number.
pub open spec fn is_edge(links: Seq<(int, int)>, i: int, j: int) -> bool {
    links.contains((i, j)) && (i < j || !links.contains((j, i)))
}

/// The edges from page `i`, in ascending order.
pub open spec fn edges_of(links: Seq<(int, int)>, n: nat, i: int) -> Seq<(int, int)> {
    order::select(n, |j: int| is_edge(links, i, j)).map_values(|j: int| (i, j))
}

/// The edges from the pages before page `k`, in ascending order.
pub open spec fn edges(links: Seq<(int, int)>, n: nat, k: int) -> Seq<(int, int)>
    decreases k,
{
    if k <= 0 {
        Seq::empty()
    } else {
        edges(links, n, k - 1) + edges_of(links, n, k - 1)
    }
}

/// Whether the first of two pairs stands before the second in lexicographic order.
pub open spec fn pair_before(a: (int, int), b: (int, int)) -> bool {
    a.0 < b.0 || (a.0 == b.0 && a.1 < b.1)
}

/// The edges are in ascending order, and there is one between two pages exactly if one of them
/// links to the other.
pub proof fn lemma_edges(links: Seq<(int, int)>, n: nat, k: int)
    requires
        join_pages(links, n),
        0 <= k <= n,
    ensures
        forall|a: int, b: int|
            0 <= a < b < edges(links, n, k).len() ==> pair_before(
                #[trigger] edges(links, n, k)[a],
                #[trigger] edges(links, n, k)[b],
            ),
        forall|i: int, j: int|
            #[trigger] edges(links, n, k).contains((i, j)) <==> i < k && is_edge(links, i, j),
    decreases k,
{
    let all = edges(links, n, k);
    if k > 0 {
        let before = edges(links, n, k - 1);
        let row = edges_of(links, n, k - 1);
        let p = |j: int| is_edge(links, k - 1, j);
        let numbers = order::select(n, p);
        lemma_edges(links, n, k - 1);
        order::lemma_select(n, p);
        assert forall|a: int| 0 <= a < before.len() implies (#[trigger] before[a]).0 < k - 1 by {
            assert(before.contains(before[a]));
            assert(before[a] == (before[a].0, before[a].1));
        }
        assert forall|a: int, b: int| 0 <= a < b < all.len() implies pair_before(
            #[trigger] all[a],
            #[trigger] all[b],
        ) by {
            if b < before.len() {
                assert(all[a] == before[a] && all[b] == before[b]);
            } else {
                assert(all[b] == row[b - before.len()]);
                if a < before.len() {
                    assert(all[a] == before[a]);
                } else {
                    assert(all[a] == row[a - before.len()]);
                    assert(numbers[a - before.len()] < numbers[b - before.len()]);
                }
            }
        }
        assert forall|i: int, j: int|
            #[trigger] all.contains((i, j)) <==> i < k && is_edge(links, i, j) by {
            if all.contains((i, j)) {
                let a = choose|a: int| 0 <= a < all.len() && all[a] == (i, j);
                if a < before.len() {
                    assert(before[a] == (i, j));
                    assert(before.contains((i, j)));
                } else {
                    assert(row[a - before.len()] == (i, j));
                    assert(numbers[a - before.len()] == j);
                }
            }
            if i < k && is_edge(links, i, j) {
                let l = choose|l: int| 0 <= l < links.len() && links[l] == (i, j);
                assert(0 <= links[l].1 < n && 0 <= links[l].0);
                if i < k - 1 {
                    assert(before.contains((i, j)));
                    let a = choose|a: int| 0 <= a < before.len() && before[a] == (i, j);
                    assert(all[a] == (i, j));
                } else {
                    assert(p(j));
                    assert(numbers.contains(j));
                    let a = choose|a: int| 0 <= a < numbers.len() && numbers[a] == j;
                    assert(row[a] == (i, j));
                    assert(all[before.len() + a] == (i, j));
                }
            }
        }
    }
}

/// Two pages are joined by an edge exactly if one of them links to the other, and by no more
/// than one. No edge joins a page to itself.
pub proof fn lemma_edges_join_linked_pages(links: Seq<(int, int)>, n: nat, i: int, j: int)
    requires
        join_pages(links, n),
    ensures
        edges(links, n, n as int).no_duplicates(),
        (edges(links, n, n as int).contains((i, j)) || edges(links, n, n as int).contains((j, i)))
            <==> adjacent(links, i, j),
        !(edges(links, n, n as int).contains((i, j)) && edges(links, n, n as int).contains((j, i))),
        edges(links, n, n as int).contains((i, j)) ==> i != j && 0 <= i < n && 0 <= j < n,
{
    let all = edges(links, n, n as int);
    lemma_edges(links, n, n as int);
    assert forall|a: int, b: int| 0 <= a < all.len() && 0 <= b < all.len() && a != b implies all[a]
        != all[b] by {
        if a < b {
            assert(pair_before(all[a], all[b]));
        } else {
            assert(pair_before(all[b], all[a]));
        }
    }
    if links.contains((i, j)) {
        let l = choose|l: int| 0 <= l < links.len() && links[l] == (i, j);
        assert(0 <= links[l].0 < n && 0 <= links[l].1 < n && links[l].0 != links[l].1);
    }
    if links.contains((j, i)) {
        let l = choose|l: int| 0 <= l < links.len() && links[l] == (j, i);
        assert(0 <= links[l].0 < n && 0 <= links[l].1 < n && links[l].0 != links[l].1);
    }
    assert(all.contains((i, j)) <==> i < n && is_edge(links, i, j));
    assert(all.contains((j, i)) <==> j < n && is_edge(links, j, i));
}

/// The edges of the graph, in ascending order.
pub fn distinct_edges(n: usize, links: &Vec<(usize, usize)>, table: &LinkTable) -> (r: Vec<
    (usize, usize),
>)
    requires
        join_pages(pairs(links@), n as nat),
        table.holds(pairs(links@), n as nat),
    ensures
        pairs(r@) == edges(pairs(links@), n as nat, n as int),
{
    let ghost all = pairs(links@);
    let mut out: Vec<(usize, usize)> = Vec::new();
    let mut i: usize = 0;
    assert(pairs(out@) =~= edges(all, n as nat, 0));
    while i < n
        invariant
            i <= n,
            all == pairs(links@),
            join_pages(all, n as nat),
            table.holds(all, n as nat),
            pairs(out@) == edges(all, n as nat, i as int),
        decreases n - i,
    {
        let ghost start = pairs(out@);
        let row: &Vec<usize> = &table.targets[i];
        let mut kept: Vec<usize> = Vec::new();
        let mut k: usize = 0;
        let ghost p = |j: int| is_edge(all, i as int, j);
        proof {
            order::lemma_select(n as nat, |j: int| all.contains((i as int, j)));
            order::lemma_ints(row@);
        }
        assert(start + order::ints(kept@).map_values(|j: int| (i as int, j)) =~= start);
        while k < row.len()
            invariant
                i < n,
                k <= row@.len(),
                all == pairs(links@),
                join_pages(all, n as nat),
                table.holds(all, n as nat),
                row@ == table.targets@[i as int]@,
                order::ints(row@) == targets(all, n as nat, i as int),
                order::rising(order::ints(row@)),
                forall|x: usize| #[trigger] row@.contains(x) <==> x < n && all.contains(
                    (i as int, x as int),
                ),
                p == |j: int| is_edge(all, i as int, j),
                order::rising(order::ints(kept@)),
                forall|x: int|
                    0 <= x < kept@.len() ==> k < row@.len() ==> #[trigger] kept@[x] < row@[
                        k as int
                    ],
                forall|x: usize|
                    #[trigger] kept@.contains(x) <==> row@.take(k as int).contains(x) && p(x as int),
                pairs(out@) == start + order::ints(kept@).map_values(|j: int| (i as int, j)),
            decreases row@.len() - k,
        {
            let j: usize = row[k];
            assert(row@.contains(j));
            let ghost kept0 = kept@;
            let ghost out0 = pairs(out@);
            proof {
                order::lemma_select(n as nat, |x: int| all.contains((j as int, x)));
                order::lemma_ints(table.targets@[j as int]@);
                assert(order::ints(table.targets@[j as int]@) == targets(all, n as nat, j as int));
            }
            let keep = i < j || !order::holds_index(&table.targets[j], i);
            assert(keep == p(j as int));
            if keep {
                kept.push(j);
                out.push((i, j));
                assert(pairs(out@) =~= out0.push((i as int, j as int)));
                assert(order::ints(kept@) =~= order::ints(kept0).push(j as int));
                assert(order::ints(kept@).map_values(|x: int| (i as int, x)) =~= order::ints(
                    kept0,
                ).map_values(|x: int| (i as int, x)).push((i as int, j as int)));
                assert(pairs(out@) =~= start + order::ints(kept@).map_values(
                    |x: int| (i as int, x),
                ));
            }
            proof {
                order::lemma_keep_next(row@, k as int, kept0, kept@, p);
                if k + 1 < row@.len() {
                    assert(order::ints(row@)[k as int] < order::ints(row@)[k + 1]);
                }
                assert forall|a: int, b: int| 0 <= a < b < kept@.len() implies #[trigger] order::ints(
                    kept@,
                )[a] < #[trigger] order::ints(kept@)[b] by {
                    assert(a < kept0.len() && kept@[a] == kept0[a]);
                    if b < kept0.len() {
                        assert(order::ints(kept0)[a] < order::ints(kept0)[b]);
                    }
                }
            }
            k += 1;
        }
        proof {
            assert(row@.take(row@.len() as int) =~= row@);
            assert forall|x: usize| #[trigger] kept@.contains(x) <==> x < n && p(x as int) by {
                assert(row@.contains(x) <==> x < n && all.contains((i as int, x as int)));
            }
            order::lemma_selected(kept@, n as nat, p);
        }
        i += 1;
    }
    out
}

// ---------------------------------------------------------------------------------------
// Relevance
// ---------------------------------------------------------------------------------------

/// How many of the two links between two pages there are.
pub open spec fn direct_links(links: Seq<(int, int)>, i: int, j: int) -> nat {
    (if links.contains((i, j)) {
        1nat
    } else {
        0
    }) + if links.contains((j, i)) {
        1nat
    } else {
        0
    }
}

/// The degree of a page: how many pages it links to and how many link to it, and at least two.
pub open spec fn degree(links: Seq<(int, int)>, n: nat, k: int) -> nat {
    let d = targets(links, n, k).len() + sources(links, n, k).len();
    if d < 2 {
        2
    } else {
        d
    }
}

/// The neighbours that two pages have in common, in ascending order.
pub open spec fn common_neighbours(links: Seq<(int, int)>, n: nat, i: int, j: int) -> Seq<int> {
    order::select(n, |k: int| adjacent(links, i, k) && adjacent(links, j, k))
}

/// The affinity of two kinds of pages in tenths.
pub open spec fn affinity(left: Seq<char>, right: Seq<char>) -> nat {
    let (entity, concept, synthesis, source) = ("entity"@, "concept"@, "synthesis"@, "source"@);
    if (left == entity && right == concept) || (left == concept && right == entity) {
        12
    } else if (left == concept && right == synthesis) || (left == synthesis && right == concept) {
        12
    } else if left == right && (left == entity || left == concept || left == synthesis) {
        8
    } else if left == source && right == source {
        5
    } else if left == source || right == source {
        10
    } else {
        5
    }
}

/// What the weight of an edge is made of.
///
/// The weight is three times the direct links, four times the shared sources, one and a half
/// times the sum of the inverse logarithms of the degrees, and the affinity.
pub struct Relevance {
    /// How many of the two links between the pages there are.
    pub direct: usize,
    /// How many sources the pages share.
    pub shared_sources: usize,
    /// The degrees of the neighbours that the pages have in common.
    pub degrees: Vec<u128>,
    /// The affinity of the kinds of the pages in tenths.
    pub affinity_tenths: u32,
}

/// The numbers of a list of degrees.
pub open spec fn naturals(v: Seq<u128>) -> Seq<nat> {
    v.map_values(|x: u128| x as nat)
}

/// What the weight of an edge is made of, as numbers.
#[verifier::ext_equal]
pub struct Ingredients {
    pub direct: nat,
    pub shared_sources: nat,
    pub degrees: Seq<nat>,
    pub affinity_tenths: nat,
}

impl View for Relevance {
    type V = Ingredients;

    open spec fn view(&self) -> Ingredients {
        Ingredients {
            direct: self.direct as nat,
            shared_sources: self.shared_sources as nat,
            degrees: naturals(self.degrees@),
            affinity_tenths: self.affinity_tenths as nat,
        }
    }
}

/// What the weight of an edge between two pages with the given sources and kinds is made of.
pub open spec fn ingredients(
    links: Seq<(int, int)>,
    n: nat,
    left: int,
    right: int,
    left_sources: Set<Seq<char>>,
    right_sources: Set<Seq<char>>,
    left_kind: Seq<char>,
    right_kind: Seq<char>,
) -> Ingredients {
    Ingredients {
        direct: direct_links(links, left, right),
        shared_sources: left_sources.intersect(right_sources).len(),
        degrees: common_neighbours(links, n, left, right).map_values(
            |k: int| degree(links, n, k),
        ),
        affinity_tenths: affinity(left_kind, right_kind),
    }
}

/// The affinity of two kinds of pages in tenths.
pub fn type_affinity(left: &str, right: &str) -> (r: u32)
    ensures
        r == affinity(left@, right@),
{
    let (l, r) = (text::to_chars(left), text::to_chars(right));
    let (l, r): (&[char], &[char]) = (l.as_slice(), r.as_slice());
    let (l_entity, r_entity) = (text::is_text(l, "entity"), text::is_text(r, "entity"));
    let (l_concept, r_concept) = (text::is_text(l, "concept"), text::is_text(r, "concept"));
    let (l_synthesis, r_synthesis) = (text::is_text(l, "synthesis"), text::is_text(r, "synthesis"));
    let (l_source, r_source) = (text::is_text(l, "source"), text::is_text(r, "source"));
    if (l_entity && r_concept) || (l_concept && r_entity) {
        12
    } else if (l_concept && r_synthesis) || (l_synthesis && r_concept) {
        12
    } else if (l_entity && r_entity) || (l_concept && r_concept) || (l_synthesis && r_synthesis) {
        8
    } else if l_source && r_source {
        5
    } else if l_source || r_source {
        10
    } else {
        5
    }
}

/// The neighbours of page `i`, in ascending order.
pub fn neighbors(n: usize, links: &Vec<(usize, usize)>, table: &LinkTable, i: usize) -> (r: Vec<
    usize,
>)
    requires
        table.holds(pairs(links@), n as nat),
        i < n,
    ensures
        order::ints(r@) == neighbours(pairs(links@), n as nat, i as int),
{
    let ghost all = pairs(links@);
    let ghost (p, q) = (
        |j: int| all.contains((i as int, j)),
        |j: int| all.contains((j, i as int)),
    );
    proof {
        order::lemma_select(n as nat, p);
        order::lemma_select(n as nat, q);
        order::lemma_ints(table.targets@[i as int]@);
        order::lemma_ints(table.sources@[i as int]@);
        assert(order::ints(table.targets@[i as int]@) == targets(all, n as nat, i as int));
        assert(order::ints(table.sources@[i as int]@) == sources(all, n as nat, i as int));
    }
    let r = order::unite(&table.targets[i], &table.sources[i]);
    proof {
        let either = |j: int| adjacent(all, i as int, j);
        assert forall|x: usize| #[trigger] r@.contains(x) <==> x < n && either(x as int) by {
            assert(table.targets@[i as int]@.contains(x) <==> x < n && p(x as int));
            assert(table.sources@[i as int]@.contains(x) <==> x < n && q(x as int));
        }
        order::lemma_selected(r@, n as nat, either);
    }
    r
}

/// The degree of page `k`.
fn page_degree(n: usize, links: &Vec<(usize, usize)>, table: &LinkTable, k: usize) -> (r: u128)
    requires
        table.holds(pairs(links@), n as nat),
        k < n,
    ensures
        r == degree(pairs(links@), n as nat, k as int),
{
    let (out, back): (usize, usize) = (table.targets[k].len(), table.sources[k].len());
    assert(order::ints(table.targets@[k as int]@).len() == out);
    assert(order::ints(table.sources@[k as int]@).len() == back);
    let d: u128 = out as u128 + back as u128;
    if d < 2 {
        2
    } else {
        d
    }
}

/// What the weight of an edge between page `left` and page `right` is made of.
pub fn calculate_relevance(
    n: usize,
    links: &Vec<(usize, usize)>,
    table: &LinkTable,
    left: usize,
    right: usize,
    left_sources: &TextSet,
    right_sources: &TextSet,
    left_kind: &str,
    right_kind: &str,
) -> (r: Relevance)
    requires
        table.holds(pairs(links@), n as nat),
        left < n,
        right < n,
        left_sources.wf(),
        right_sources.wf(),
    ensures
        r@ == ingredients(
            pairs(links@),
            n as nat,
            left as int,
            right as int,
            left_sources.set(),
            right_sources.set(),
            left_kind@,
            right_kind@,
        ),
{
    let ghost all = pairs(links@);
    proof {
        order::lemma_select(n as nat, |j: int| all.contains((left as int, j)));
        order::lemma_select(n as nat, |j: int| all.contains((right as int, j)));
        order::lemma_ints(table.targets@[left as int]@);
        order::lemma_ints(table.targets@[right as int]@);
        assert(order::ints(table.targets@[left as int]@) == targets(all, n as nat, left as int));
        assert(order::ints(table.targets@[right as int]@) == targets(all, n as nat, right as int));
    }
    let forth = order::holds_index(&table.targets[left], right);
    let back = order::holds_index(&table.targets[right], left);
    let direct: usize = (if forth {
        1usize
    } else {
        0usize
    }) + (if back {
        1usize
    } else {
        0usize
    });
    let left_neighbors = neighbors(n, links, table, left);
    let right_neighbors = neighbors(n, links, table, right);
    let ghost (p, q) = (
        |k: int| adjacent(all, left as int, k),
        |k: int| adjacent(all, right as int, k),
    );
    let ghost both = |k: int| adjacent(all, left as int, k) && adjacent(all, right as int, k);
    proof {
        order::lemma_select(n as nat, p);
        order::lemma_select(n as nat, q);
        order::lemma_ints(left_neighbors@);
        order::lemma_ints(right_neighbors@);
    }
    let common = order::intersect(&left_neighbors, &right_neighbors);
    proof {
        assert forall|x: usize| #[trigger] common@.contains(x) <==> x < n && both(x as int) by {
            assert(left_neighbors@.contains(x) <==> x < n && p(x as int));
            assert(right_neighbors@.contains(x) <==> x < n && q(x as int));
        }
        order::lemma_selected(common@, n as nat, both);
        order::lemma_select(n as nat, both);
    }
    let ghost listed = common_neighbours(all, n as nat, left as int, right as int).map_values(
        |k: int| degree(all, n as nat, k),
    );
    let mut degrees: Vec<u128> = Vec::new();
    let mut i: usize = 0;
    while i < common.len()
        invariant
            i <= common@.len(),
            all == pairs(links@),
            table.holds(all, n as nat),
            order::ints(common@) == common_neighbours(all, n as nat, left as int, right as int),
            listed == common_neighbours(all, n as nat, left as int, right as int).map_values(
                |k: int| degree(all, n as nat, k),
            ),
            forall|x: int|
                0 <= x < common@.len() ==> 0 <= #[trigger] order::ints(common@)[x] < n,
            naturals(degrees@) =~= listed.take(i as int),
        decreases common@.len() - i,
    {
        let ghost before = naturals(degrees@);
        let k: usize = common[i];
        assert(order::ints(common@)[i as int] == k);
        let d = page_degree(n, links, table, k);
        degrees.push(d);
        assert(listed[i as int] == d as nat);
        assert(naturals(degrees@) =~= before.push(d as nat));
        assert(listed.take(i + 1) =~= listed.take(i as int).push(d as nat));
        i += 1;
    }
    assert(listed.take(listed.len() as int) =~= listed);
    Relevance {
        direct,
        shared_sources: left_sources.common(right_sources),
        degrees,
        affinity_tenths: type_affinity(left_kind, right_kind),
    }
}

/// The relevance of two pages to each other does not depend on their order.
pub proof fn lemma_relevance_symmetric(
    links: Seq<(int, int)>,
    n: nat,
    left: int,
    right: int,
    left_sources: Set<Seq<char>>,
    right_sources: Set<Seq<char>>,
    left_kind: Seq<char>,
    right_kind: Seq<char>,
)
    ensures
        ingredients(
            links,
            n,
            left,
            right,
            left_sources,
            right_sources,
            left_kind,
            right_kind,
        ) == ingredients(
            links,
            n,
            right,
            left,
            right_sources,
            left_sources,
            right_kind,
            left_kind,
        ),
{
    order::lemma_select_same(
        n,
        |k: int| adjacent(links, left, k) && adjacent(links, right, k),
        |k: int| adjacent(links, right, k) && adjacent(links, left, k),
    );
    assert(left_sources.intersect(right_sources) =~= right_sources.intersect(left_sources));
    reveal_strlit("entity");
    reveal_strlit("concept");
    reveal_strlit("synthesis");
    reveal_strlit("source");
}

} // verus!
