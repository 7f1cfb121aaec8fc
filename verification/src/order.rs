//! Ordered lists: a stable sort and sets of texts kept in ascending order.

use crate::text;
use vstd::prelude::*;

verus! {

/// Values that are ordered, where values that differ may be of the same rank.
pub trait Ranked: Sized {
    /// Whether `self` stands before `other` or has the same rank.
    spec fn le(self, other: Self) -> bool;

    /// Of two values one stands before the other or has the same rank.
    proof fn le_total(self, other: Self)
        ensures
            self.le(other) || other.le(self),
    ;

    /// The order is transitive.
    proof fn le_transitive(self, middle: Self, other: Self)
        requires
            self.le(middle),
            middle.le(other),
        ensures
            self.le(other),
    ;
}

/// Executable values that are ordered by what they stand for.
pub trait Ordered: Sized {
    /// What the values stand for.
    type Model: Ranked;

    /// What the value stands for.
    spec fn model(&self) -> Self::Model;

    /// Whether `self` stands before `other` or has the same rank.
    fn is_le(&self, other: &Self) -> (r: bool)
        ensures
            r == self.model().le(other.model()),
    ;
}

/// What the values of a list stand for.
pub open spec fn models<T: Ordered>(s: Seq<T>) -> Seq<T::Model> {
    s.map_values(|x: T| x.model())
}

/// Whether every value stands before or has the rank of those behind it.
pub open spec fn is_sorted<R: Ranked>(s: Seq<R>) -> bool {
    forall|i: int, j: int| 0 <= i < j < s.len() ==> (#[trigger] s[i]).le(#[trigger] s[j])
}

/// The place behind the last value of `s` that stands before `x` or has its rank.
pub open spec fn place<R: Ranked>(s: Seq<R>, x: R) -> int
    decreases s.len(),
{
    if s.len() > 0 && !s.last().le(x) {
        place(s.drop_last(), x)
    } else {
        s.len() as int
    }
}

/// The values of `s` in order. Values of the same rank keep the order that they have in `s`.
pub open spec fn sorted_list<R: Ranked>(s: Seq<R>) -> Seq<R>
    decreases s.len(),
{
    if s.len() == 0 {
        s
    } else {
        let before = sorted_list(s.drop_last());
        before.insert(place(before, s.last()), s.last())
    }
}

/// In a sorted list all values before the place of `x` are at most `x`, and none behind it.
proof fn lemma_place<R: Ranked>(s: Seq<R>, x: R)
    requires
        is_sorted(s),
    ensures
        0 <= place(s, x) <= s.len(),
        forall|i: int| 0 <= i < place(s, x) ==> (#[trigger] s[i]).le(x),
        forall|i: int| place(s, x) <= i < s.len() ==> !(#[trigger] s[i]).le(x),
    decreases s.len(),
{
    if s.len() > 0 {
        if !s.last().le(x) {
            lemma_place(s.drop_last(), x);
            let p = place(s, x);
            assert forall|i: int| 0 <= i < p implies (#[trigger] s[i]).le(x) by {
                assert(s.drop_last()[i] == s[i]);
            }
            assert forall|i: int| p <= i < s.len() implies !(#[trigger] s[i]).le(x) by {
                if i < s.len() - 1 {
                    assert(s.drop_last()[i] == s[i]);
                }
            }
        } else {
            assert forall|i: int| 0 <= i < s.len() implies (#[trigger] s[i]).le(x) by {
                if i < s.len() - 1 {
                    s[i].le_transitive(s[s.len() - 1], x);
                }
            }
        }
    }
}

/// Sorting puts the values in order, and keeps each as often as it was there.
pub proof fn lemma_sorted_list<R: Ranked>(s: Seq<R>)
    ensures
        is_sorted(sorted_list(s)),
        sorted_list(s).len() == s.len(),
        sorted_list(s).to_multiset() == s.to_multiset(),
    decreases s.len(),
{
    broadcast use vstd::seq_lib::group_to_multiset_ensures;

    if s.len() > 0 {
        let before = sorted_list(s.drop_last());
        let x = s.last();
        lemma_sorted_list(s.drop_last());
        lemma_place(before, x);
        let p = place(before, x);
        let after = before.insert(p, x);
        assert forall|i: int, j: int| 0 <= i < j < after.len() implies (#[trigger] after[i]).le(
            #[trigger] after[j],
        ) by {
            if i == p {
                x.le_total(before[j - 1]);
            } else if j == p {
                assert(after[i] == before[i]);
            } else {
                let a = if i < p {
                    i
                } else {
                    i - 1
                };
                let b = if j < p {
                    j
                } else {
                    j - 1
                };
                assert(after[i] == before[a] && after[j] == before[b]);
            }
        }
        assert(s.drop_last().push(x) =~= s);
    } else {
        assert(sorted_list(s) =~= s);
    }
}

/// A value is in the sorted list exactly if it was in the list.
pub proof fn lemma_sorted_list_contains<R: Ranked>(s: Seq<R>)
    ensures
        forall|x: R| sorted_list(s).contains(x) <==> s.contains(x),
        sorted_list(s).len() == s.len(),
{
    broadcast use vstd::seq_lib::group_to_multiset_ensures;

    lemma_sorted_list(s);
    assert forall|x: R| sorted_list(s).contains(x) <==> s.contains(x) by {
        assert(sorted_list(s).to_multiset().count(x) == s.to_multiset().count(x));
        assert(sorted_list(s).contains(x) <==> sorted_list(s).to_multiset().count(x) > 0);
        assert(s.contains(x) <==> s.to_multiset().count(x) > 0);
    }
}

/// The place of `x` in the sorted values before position `end`.
fn find_place<T: Ordered>(v: &Vec<T>, end: usize, x: &T) -> (r: usize)
    requires
        end <= v@.len(),
        is_sorted(models(v@).take(end as int)),
    ensures
        r == place(models(v@).take(end as int), x.model()),
        r <= end,
{
    let ghost s = models(v@).take(end as int);
    let mut low: usize = 0;
    let mut high: usize = end;
    proof {
        lemma_place(s, x.model());
    }
    while low < high
        invariant
            low <= place(s, x.model()) <= high <= end,
            end <= v@.len(),
            s == models(v@).take(end as int),
            is_sorted(s),
        decreases high - low,
    {
        let middle: usize = low + (high - low) / 2;
        proof {
            lemma_place(s, x.model());
            assert(s[middle as int] == v@[middle as int].model());
        }
        if v[middle].is_le(x) {
            low = middle + 1;
        } else {
            high = middle;
        }
    }
    low
}

/// Sorts the values. Values of the same rank keep their order.
pub fn sort<T: Ordered>(values: Vec<T>) -> (r: Vec<T>)
    ensures
        models(r@) == sorted_list(models(values@)),
        r@.to_multiset() == values@.to_multiset(),
        r@.len() == values@.len(),
{
    let mut v = values;
    let ghost all = v@;
    let ghost s = models(all);
    let mut i: usize = 0;
    assert(sorted_list(s.take(0)) =~= s.take(0));
    assert(models(v@) =~= s.take(0) + s.skip(0));
    while i < v.len()
        invariant
            i <= s.len(),
            s == models(all),
            all.len() == s.len(),
            v@.len() == s.len(),
            v@.to_multiset() == all.to_multiset(),
            models(v@) == sorted_list(s.take(i as int)) + s.skip(i as int),
            sorted_list(s.take(i as int)).len() == i,
        decreases s.len() - i,
    {
        let ghost before = sorted_list(s.take(i as int));
        let ghost v0 = v@;
        proof {
            lemma_sorted_list(s.take(i as int));
            assert(models(v@)[i as int] == s[i as int]);
            assert(v0[i as int].model() == s[i as int]);
        }
        let x = v.remove(i);
        let ghost v1 = v@;
        assert(models(v1).take(i as int) =~= before) by {
            assert forall|k: int| 0 <= k < i implies models(v1)[k] == before[k] by {
                assert(v1[k] == v0[k]);
                assert(models(v0)[k] == before[k]);
            }
        }
        let at = find_place(&v, i, &x);
        v.insert(at, x);
        proof {
            assert(s.take(i + 1).drop_last() =~= s.take(i as int));
            let target = before.insert(at as int, x.model()) + s.skip(i + 1);
            assert forall|k: int| 0 <= k < s.len() implies models(v@)[k] == target[k] by {
                if k < at {
                    assert(v@[k] == v0[k]);
                    assert(models(v0)[k] == before[k]);
                } else if k == at {
                } else if k <= i {
                    assert(v@[k] == v1[k - 1]);
                    assert(v1[k - 1] == v0[k - 1]);
                    assert(models(v0)[k - 1] == before[k - 1]);
                } else {
                    assert(v@[k] == v1[k - 1]);
                    assert(v1[k - 1] == v0[k]);
                    assert(models(v0)[k] == s[k]);
                }
            }
            assert(models(v@) =~= target);
            assert(v1 =~= v0.remove(i as int));
            assert(v@ =~= v1.insert(at as int, x));
            vstd::seq_lib::to_multiset_remove(v0, i as int);
            vstd::seq_lib::to_multiset_insert(v1, at as int, x);
            assert(v0.to_multiset().count(x) > 0) by {
                broadcast use vstd::seq_lib::group_to_multiset_ensures;

                assert(v0.contains(v0[i as int]));
            }
            assert(v@.to_multiset() =~= v0.to_multiset());
        }
        i += 1;
    }
    assert(s.take(s.len() as int) =~= s);
    assert(models(v@) =~= sorted_list(s));
    v
}

// ---------------------------------------------------------------------------------------
// Sets of texts
// ---------------------------------------------------------------------------------------

/// Whether each text stands before those behind it.
pub open spec fn ascending(s: Seq<Seq<char>>) -> bool {
    forall|i: int, j: int| 0 <= i < j < s.len() ==> text::text_lt(#[trigger] s[i], #[trigger] s[j])
}

/// A set of texts, kept in ascending order.
pub struct TextSet {
    items: Vec<Vec<char>>,
}

impl TextSet {
    /// The texts in the set, in ascending order.
    pub closed spec fn list(&self) -> Seq<Seq<char>> {
        text::texts(self.items@)
    }

    /// The set.
    pub open spec fn set(&self) -> Set<Seq<char>> {
        self.list().to_set()
    }

    /// The texts are kept in ascending order.
    pub open spec fn wf(&self) -> bool {
        ascending(self.list())
    }

    /// The empty set.
    pub fn new() -> (r: TextSet)
        ensures
            r.wf(),
            r.list().len() == 0,
            r.set() == Set::<Seq<char>>::empty(),
    {
        let r = TextSet { items: Vec::new() };
        assert(r.set() =~= Set::<Seq<char>>::empty());
        r
    }

    /// How many texts stand before `x`.
    fn lower_bound(&self, x: &[char]) -> (r: usize)
        requires
            self.wf(),
        ensures
            r <= self.list().len(),
            forall|i: int| 0 <= i < r ==> text::text_lt(#[trigger] self.list()[i], x@),
            forall|i: int| r <= i < self.list().len() ==> text::text_le(x@, #[trigger] self.list()[i]),
    {
        let mut low: usize = 0;
        let mut high: usize = self.items.len();
        while low < high
            invariant
                low <= high <= self.items@.len(),
                self.wf(),
                forall|i: int| 0 <= i < low ==> text::text_lt(#[trigger] self.list()[i], x@),
                forall|i: int|
                    high <= i < self.list().len() ==> text::text_le(x@, #[trigger] self.list()[i]),
            decreases high - low,
        {
            let middle: usize = low + (high - low) / 2;
            assert(self.list()[middle as int] == self.items@[middle as int]@);
            if text::at_most(x, self.items[middle].as_slice()) {
                proof {
                    assert forall|i: int| middle <= i < self.list().len() implies text::text_le(
                        x@,
                        #[trigger] self.list()[i],
                    ) by {
                        if i > middle {
                            text::lemma_text_transitive(
                                x@,
                                self.list()[middle as int],
                                self.list()[i],
                            );
                        }
                    }
                }
                high = middle;
            } else {
                proof {
                    text::lemma_text_total(x@, self.list()[middle as int]);
                    text::lemma_text_reflexive(x@);
                    assert forall|i: int| 0 <= i <= middle implies text::text_lt(
                        #[trigger] self.list()[i],
                        x@,
                    ) by {
                        if i < middle {
                            text::lemma_text_transitive(
                                self.list()[i],
                                self.list()[middle as int],
                                x@,
                            );
                            if self.list()[i] == x@ {
                                assert(text::text_le(x@, self.list()[middle as int]));
                            }
                        }
                    }
                }
                low = middle + 1;
            }
        }
        low
    }

    /// The position of `x` in the set.
    pub fn position(&self, x: &[char]) -> (r: Option<usize>)
        requires
            self.wf(),
        ensures
            match r {
                Some(i) => i < self.list().len() && self.list()[i as int] == x@,
                None => !self.set().contains(x@),
            },
    {
        let at = self.lower_bound(x);
        if at < self.items.len() && text::same(self.items[at].as_slice(), x) {
            Some(at)
        } else {
            proof {
                if self.set().contains(x@) {
                    let k = choose|k: int| 0 <= k < self.list().len() && self.list()[k] == x@;
                    if k < at {
                        assert(text::text_lt(self.list()[k], x@));
                    } else if k > at {
                        assert(text::text_lt(self.list()[at as int], self.list()[k]));
                        assert(text::text_le(x@, self.list()[at as int]));
                        text::lemma_text_antisymmetric(x@, self.list()[at as int]);
                    }
                }
            }
            None
        }
    }

    /// Each text of the set stands in it once.
    pub proof fn lemma_index_of(&self, i: int)
        requires
            self.wf(),
            0 <= i < self.list().len(),
        ensures
            self.list().contains(self.list()[i]),
            self.list().index_of(self.list()[i]) == i,
    {
        let x = self.list()[i];
        assert(self.list().contains(x));
        let k = self.list().index_of(x);
        assert(0 <= k < self.list().len() && self.list()[k] == x);
        if k < i {
            assert(text::text_lt(self.list()[k], self.list()[i]));
        } else if i < k {
            assert(text::text_lt(self.list()[i], self.list()[k]));
        }
    }

    /// Whether the set holds `x`.
    pub fn contains(&self, x: &[char]) -> (r: bool)
        requires
            self.wf(),
        ensures
            r == self.set().contains(x@),
    {
        match self.position(x) {
            Some(i) => {
                assert(self.list()[i as int] == x@);
                true
            },
            None => false,
        }
    }

    /// Puts `x` into the set. Its position where it was not there before.
    pub fn insert_at(&mut self, x: Vec<char>) -> (r: Option<usize>)
        requires
            old(self).wf(),
        ensures
            final(self).wf(),
            final(self).set() == old(self).set().insert(x@),
            match r {
                Some(at) => !old(self).set().contains(x@) && at <= old(self).list().len()
                    && final(self).list() == old(self).list().insert(at as int, x@),
                None => old(self).set().contains(x@) && final(self).list() == old(self).list(),
            },
    {
        if self.contains(x.as_slice()) {
            assert(self.set() =~= self.set().insert(x@));
            return None;
        }
        let at = self.lower_bound(x.as_slice());
        let ghost before = self.list();
        self.items.insert(at, x);
        proof {
            let after = self.list();
            assert(after =~= before.insert(at as int, x@));
            assert forall|i: int, j: int| 0 <= i < j < after.len() implies text::text_lt(
                #[trigger] after[i],
                #[trigger] after[j],
            ) by {
                if i == at {
                    assert(after[j] == before[j - 1]);
                    assert(before.contains(before[j - 1]));
                } else if j == at {
                    assert(after[i] == before[i]);
                } else {
                    let a = if i < at {
                        i
                    } else {
                        i - 1
                    };
                    let b = if j < at {
                        j
                    } else {
                        j - 1
                    };
                    assert(after[i] == before[a] && after[j] == before[b]);
                }
            }
            lemma_insert_set(before, at as int, x@);
        }
        Some(at)
    }

    /// Puts `x` into the set. Whether it was not there before.
    pub fn insert(&mut self, x: Vec<char>) -> (r: bool)
        requires
            old(self).wf(),
        ensures
            final(self).wf(),
            final(self).set() == old(self).set().insert(x@),
            r == !old(self).set().contains(x@),
    {
        self.insert_at(x).is_some()
    }

    /// How many texts two sets have in common.
    pub fn common(&self, other: &TextSet) -> (r: usize)
        requires
            self.wf(),
            other.wf(),
        ensures
            r == self.set().intersect(other.set()).len(),
    {
        let mut count: usize = 0;
        let mut i: usize = 0;
        let ghost all = self.list();
        assert(all.take(0).to_set().intersect(other.set()) =~= Set::<Seq<char>>::empty());
        while i < self.items.len()
            invariant
                i <= self.items@.len(),
                self.wf(),
                other.wf(),
                all == self.list(),
                count <= i,
                all.take(i as int).to_set().intersect(other.set()).finite(),
                count == all.take(i as int).to_set().intersect(other.set()).len(),
            decreases self.items@.len() - i,
        {
            let ghost before = all.take(i as int).to_set();
            let ghost x = all[i as int];
            proof {
                assert(all.take(i + 1) =~= all.take(i as int).push(x));
                lemma_insert_set(all.take(i as int), i as int, x);
                assert(all.take(i as int).insert(i as int, x) =~= all.take(i + 1));
                if before.contains(x) {
                    let k = choose|k: int| 0 <= k < i && all.take(i as int)[k] == x;
                    assert(text::text_lt(all[k], all[i as int]));
                }
            }
            assert(self.items@[i as int]@ == x);
            if other.contains(self.items[i].as_slice()) {
                assert(all.take(i + 1).to_set().intersect(other.set()) =~= before.intersect(
                    other.set(),
                ).insert(x));
                count += 1;
            } else {
                assert(all.take(i + 1).to_set().intersect(other.set()) =~= before.intersect(
                    other.set(),
                ));
            }
            i += 1;
        }
        assert(all.take(all.len() as int) =~= all);
        count
    }

    /// How many texts the set holds.
    pub fn len(&self) -> (r: usize)
        ensures
            r == self.list().len(),
    {
        self.items.len()
    }

    /// The text at position `i` in ascending order.
    pub fn get(&self, i: usize) -> (r: &[char])
        requires
            i < self.list().len(),
        ensures
            r@ == self.list()[i as int],
    {
        self.items[i].as_slice()
    }

    /// The texts as strings, in ascending order.
    pub fn to_strings(&self) -> (r: Vec<String>)
        ensures
            text::strings(r@) == self.list(),
    {
        let mut out: Vec<String> = Vec::new();
        let mut i: usize = 0;
        while i < self.items.len()
            invariant
                i <= self.items@.len(),
                text::strings(out@) =~= self.list().take(i as int),
            decreases self.items@.len() - i,
        {
            let ghost before = text::strings(out@);
            out.push(text::to_text(self.items[i].as_slice()));
            assert(text::strings(out@) =~= before.push(self.list()[i as int]));
            i += 1;
        }
        assert(text::strings(out@) =~= self.list());
        out
    }
}

/// A list of texts in ascending order is determined by the texts it holds.
pub proof fn lemma_ascending_unique(a: Seq<Seq<char>>, b: Seq<Seq<char>>)
    requires
        ascending(a),
        ascending(b),
        a.to_set() == b.to_set(),
    ensures
        a == b,
    decreases a.len(),
{
    if a.len() == 0 {
        if b.len() > 0 {
            assert(b.to_set().contains(b[0]));
            assert(a.contains(b[0]));
        }
        assert(a =~= b);
    } else {
        assert(a.to_set().contains(a.last()));
        assert(b.contains(a.last()));
        assert(b.to_set().contains(b.last()));
        assert(a.contains(b.last()));
        let i = choose|i: int| 0 <= i < a.len() && a[i] == b.last();
        let j = choose|j: int| 0 <= j < b.len() && b[j] == a.last();
        if i < a.len() - 1 && j < b.len() - 1 {
            assert(text::text_lt(a[i], a[a.len() - 1]));
            assert(text::text_lt(b[j], b[b.len() - 1]));
            text::lemma_text_antisymmetric(a.last(), b.last());
        }
        assert(a.last() == b.last());
        let (c, d) = (a.drop_last(), b.drop_last());
        assert forall|t: Seq<char>| c.contains(t) <==> d.contains(t) by {
            if c.contains(t) {
                let k = choose|k: int| 0 <= k < c.len() && c[k] == t;
                assert(a[k] == t);
                assert(a.to_set().contains(t));
                assert(b.contains(t));
                let m = choose|m: int| 0 <= m < b.len() && b[m] == t;
                assert(text::text_lt(a[k], a[a.len() - 1]));
                assert(d[m] == t);
            }
            if d.contains(t) {
                let k = choose|k: int| 0 <= k < d.len() && d[k] == t;
                assert(b[k] == t);
                assert(b.to_set().contains(t));
                assert(a.contains(t));
                let m = choose|m: int| 0 <= m < a.len() && a[m] == t;
                assert(text::text_lt(b[k], b[b.len() - 1]));
                assert(c[m] == t);
            }
        }
        assert(c.to_set() =~= d.to_set());
        lemma_ascending_unique(c, d);
        assert(c.push(a.last()) =~= a);
        assert(d.push(b.last()) =~= b);
    }
}

/// A list with a text put in holds that text and those it held before.
pub proof fn lemma_insert_set<A>(before: Seq<A>, at: int, x: A)
    requires
        0 <= at <= before.len(),
    ensures
        before.insert(at, x).to_set() == before.to_set().insert(x),
{
    let after = before.insert(at, x);
    assert forall|t: A| after.contains(t) <==> (before.contains(t) || t == x) by {
        if before.contains(t) {
            let k = choose|k: int| 0 <= k < before.len() && before[k] == t;
            if k < at {
                assert(after[k] == t);
            } else {
                assert(after[k + 1] == t);
            }
        }
        if t == x {
            assert(after[at] == t);
        }
        if after.contains(t) {
            let k = choose|k: int| 0 <= k < after.len() && after[k] == t;
            if k < at {
                assert(before[k] == t);
            } else if k > at {
                assert(before[k - 1] == t);
            }
        }
    }
    assert(after.to_set() =~= before.to_set().insert(x));
}

// ---------------------------------------------------------------------------------------
// Lists of positions
// ---------------------------------------------------------------------------------------

/// The numbers below `n` for which `p` holds, in ascending order.
pub open spec fn select(n: nat, p: spec_fn(int) -> bool) -> Seq<int>
    decreases n,
{
    if n == 0 {
        Seq::empty()
    } else {
        let before = select((n - 1) as nat, p);
        if p(n - 1) {
            before.push(n - 1)
        } else {
            before
        }
    }
}

/// The numbers that a list of positions holds.
pub open spec fn ints(v: Seq<usize>) -> Seq<int> {
    v.map_values(|x: usize| x as int)
}

/// How often `x` stands in `s`.
pub open spec fn count_of<A>(s: Seq<A>, x: A) -> nat
    decreases s.len(),
{
    if s.len() == 0 {
        0
    } else {
        count_of(s.drop_last(), x) + if s.last() == x {
            1nat
        } else {
            0nat
        }
    }
}

/// A text or number stands in a list no more often than the list is long, and at least once
/// exactly if it is in the list.
pub proof fn lemma_count_of<A>(s: Seq<A>, x: A)
    ensures
        count_of(s, x) <= s.len(),
        count_of(s, x) > 0 <==> s.contains(x),
    decreases s.len(),
{
    if s.len() > 0 {
        lemma_count_of(s.drop_last(), x);
        if s.drop_last().contains(x) {
            let k = choose|k: int| 0 <= k < s.drop_last().len() && s.drop_last()[k] == x;
            assert(s[k] == x);
        }
        if s.contains(x) && s.last() != x {
            let k = choose|k: int| 0 <= k < s.len() && s[k] == x;
            assert(s.drop_last()[k] == x);
        }
        if s.last() == x {
            assert(s[s.len() - 1] == x);
        }
    }
}

/// Whether each number is below those behind it.
pub open spec fn rising(s: Seq<int>) -> bool {
    forall|i: int, j: int| 0 <= i < j < s.len() ==> #[trigger] s[i] < #[trigger] s[j]
}

/// The numbers selected are those below `n` for which `p` holds, in ascending order.
pub proof fn lemma_select(n: nat, p: spec_fn(int) -> bool)
    ensures
        rising(select(n, p)),
        forall|k: int| select(n, p).contains(k) <==> 0 <= k < n && p(k),
        forall|i: int| 0 <= i < select(n, p).len() ==> 0 <= #[trigger] select(n, p)[i] < n && p(
            select(n, p)[i],
        ),
        select(n, p).len() <= n,
    decreases n,
{
    let all = select(n, p);
    if n > 0 {
        let before = select((n - 1) as nat, p);
        lemma_select((n - 1) as nat, p);
        assert forall|i: int| 0 <= i < all.len() implies 0 <= #[trigger] all[i] < n && p(
            all[i],
        ) by {
            if i < before.len() {
                assert(all[i] == before[i]);
            }
        }
        assert forall|i: int, j: int| 0 <= i < j < all.len() implies #[trigger] all[i]
            < #[trigger] all[j] by {
            assert(all[i] == before[i]);
            if j < before.len() {
                assert(all[j] == before[j]);
            }
        }
        assert forall|k: int| all.contains(k) <==> 0 <= k < n && p(k) by {
            if all.contains(k) {
                let i = choose|i: int| 0 <= i < all.len() && all[i] == k;
            }
            if 0 <= k < n && p(k) {
                if k < n - 1 {
                    assert(before.contains(k));
                    let i = choose|i: int| 0 <= i < before.len() && before[i] == k;
                    assert(all[i] == k);
                } else {
                    assert(all[all.len() - 1] == k);
                }
            }
        }
    }
}

/// A list of numbers in ascending order that holds exactly the numbers below `n` with `p` is
/// the list selected.
pub proof fn lemma_select_unique(n: nat, p: spec_fn(int) -> bool, s: Seq<int>)
    requires
        rising(s),
        forall|k: int| #[trigger] s.contains(k) <==> 0 <= k < n && p(k),
    ensures
        s == select(n, p),
    decreases n,
{
    if n == 0 {
        if s.len() > 0 {
            assert(s.contains(s[0]));
        }
        assert(s =~= select(n, p));
    } else {
        let m = (n - 1) as nat;
        if p(n - 1) {
            assert(s.contains(n - 1));
            let i = choose|i: int| 0 <= i < s.len() && s[i] == n - 1;
            if i < s.len() - 1 {
                assert(s[i] < s[s.len() - 1]);
                assert(s.contains(s[s.len() - 1]));
            }
            let t = s.drop_last();
            assert forall|k: int| #[trigger] t.contains(k) <==> 0 <= k < m && p(k) by {
                if t.contains(k) {
                    let j = choose|j: int| 0 <= j < t.len() && t[j] == k;
                    assert(s[j] == k);
                    assert(s[j] < s[s.len() - 1]);
                    assert(s.contains(k));
                }
                if 0 <= k < m && p(k) {
                    assert(s.contains(k));
                    let j = choose|j: int| 0 <= j < s.len() && s[j] == k;
                    assert(t[j] == k);
                }
            }
            lemma_select_unique(m, p, t);
            assert(t.push(s.last()) =~= s);
        } else {
            assert forall|k: int| #[trigger] s.contains(k) <==> 0 <= k < m && p(k) by {}
            lemma_select_unique(m, p, s);
        }
    }
}

/// A condition that holds for more numbers selects more of them.
pub proof fn lemma_select_more(n: nat, p: spec_fn(int) -> bool, q: spec_fn(int) -> bool)
    requires
        forall|k: int| 0 <= k < n && #[trigger] p(k) ==> q(k),
    ensures
        select(n, p).len() <= select(n, q).len(),
        (exists|k: int| 0 <= k < n && #[trigger] q(k) && !p(k)) ==> select(n, p).len() < select(
            n,
            q,
        ).len(),
    decreases n,
{
    if n > 0 {
        lemma_select_more((n - 1) as nat, p, q);
    }
}

/// Two conditions that agree below `n` select the same numbers.
pub proof fn lemma_select_same(n: nat, p: spec_fn(int) -> bool, q: spec_fn(int) -> bool)
    requires
        forall|k: int| 0 <= k < n ==> #[trigger] p(k) == q(k),
    ensures
        select(n, p) == select(n, q),
    decreases n,
{
    if n > 0 {
        lemma_select_same((n - 1) as nat, p, q);
    }
}

/// The position of `x` in a list in ascending order, or where it would stand.
fn index_bound(v: &Vec<usize>, x: usize) -> (r: usize)
    requires
        rising(ints(v@)),
    ensures
        r <= v@.len(),
        forall|i: int| 0 <= i < r ==> #[trigger] v@[i] < x,
        forall|i: int| r <= i < v@.len() ==> x <= #[trigger] v@[i],
{
    let mut low: usize = 0;
    let mut high: usize = v.len();
    while low < high
        invariant
            low <= high <= v@.len(),
            rising(ints(v@)),
            forall|i: int| 0 <= i < low ==> #[trigger] v@[i] < x,
            forall|i: int| high <= i < v@.len() ==> x <= #[trigger] v@[i],
        decreases high - low,
    {
        let middle: usize = low + (high - low) / 2;
        proof {
            assert forall|i: int, j: int| 0 <= i < j < v@.len() implies #[trigger] v@[i]
                < #[trigger] v@[j] by {
                assert(ints(v@)[i] < ints(v@)[j]);
            }
        }
        if v[middle] < x {
            low = middle + 1;
        } else {
            high = middle;
        }
    }
    low
}

/// Whether a list in ascending order holds `x`.
pub fn holds_index(v: &Vec<usize>, x: usize) -> (r: bool)
    requires
        rising(ints(v@)),
    ensures
        r == v@.contains(x),
{
    let at = index_bound(v, x);
    proof {
        if v@.contains(x) {
            let k = choose|k: int| 0 <= k < v@.len() && v@[k] == x;
            if k > at {
                assert(ints(v@)[at as int] < ints(v@)[k]);
            }
        }
    }
    at < v.len() && v[at] == x
}

/// Puts `x` into a list in ascending order, unless it is there.
pub fn add_index(v: &mut Vec<usize>, x: usize)
    requires
        rising(ints(old(v)@)),
    ensures
        rising(ints(final(v)@)),
        final(v)@.to_set() == old(v)@.to_set().insert(x),
{
    let at = index_bound(v, x);
    if at < v.len() && v[at] == x {
        assert(v@.to_set() =~= v@.to_set().insert(x));
        return;
    }
    let ghost before = v@;
    v.insert(at, x);
    proof {
        lemma_insert_set(before, at as int, x);
        let (a, b) = (ints(before), ints(v@));
        assert forall|i: int, j: int| 0 <= i < j < b.len() implies #[trigger] b[i]
            < #[trigger] b[j] by {
            let m = if j > at {
                j - 1
            } else {
                j
            };
            if i < at {
                assert(b[i] == a[i] && before[i] < x);
                assert(j != at ==> b[j] == a[m]);
            } else {
                assert(b[j] == a[m] && x <= before[m]);
                if i == at {
                    assert(m > at ==> a[at as int] < a[m]);
                } else {
                    assert(b[i] == a[i - 1]);
                }
            }
        }
    }
}

/// A list of positions holds a number exactly where its numbers do.
pub proof fn lemma_ints(v: Seq<usize>)
    ensures
        forall|x: usize| #[trigger] v.contains(x) <==> ints(v).contains(x as int),
        forall|x: int|
            #[trigger] ints(v).contains(x) ==> 0 <= x <= usize::MAX && v.contains(x as usize),
{
    assert forall|x: usize| #[trigger] v.contains(x) <==> ints(v).contains(x as int) by {
        if v.contains(x) {
            let k = choose|k: int| 0 <= k < v.len() && v[k] == x;
            assert(ints(v)[k] == x);
        }
        if ints(v).contains(x as int) {
            let k = choose|k: int| 0 <= k < v.len() && ints(v)[k] == x;
            assert(v[k] == x);
        }
    }
    assert forall|x: int| #[trigger] ints(v).contains(x) implies 0 <= x <= usize::MAX
        && v.contains(x as usize) by {
        let k = choose|k: int| 0 <= k < v.len() && ints(v)[k] == x;
        assert(v[k] == x);
    }
}

/// A list of positions in ascending order that holds those below `n` with `p` is the list
/// selected.
pub proof fn lemma_selected(v: Seq<usize>, n: nat, p: spec_fn(int) -> bool)
    requires
        rising(ints(v)),
        n <= usize::MAX,
        forall|j: usize| #[trigger] v.contains(j) <==> j < n && p(j as int),
    ensures
        ints(v) == select(n, p),
{
    lemma_ints(v);
    assert forall|k: int| #[trigger] ints(v).contains(k) <==> 0 <= k < n && p(k) by {
        if ints(v).contains(k) {
            assert(v.contains(k as usize));
        }
        if 0 <= k < n && p(k) {
            assert(v.contains(k as usize));
        }
    }
    lemma_select_unique(n, p, ints(v));
}

/// `n` empty lists.
pub fn empty_rows(n: usize) -> (r: Vec<Vec<usize>>)
    ensures
        r@.len() == n,
        forall|i: int| 0 <= i < n ==> (#[trigger] r@[i])@.len() == 0,
{
    let mut out: Vec<Vec<usize>> = Vec::new();
    let mut i: usize = 0;
    while i < n
        invariant
            i <= n,
            out@.len() == i,
            forall|k: int| 0 <= k < i ==> (#[trigger] out@[k])@.len() == 0,
        decreases n - i,
    {
        out.push(Vec::new());
        i += 1;
    }
    out
}

/// The numbers kept of a list up to the next one.
pub proof fn lemma_keep_next(
    row: Seq<usize>,
    k: int,
    before: Seq<usize>,
    after: Seq<usize>,
    p: spec_fn(int) -> bool,
)
    requires
        0 <= k < row.len(),
        forall|x: usize| #[trigger] before.contains(x) <==> row.take(k).contains(x) && p(x as int),
        after == if p(row[k] as int) {
            before.push(row[k])
        } else {
            before
        },
    ensures
        forall|x: usize|
            #[trigger] after.contains(x) <==> row.take(k + 1).contains(x) && p(x as int),
{
    assert(row.take(k + 1) =~= row.take(k).push(row[k]));
    lemma_insert_set(row.take(k), k, row[k]);
    lemma_insert_set(before, before.len() as int, row[k]);
    assert(row.take(k).insert(k, row[k]) =~= row.take(k + 1));
    assert(before.insert(before.len() as int, row[k]) =~= before.push(row[k]));
    assert forall|x: usize|
        #[trigger] after.contains(x) <==> row.take(k + 1).contains(x) && p(x as int) by {
        assert(row.take(k + 1).to_set().contains(x) <==> row.take(k + 1).contains(x));
        assert(row.take(k).to_set().contains(x) <==> row.take(k).contains(x));
        assert(before.push(row[k]).to_set().contains(x) <==> before.push(row[k]).contains(x));
        assert(before.to_set().contains(x) <==> before.contains(x));
    }
}

/// The numbers that two lists in ascending order both hold.
pub fn intersect(a: &Vec<usize>, b: &Vec<usize>) -> (r: Vec<usize>)
    requires
        rising(ints(a@)),
        rising(ints(b@)),
    ensures
        rising(ints(r@)),
        forall|x: usize| #[trigger] r@.contains(x) <==> a@.contains(x) && b@.contains(x),
{
    let mut out: Vec<usize> = Vec::new();
    let ghost p = |x: int| b@.contains(x as usize);
    let mut k: usize = 0;
    while k < a.len()
        invariant
            k <= a@.len(),
            rising(ints(a@)),
            rising(ints(b@)),
            p == |x: int| b@.contains(x as usize),
            rising(ints(out@)),
            forall|x: int|
                0 <= x < out@.len() ==> k < a@.len() ==> #[trigger] out@[x] < a@[k as int],
            forall|x: usize|
                #[trigger] out@.contains(x) <==> a@.take(k as int).contains(x) && p(x as int),
        decreases a@.len() - k,
    {
        let ghost before = out@;
        let x: usize = a[k];
        if holds_index(b, x) {
            out.push(x);
        }
        proof {
            lemma_keep_next(a@, k as int, before, out@, p);
            if k + 1 < a@.len() {
                assert(ints(a@)[k as int] < ints(a@)[k + 1]);
            }
            assert forall|i: int, j: int| 0 <= i < j < out@.len() implies #[trigger] ints(out@)[i]
                < #[trigger] ints(out@)[j] by {
                assert(i < before.len() && out@[i] == before[i]);
                if j < before.len() {
                    assert(ints(before)[i] < ints(before)[j]);
                }
            }
        }
        k += 1;
    }
    assert(a@.take(a@.len() as int) =~= a@);
    out
}

/// The numbers that one of two lists in ascending order holds.
pub fn unite(a: &Vec<usize>, b: &Vec<usize>) -> (r: Vec<usize>)
    requires
        rising(ints(a@)),
    ensures
        rising(ints(r@)),
        forall|x: usize| #[trigger] r@.contains(x) <==> a@.contains(x) || b@.contains(x),
{
    let mut out: Vec<usize> = Vec::new();
    let mut i: usize = 0;
    while i < a.len()
        invariant
            i <= a@.len(),
            out@ == a@.take(i as int),
        decreases a@.len() - i,
    {
        out.push(a[i]);
        assert(a@.take(i + 1) =~= a@.take(i as int).push(a@[i as int]));
        i += 1;
    }
    assert(a@.take(a@.len() as int) =~= a@);
    let mut k: usize = 0;
    while k < b.len()
        invariant
            k <= b@.len(),
            rising(ints(out@)),
            forall|x: usize|
                #[trigger] out@.contains(x) <==> a@.contains(x) || b@.take(k as int).contains(x),
        decreases b@.len() - k,
    {
        let ghost before = out@;
        add_index(&mut out, b[k]);
        proof {
            lemma_insert_set(b@.take(k as int), k as int, b@[k as int]);
            assert(b@.take(k as int).insert(k as int, b@[k as int]) =~= b@.take(k + 1));
            assert forall|x: usize|
                #[trigger] out@.contains(x) <==> a@.contains(x) || b@.take(k + 1).contains(x) by {
                assert(out@.to_set().contains(x) <==> out@.contains(x));
                assert(before.to_set().contains(x) <==> before.contains(x));
                assert(b@.take(k + 1).to_set().contains(x) <==> b@.take(k + 1).contains(x));
                assert(b@.take(k as int).to_set().contains(x) <==> b@.take(k as int).contains(x));
            }
        }
        k += 1;
    }
    assert(b@.take(b@.len() as int) =~= b@);
    out
}

/// The numbers of a list in ascending order that are larger than `x`.
pub fn above(v: &Vec<usize>, x: usize) -> (r: Vec<usize>)
    requires
        rising(ints(v@)),
        x < usize::MAX,
    ensures
        rising(ints(r@)),
        forall|y: usize| #[trigger] r@.contains(y) <==> v@.contains(y) && x < y,
{
    let from = index_bound(v, x + 1);
    let mut out: Vec<usize> = Vec::new();
    let mut i: usize = from;
    while i < v.len()
        invariant
            from <= i <= v@.len(),
            out@ == v@.subrange(from as int, i as int),
        decreases v@.len() - i,
    {
        out.push(v[i]);
        assert(v@.subrange(from as int, i + 1) =~= v@.subrange(from as int, i as int).push(
            v@[i as int],
        ));
        i += 1;
    }
    proof {
        assert forall|a: int, b: int| 0 <= a < b < out@.len() implies #[trigger] ints(out@)[a]
            < #[trigger] ints(out@)[b] by {
            assert(ints(v@)[from + a] < ints(v@)[from + b]);
        }
        assert forall|y: usize| #[trigger] out@.contains(y) <==> v@.contains(y) && x < y by {
            if out@.contains(y) {
                let k = choose|k: int| 0 <= k < out@.len() && out@[k] == y;
                assert(v@[from + k] == y);
            }
            if v@.contains(y) && x < y {
                let k = choose|k: int| 0 <= k < v@.len() && v@[k] == y;
                assert(k >= from);
                assert(out@[k - from] == y);
            }
        }
    }
    out
}

} // verus!
