use vstd::prelude::*;
use vstd::relations::{sorted_by, total_ordering};

verus! {

/// One sample held by the filter: its key and how many insertions ago it came in.
#[derive(Clone, Copy)]
struct Item {
    value: u32,
    age: usize,
}

/// A rolling rank filter over the last `N` samples.
///
/// Samples are order-preserving keys (a non-negative `f32` is keyed by its
/// bits). The filter keeps the last `N` samples, kept sorted by key, each
/// tagged with its age; a new sample replaces the oldest one, and the filter
/// reports the sample of rank `N >> 2` in ascending order.
#[derive(Clone, Copy)]
pub struct Median<const N: usize> {
    queue: [Item; N],
}

/// The order in which the filter ranks its samples.
pub open spec fn key_le() -> spec_fn(u32, u32) -> bool {
    |a: u32, b: u32| a <= b
}

/// The samples of a window in ascending order.
pub open spec fn ascending(w: Seq<u32>) -> Seq<u32> {
    w.sort_by(key_le())
}

/// What the filter reports for a window: the sample of rank `len / 4`
/// in ascending order.
pub open spec fn reported(w: Seq<u32>) -> u32 {
    ascending(w)[w.len() as int / 4]
}

/// The window after one more sample: the oldest leaves, `v` comes in last.
pub open spec fn shifted(w: Seq<u32>, v: u32) -> Seq<u32> {
    w.drop_first().push(v)
}

/// The index of the item of age `a`.
spec fn index_of_age(q: Seq<Item>, a: int) -> int {
    choose|i: int| 0 <= i < q.len() && q[i].age == a
}

/// The key of the item of age `a`.
spec fn value_of_age(q: Seq<Item>, a: int) -> u32 {
    q[index_of_age(q, a)].value
}

/// The keys held in `q`, oldest first.
spec fn window_of(q: Seq<Item>) -> Seq<u32> {
    Seq::new(q.len(), |k: int| value_of_age(q, q.len() - 1 - k))
}

/// The keys held in `q`, in the order in which they are stored.
spec fn stored_values(q: Seq<Item>) -> Seq<u32> {
    Seq::new(q.len(), |i: int| q[i].value)
}

/// The ages in `q` are exactly `0..len`, each once.
spec fn ages_ok(q: Seq<Item>) -> bool {
    &&& forall|i: int| 0 <= i < q.len() ==> (#[trigger] q[i].age as int) < q.len()
    &&& forall|i: int, j: int|
        0 <= i < q.len() && 0 <= j < q.len() && i != j ==> #[trigger] q[i].age != #[trigger] q[j].age
    &&& forall|a: int| 0 <= a < q.len() ==> #[trigger] has_age(q, a)
}

/// Some item of `q` has age `a`.
spec fn has_age(q: Seq<Item>, a: int) -> bool {
    exists|i: int| 0 <= i < q.len() && #[trigger] q[i].age == a
}

/// The items of `q` are stored in ascending order of their keys.
spec fn values_sorted(q: Seq<Item>) -> bool {
    forall|i: int, j: int| 0 <= i <= j < q.len() ==> #[trigger] q[i].value <= #[trigger] q[j].value
}

proof fn lemma_index_of_age(q: Seq<Item>, a: int)
    requires
        ages_ok(q),
        0 <= a < q.len(),
    ensures
        0 <= index_of_age(q, a) < q.len(),
        q[index_of_age(q, a)].age == a,
        forall|i: int| 0 <= i < q.len() && q[i].age == a ==> i == index_of_age(q, a),
{
    assert(has_age(q, a));
}

spec fn swap_index(i: int, j: int, k: int) -> int {
    if k == i { j } else if k == j { i } else { k }
}

/// Exchanging two items keeps the ages well formed and the window unchanged.
proof fn lemma_swap(q: Seq<Item>, i: int, j: int)
    requires
        ages_ok(q),
        0 <= i < q.len(),
        0 <= j < q.len(),
    ensures
        ages_ok(q.update(i, q[j]).update(j, q[i])),
        window_of(q.update(i, q[j]).update(j, q[i])) == window_of(q),
{
    let q2 = q.update(i, q[j]).update(j, q[i]);
    let sigma = |k: int| swap_index(i, j, k);
    assert forall|k: int| 0 <= k < q.len() implies #[trigger] q2[k] == q[sigma(k)] by {}
    assert forall|a: int| 0 <= a < q2.len() implies #[trigger] has_age(q2, a) by {
        lemma_index_of_age(q, a);
        let m = index_of_age(q, a);
        let k = sigma(m);
        assert(q2[k] == q[m]);
    }
    assert forall|k: int, l: int|
        0 <= k < q2.len() && 0 <= l < q2.len() && k != l implies #[trigger] q2[k].age
        != #[trigger] q2[l].age by {
        assert(q2[k] == q[sigma(k)]);
        assert(q2[l] == q[sigma(l)]);
    }
    assert forall|k: int| 0 <= k < q2.len() implies (#[trigger] q2[k].age as int) < q2.len() by {
        assert(q2[k] == q[sigma(k)]);
    }
    assert forall|k: int| 0 <= k < q.len() implies #[trigger] window_of(q2)[k] == window_of(q)[k] by {
        let a = q.len() - 1 - k;
        lemma_index_of_age(q, a);
        lemma_index_of_age(q2, a);
        let m2 = index_of_age(q2, a);
        assert(q2[m2] == q[sigma(m2)]);
    }
    assert(window_of(q2) =~= window_of(q));
}

/// Aging every item by one and putting `v` in place of the oldest one
/// keeps the ages well formed and shifts the window by `v`.
proof fn lemma_age_and_replace(q0: Seq<Item>, q2: Seq<Item>, p: int, v: u32)
    requires
        ages_ok(q0),
        q0.len() > 0,
        q0.len() <= usize::MAX,
        0 <= p < q0.len(),
        q0[p].age == q0.len() - 1,
        q2.len() == q0.len(),
        q2[p] == (Item { value: v, age: 0 }),
        forall|k: int|
            0 <= k < q0.len() && k != p ==> #[trigger] q2[k] == (Item {
                value: q0[k].value,
                age: (q0[k].age + 1) as usize,
            }),
    ensures
        ages_ok(q2),
        window_of(q2) == shifted(window_of(q0), v),
{
    let n = q0.len();
    assert forall|k: int| 0 <= k < n implies (#[trigger] q2[k].age as int) < n by {
        if k != p {
            assert(q0[k].age != q0[p].age);
        }
    }
    assert forall|k: int, l: int|
        0 <= k < n && 0 <= l < n && k != l implies #[trigger] q2[k].age != #[trigger] q2[l].age by {
        if k != p && l != p {
            assert(q0[k].age != q0[l].age);
        }
    }
    assert forall|a: int| 0 <= a < n implies #[trigger] has_age(q2, a) by {
        if a == 0 {
            assert(q2[p].age == a);
        } else {
            lemma_index_of_age(q0, a - 1);
            let m = index_of_age(q0, a - 1);
            assert(m != p);
            assert(q2[m].age == a);
        }
    }
    assert(ages_ok(q2));
    let w0 = window_of(q0);
    let w2 = window_of(q2);
    let w = shifted(w0, v);
    assert forall|k: int| 0 <= k < n implies #[trigger] w2[k] == w[k] by {
        let a = n - 1 - k;
        lemma_index_of_age(q2, a);
        let m2 = index_of_age(q2, a);
        if k == n - 1 {
            assert(q2[p].age == 0);
            assert(m2 == p);
        } else {
            assert(m2 != p);
            lemma_index_of_age(q0, a - 1);
            assert(q0[m2].age == a - 1);
            assert(index_of_age(q0, a - 1) == m2);
            assert(w[k] == w0[k + 1]);
        }
    }
    assert(w2 =~= w);
}

/// Two sequences, one of which lists the other through a bijection of
/// indices, hold the same multiset of elements.
proof fn lemma_reindexed_multiset(s: Seq<u32>, t: Seq<u32>, f: spec_fn(int) -> int)
    requires
        s.len() == t.len(),
        forall|k: int| 0 <= k < t.len() ==> 0 <= #[trigger] f(k) < s.len(),
        forall|k: int| 0 <= k < t.len() ==> #[trigger] t[k] == s[f(k)],
        forall|k: int, l: int|
            0 <= k < t.len() && 0 <= l < t.len() && k != l ==> #[trigger] f(k) != #[trigger] f(l),
    ensures
        s.to_multiset() == t.to_multiset(),
    decreases t.len(),
{
    broadcast use vstd::seq_lib::group_to_multiset_ensures;

    if t.len() == 0 {
        assert(s.to_multiset() =~= t.to_multiset());
    } else {
        let n = t.len() - 1;
        let p = f(n);
        let s1 = s.remove(p);
        let t1 = t.drop_last();
        let g = |k: int| if f(k) < p { f(k) } else { f(k) - 1 };
        assert forall|k: int| 0 <= k < t1.len() implies 0 <= #[trigger] g(k) < s1.len() by {
            assert(f(k) != f(n));
        }
        assert forall|k: int| 0 <= k < t1.len() implies #[trigger] t1[k] == s1[g(k)] by {
            assert(f(k) != f(n));
        }
        assert forall|k: int, l: int|
            0 <= k < t1.len() && 0 <= l < t1.len() && k != l implies #[trigger] g(k)
            != #[trigger] g(l) by {
            assert(f(k) != f(n));
            assert(f(l) != f(n));
        }
        lemma_reindexed_multiset(s1, t1, g);
        vstd::seq_lib::to_multiset_remove(s, p);
        assert(t =~= t1.push(t[n]));
        vstd::seq_lib::to_multiset_build(t1, t[n]);
        assert(s.to_multiset().contains(s[p]));
        assert(s.to_multiset() =~= s.to_multiset().remove(s[p]).insert(s[p]));
    }
}

/// With well-formed ages, the stored keys and the window are the same multiset.
proof fn lemma_stored_is_window(q: Seq<Item>)
    requires
        ages_ok(q),
    ensures
        stored_values(q).to_multiset() == window_of(q).to_multiset(),
{
    let n = q.len();
    let f = |k: int| index_of_age(q, n - 1 - k);
    assert forall|k: int| 0 <= k < n implies 0 <= #[trigger] f(k) < n by {
        lemma_index_of_age(q, n - 1 - k);
    }
    assert forall|k: int| 0 <= k < n implies #[trigger] window_of(q)[k] == stored_values(q)[f(k)] by {
        lemma_index_of_age(q, n - 1 - k);
    }
    assert forall|k: int, l: int| 0 <= k < n && 0 <= l < n && k != l implies #[trigger] f(k)
        != #[trigger] f(l) by {
        lemma_index_of_age(q, n - 1 - k);
        lemma_index_of_age(q, n - 1 - l);
    }
    lemma_reindexed_multiset(stored_values(q), window_of(q), f);
}

proof fn lemma_shift_is_quarter(n: usize)
    by (bit_vector)
    ensures
        n >> 2 == n / 4,
{
}

proof fn lemma_key_le_total()
    ensures
        total_ordering(key_le()),
{
}

/// A sorted sequence holding the same keys as `w` is `ascending(w)`.
proof fn lemma_ascending_unique(s: Seq<u32>, w: Seq<u32>)
    requires
        sorted_by(s, key_le()),
        s.to_multiset() == w.to_multiset(),
    ensures
        s == ascending(w),
{
    lemma_key_le_total();
    w.lemma_sort_by_ensures(key_le());
    vstd::seq_lib::lemma_sorted_unique(s, ascending(w), key_le());
}

/// The window after the samples `vs` have come in, in order, starting from `w`.
pub open spec fn shifted_by_all(w: Seq<u32>, vs: Seq<u32>) -> Seq<u32>
    decreases vs.len(),
{
    if vs.len() == 0 {
        w
    } else {
        shifted(shifted_by_all(w, vs.drop_last()), vs.last())
    }
}

/// The filter reports one of the samples of its window: it never makes up a value.
pub proof fn law_reported_is_a_sample(w: Seq<u32>)
    requires
        w.len() > 0,
    ensures
        w.contains(reported(w)),
{
    broadcast use vstd::seq_lib::group_to_multiset_ensures;

    lemma_key_le_total();
    w.lemma_sort_by_ensures(key_le());
    let s = ascending(w);
    assert(s.len() == w.len()) by {
        assert(s.to_multiset().len() == w.to_multiset().len());
    }
    assert(s.contains(s[w.len() as int / 4]));
}

/// What the filter reports depends only on which samples its window holds,
/// not on the order in which they came in.
pub proof fn law_reported_ignores_order(w1: Seq<u32>, w2: Seq<u32>)
    requires
        w1.to_multiset() == w2.to_multiset(),
    ensures
        reported(w1) == reported(w2),
{
    broadcast use vstd::seq_lib::group_to_multiset_ensures;

    lemma_key_le_total();
    w1.lemma_sort_by_ensures(key_le());
    lemma_ascending_unique(ascending(w1), w2);
    vstd::seq_lib::to_multiset_len(w1);
    vstd::seq_lib::to_multiset_len(w2);
}

/// Taking in `m` samples, no more than the window holds, drops the `m` oldest
/// samples and appends the new ones in order.
pub proof fn law_window_slides(w: Seq<u32>, vs: Seq<u32>)
    requires
        vs.len() <= w.len(),
    ensures
        shifted_by_all(w, vs) == w.skip(vs.len() as int) + vs,
    decreases vs.len(),
{
    if vs.len() > 0 {
        let rest = vs.drop_last();
        law_window_slides(w, rest);
        assert(shifted_by_all(w, vs) == shifted(w.skip(rest.len() as int) + rest, vs.last()));
        assert(shifted(w.skip(rest.len() as int) + rest, vs.last()) =~= w.skip(vs.len() as int) + vs);
    } else {
        assert(w.skip(0) + vs =~= w);
    }
}

/// After as many samples as the window holds, the window is exactly those
/// samples, whatever it held before: the filter forgets everything older.
pub proof fn law_window_forgets(w: Seq<u32>, vs: Seq<u32>)
    requires
        vs.len() == w.len(),
    ensures
        shifted_by_all(w, vs) == vs,
{
    law_window_slides(w, vs);
    assert(w.skip(vs.len() as int) + vs =~= vs);
}

/// How many samples of `s` are at most `x`.
pub open spec fn count_at_most(s: Seq<u32>, x: u32) -> nat
    decreases s.len(),
{
    if s.len() == 0 {
        0
    } else {
        count_at_most(s.drop_last(), x) + (if s.last() <= x { 1nat } else { 0nat })
    }
}

proof fn lemma_count_bound(s: Seq<u32>, x: u32)
    ensures
        count_at_most(s, x) <= s.len(),
    decreases s.len(),
{
    if s.len() > 0 {
        lemma_count_bound(s.drop_last(), x);
    }
}

proof fn lemma_count_all(s: Seq<u32>, x: u32)
    requires
        forall|k: int| 0 <= k < s.len() ==> #[trigger] s[k] <= x,
    ensures
        count_at_most(s, x) == s.len(),
    decreases s.len(),
{
    if s.len() > 0 {
        lemma_count_all(s.drop_last(), x);
    }
}

/// Removing the sample at `i` lowers the count by one exactly when that sample counts.
proof fn lemma_count_remove(s: Seq<u32>, i: int, x: u32)
    requires
        0 <= i < s.len(),
    ensures
        count_at_most(s, x) == count_at_most(s.remove(i), x) + (if s[i] <= x { 1nat } else { 0nat }),
    decreases s.len(),
{
    if i == s.len() - 1 {
        assert(s.remove(i) =~= s.drop_last());
    } else {
        lemma_count_remove(s.drop_last(), i, x);
        assert(s.remove(i).drop_last() =~= s.drop_last().remove(i));
        assert(s.remove(i).last() == s.last());
    }
}

/// Sequences holding the same samples have the same counts.
proof fn lemma_count_permutation(s: Seq<u32>, t: Seq<u32>, x: u32)
    requires
        s.to_multiset() == t.to_multiset(),
    ensures
        count_at_most(s, x) == count_at_most(t, x),
    decreases s.len(),
{
    broadcast use vstd::multiset::group_multiset_axioms;

    vstd::seq_lib::to_multiset_len(s);
    vstd::seq_lib::to_multiset_len(t);
    if s.len() > 0 {
        let v = s.last();
        let s1 = s.drop_last();
        assert(s =~= s1.push(v));
        vstd::seq_lib::to_multiset_build(s1, v);
        vstd::seq_lib::to_multiset_contains(t, v);
        assert(t.to_multiset().count(v) > 0);
        assert(t.contains(v));
        let i = choose|i: int| 0 <= i < t.len() && t[i] == v;
        vstd::seq_lib::to_multiset_remove(t, i);
        let t1 = t.remove(i);
        assert(t1.to_multiset() =~= s1.to_multiset());
        lemma_count_permutation(s1, t1, x);
        lemma_count_remove(t, i, x);
    }
}

proof fn lemma_sorted_drop_last(t: Seq<u32>)
    requires
        sorted_by(t, key_le()),
        t.len() > 0,
    ensures
        sorted_by(t.drop_last(), key_le()),
{
    let d = t.drop_last();
    assert forall|i: int, j: int| 0 <= i < j < d.len() implies #[trigger] key_le()(d[i], d[j]) by {
        assert(key_le()(t[i], t[j]));
    }
}

/// In an ascending sequence, if the sample at rank `r` is at most `x`,
/// then at least `r + 1` samples are.
proof fn lemma_count_sorted_at_least(t: Seq<u32>, r: int, x: u32)
    requires
        sorted_by(t, key_le()),
        0 <= r < t.len(),
        t[r] <= x,
    ensures
        count_at_most(t, x) >= r + 1,
    decreases t.len(),
{
    let d = t.drop_last();
    if r == t.len() - 1 {
        assert forall|k: int| 0 <= k < d.len() implies #[trigger] d[k] <= x by {
            assert(key_le()(t[k], t[r]));
        }
        lemma_count_all(d, x);
    } else {
        lemma_sorted_drop_last(t);
        lemma_count_sorted_at_least(d, r, x);
    }
}

/// In an ascending sequence, if the sample at rank `r` is above `x`,
/// then at most `r` samples are at most `x`.
proof fn lemma_count_sorted_at_most(t: Seq<u32>, r: int, x: u32)
    requires
        sorted_by(t, key_le()),
        0 <= r < t.len(),
        t[r] > x,
    ensures
        count_at_most(t, x) <= r,
    decreases t.len(),
{
    let d = t.drop_last();
    if r == t.len() - 1 {
        lemma_count_bound(d, x);
    } else {
        assert(key_le()(t[r], t[t.len() - 1]));
        lemma_sorted_drop_last(t);
        lemma_count_sorted_at_most(d, r, x);
    }
}

/// From the same window, a larger new sample never makes the filter report
/// a smaller value.
pub proof fn law_reported_monotone(w: Seq<u32>, a: u32, b: u32)
    requires
        w.len() > 0,
        a <= b,
    ensures
        reported(shifted(w, a)) <= reported(shifted(w, b)),
{
    let s1 = shifted(w, a);
    let s2 = shifted(w, b);
    lemma_key_le_total();
    s1.lemma_sort_by_ensures(key_le());
    s2.lemma_sort_by_ensures(key_le());
    let t1 = ascending(s1);
    let t2 = ascending(s2);
    vstd::seq_lib::to_multiset_len(s1);
    vstd::seq_lib::to_multiset_len(t1);
    vstd::seq_lib::to_multiset_len(s2);
    vstd::seq_lib::to_multiset_len(t2);
    let r = s1.len() as int / 4;
    let y = t2[r];
    lemma_count_sorted_at_least(t2, r, y);
    lemma_count_permutation(s2, t2, y);
    lemma_count_permutation(s1, t1, y);
    assert(s1.drop_last() =~= s2.drop_last());
    assert(count_at_most(s1, y) >= count_at_most(s2, y));
    if t1[r] > y {
        lemma_count_sorted_at_most(t1, r, y);
    }
}

/// Ties in `q` stand in the order in which they stood in `q0`, items being
/// told apart by their ages.
spec fn keeps_tie_order(q: Seq<Item>, q0: Seq<Item>) -> bool {
    forall|a: int, b: int|
        0 <= a < b < q.len() && #[trigger] q[a].value == #[trigger] q[b].value ==> index_of_age(
            q0,
            q[a].age as int,
        ) < index_of_age(q0, q[b].age as int)
}

proof fn lemma_tie_order_start(q: Seq<Item>)
    requires
        ages_ok(q),
    ensures
        keeps_tie_order(q, q),
{
    assert forall|a: int, b: int|
        0 <= a < b < q.len() && #[trigger] q[a].value == #[trigger] q[b].value implies index_of_age(
            q,
            q[a].age as int,
        ) < index_of_age(q, q[b].age as int) by {
        lemma_index_of_age(q, q[a].age as int);
        lemma_index_of_age(q, q[b].age as int);
    }
}

/// Exchanging two neighbours whose keys differ keeps the order of ties.
proof fn lemma_swap_keeps_tie_order(q: Seq<Item>, q0: Seq<Item>, j: int)
    requires
        keeps_tie_order(q, q0),
        0 < j < q.len(),
        q[j].value < q[j - 1].value,
    ensures
        keeps_tie_order(q.update(j, q[j - 1]).update(j - 1, q[j]), q0),
{
    let q2 = q.update(j, q[j - 1]).update(j - 1, q[j]);
    assert forall|k: int| 0 <= k < q.len() implies #[trigger] q2[k] == q[swap_index(j, j - 1, k)] by {}
    assert forall|a: int, b: int|
        0 <= a < b < q2.len() && #[trigger] q2[a].value == #[trigger] q2[b].value implies index_of_age(
            q0,
            q2[a].age as int,
        ) < index_of_age(q0, q2[b].age as int) by {
        let sa = swap_index(j, j - 1, a);
        let sb = swap_index(j, j - 1, b);
        assert(q2[a] == q[sa]);
        assert(q2[b] == q[sb]);
        assert(sa < sb);
        assert(q[sa].value == q[sb].value);
    }
}

impl<const N: usize> Median<N> {
    #[verifier::type_invariant]
    spec fn well_formed(self) -> bool {
        &&& N > 0
        &&& ages_ok(self.queue@)
        &&& values_sorted(self.queue@)
    }

    /// The keys in the order in which the filter stores them.
    pub closed spec fn stored(&self) -> Seq<u32> {
        stored_values(self.queue@)
    }

    /// The ages of the stored samples, in storage order: how many insertions
    /// ago each came in.
    pub closed spec fn ages(&self) -> Seq<int> {
        Seq::new(self.queue@.len(), |i: int| self.queue@[i].age as int)
    }

    /// How the filter stores its window: `N` samples in ascending order of key,
    /// their ages being exactly `0..N`, each once, and the sample of age `a`
    /// being the window's sample `N - 1 - a`.
    pub open spec fn storage_consistent(&self) -> bool {
        &&& self.stored().len() == N
        &&& self.ages().len() == N
        &&& sorted_by(self.stored(), key_le())
        &&& self.stored() == ascending(self@)
        &&& forall|i: int| 0 <= i < N ==> 0 <= #[trigger] self.ages()[i] < N
        &&& forall|i: int, j: int|
            0 <= i < N && 0 <= j < N && i != j ==> #[trigger] self.ages()[i] != #[trigger] self.ages()[j]
        &&& forall|a: int| 0 <= a < N ==> #[trigger] self.ages().contains(a)
        &&& forall|i: int| 0 <= i < N ==> #[trigger] self.stored()[i] == self@[N - 1 - self.ages()[i]]
    }

    proof fn lemma_storage_consistent(self)
        requires
            ages_ok(self.queue@),
            values_sorted(self.queue@),
        ensures
            self.storage_consistent(),
    {
        let q = self.queue@;
        assert(q.len() == N);
        assert forall|a: int| 0 <= a < N implies #[trigger] self.ages().contains(a) by {
            lemma_index_of_age(q, a);
            assert(self.ages()[index_of_age(q, a)] == a);
        }
        assert forall|i: int| 0 <= i < N implies #[trigger] self.stored()[i] == self@[N - 1
            - self.ages()[i]] by {
            lemma_index_of_age(q, q[i].age as int);
        }
        assert forall|i: int, j: int| 0 <= i < j < q.len() implies #[trigger] key_le()(
            stored_values(q)[i],
            stored_values(q)[j],
        ) by {
            assert(q[i].value <= q[j].value);
        }
        lemma_stored_is_window(q);
        lemma_ascending_unique(stored_values(q), window_of(q));
    }

    /// Every filter holds exactly `N` samples in its window.
    pub proof fn law_window_has_n_samples(&self)
        ensures
            self@.len() == N,
    {
        assert(self.queue@.len() == N);
    }

    /// Creates a filter whose window holds `N` zero samples.
    pub fn new() -> (m: Self)
        requires
            N > 0,
        ensures
            m@.len() == N,
            forall|k: int| 0 <= k < N ==> m@[k] == 0,
            m.storage_consistent(),
            forall|i: int| 0 <= i < N ==> #[trigger] m.ages()[i] == i,
    {
        let mut queue: [Item; N] = vstd::array::array_fill_for_copy_types(Item { value: 0, age: 0 });
        let mut i: usize = 0;
        while i < N
            invariant
                0 <= i <= N,
                queue@.len() == N,
                forall|k: int| 0 <= k < i ==> #[trigger] queue@[k] == (Item { value: 0, age: k as usize }),
                forall|k: int| 0 <= k < N ==> #[trigger] queue@[k].value == 0,
            decreases N - i,
        {
            queue[i] = Item { value: 0, age: i };
            i += 1;
        }
        let ghost q = queue@;
        assert forall|a: int| 0 <= a < q.len() implies #[trigger] has_age(q, a) by {
            assert(q[a].age == a);
        }
        assert(ages_ok(q));
        let m = Median { queue };
        assert forall|k: int| 0 <= k < N implies m@[k] == 0 by {
            lemma_index_of_age(q, N - 1 - k);
        }
        proof {
            m.lemma_storage_consistent();
        }
        m
    }

    /// Sorts the items by key, moving them only by exchanges.
    fn sort(queue: &mut [Item; N])
        requires
            N > 0,
            ages_ok(old(queue)@),
        ensures
            ages_ok(final(queue)@),
            window_of(final(queue)@) == window_of(old(queue)@),
            values_sorted(final(queue)@),
            keeps_tie_order(final(queue)@, old(queue)@),
    {
        let ghost w0 = window_of(queue@);
        let ghost q0 = queue@;
        proof {
            lemma_tie_order_start(q0);
        }
        let mut i: usize = 1;
        while i < N
            invariant
                1 <= i <= N,
                queue@.len() == N,
                ages_ok(queue@),
                window_of(queue@) == w0,
                keeps_tie_order(queue@, q0),
                forall|a: int, b: int|
                    0 <= a <= b < i ==> #[trigger] queue@[a].value <= #[trigger] queue@[b].value,
            decreases N - i,
        {
            let mut j: usize = i;
            while (j > 0) && (queue[j].value < queue[j - 1].value)
                invariant
                    0 <= j <= i < N,
                    queue@.len() == N,
                    ages_ok(queue@),
                    window_of(queue@) == w0,
                    keeps_tie_order(queue@, q0),
                    forall|a: int, b: int|
                        0 <= a <= b < j ==> #[trigger] queue@[a].value <= #[trigger] queue@[b].value,
                    forall|a: int, b: int|
                        j <= a <= b <= i ==> #[trigger] queue@[a].value <= #[trigger] queue@[b].value,
                    forall|a: int, b: int|
                        0 <= a < j && j < b <= i ==> #[trigger] queue@[a].value
                            <= #[trigger] queue@[b].value,
                decreases j,
            {
                let moving = queue[j];
                let other = queue[j - 1];
                proof {
                    lemma_swap(queue@, j as int, j - 1);
                    lemma_swap_keeps_tie_order(queue@, q0, j as int);
                }
                queue[j] = other;
                queue[j - 1] = moving;
                j -= 1;
            }
            i += 1;
        }
    }

    /// Takes in one sample: every item ages by one, the oldest is replaced by
    /// `value`, the items are sorted again, and the sample of rank `N >> 2`
    /// is returned.
    pub fn insert(&mut self, value: u32) -> (r: u32)
        ensures
            final(self)@ == shifted(old(self)@, value),
            final(self)@.len() == N,
            r == reported(final(self)@),
            final(self).storage_consistent(),
            forall|i: int|
                0 <= i < N && #[trigger] final(self).ages()[i] == 0 ==> final(self).stored()[i] == value,
    {
        proof {
            use_type_invariant(&*self);
        }
        let mut queue = self.queue;
        let ghost q0 = queue@;
        let mut index_to_pop: usize = 0;
        let mut i: usize = 0;
        while i < N
            invariant
                0 <= i <= N,
                N > 0,
                q0.len() == N,
                queue@.len() == N,
                ages_ok(q0),
                forall|k: int|
                    0 <= k < i ==> #[trigger] queue@[k] == (Item {
                        value: q0[k].value,
                        age: (q0[k].age + 1) as usize,
                    }),
                forall|k: int| i <= k < N ==> #[trigger] queue@[k] == q0[k],
                index_to_pop < N,
                (exists|k: int| 0 <= k < i && #[trigger] q0[k].age == N - 1) ==> q0[index_to_pop as int].age
                    == N - 1,
            decreases N - i,
        {
            let item = queue[i];
            assert(q0[i as int].age < N);
            let age = item.age + 1;
            queue[i] = Item { value: item.value, age };
            if age == N {
                index_to_pop = i;
            }
            proof {
                if exists|k: int| 0 <= k < i + 1 && #[trigger] q0[k].age == N - 1 {
                    let k = choose|k: int| 0 <= k < i + 1 && #[trigger] q0[k].age == N - 1;
                    if k == i {
                        assert(index_to_pop == i);
                    } else {
                        assert(exists|k: int| 0 <= k < i && #[trigger] q0[k].age == N - 1);
                    }
                }
            }
            i += 1;
        }
        proof {
            lemma_index_of_age(q0, N - 1);
            let m = index_of_age(q0, N - 1);
            assert(0 <= m < N && q0[m].age == N - 1);
        }
        queue[index_to_pop] = Item { value, age: 0 };
        proof {
            lemma_age_and_replace(q0, queue@, index_to_pop as int, value);
        }
        Self::sort(&mut queue);
        self.queue = queue;
        proof {
            let q = self.queue@;
            lemma_stored_is_window(q);
            assert(sorted_by(stored_values(q), key_le()));
            lemma_ascending_unique(stored_values(q), window_of(q));
            lemma_shift_is_quarter(N);
            self.lemma_storage_consistent();
        }
        self.queue[N >> 2].value
    }
}

impl<const N: usize> View for Median<N> {
    type V = Seq<u32>;

    /// The keys of the window, oldest first.
    closed spec fn view(&self) -> Seq<u32> {
        window_of(self.queue@)
    }
}

} // verus!
