//! The representative height of one hour: the upper median of its readings.

use vstd::prelude::*;

verus! {

/// Number of readings in `s` strictly below `m`.
pub open spec fn count_lt(s: Seq<u32>, m: u32) -> nat
    decreases s.len(),
{
    if s.len() == 0 {
        0
    } else {
        count_lt(s.drop_last(), m) + if s.last() < m { 1nat } else { 0nat }
    }
}

/// Number of readings in `s` at most `m`.
pub open spec fn count_le(s: Seq<u32>, m: u32) -> nat
    decreases s.len(),
{
    if s.len() == 0 {
        0
    } else {
        count_le(s.drop_last(), m) + if s.last() <= m { 1nat } else { 0nat }
    }
}

/// Number of readings in `s` strictly above `m`.
pub open spec fn count_gt(s: Seq<u32>, m: u32) -> nat
    decreases s.len(),
{
    if s.len() == 0 {
        0
    } else {
        count_gt(s.drop_last(), m) + if s.last() > m { 1nat } else { 0nat }
    }
}

/// `m` is the element at index `len / 2` of `s` sorted ascending: at most
/// `len / 2` readings lie below it, and more than `len / 2` at or below it.
pub open spec fn is_upper_median(s: Seq<u32>, m: u32) -> bool {
    count_lt(s, m) <= s.len() / 2 < count_le(s, m)
}

/// The upper median of a non-empty sequence of readings.
pub open spec fn upper_median(s: Seq<u32>) -> u32 {
    choose|m: u32| is_upper_median(s, m)
}

/// Ascending order.
pub open spec fn sorted(s: Seq<u32>) -> bool {
    forall|i: int, j: int| 0 <= i <= j < s.len() ==> s[i] <= s[j]
}

proof fn lemma_count_concat(a: Seq<u32>, b: Seq<u32>, m: u32)
    ensures
        count_lt(a + b, m) == count_lt(a, m) + count_lt(b, m),
        count_le(a + b, m) == count_le(a, m) + count_le(b, m),
    decreases b.len(),
{
    if b.len() == 0 {
        assert(a + b =~= a);
    } else {
        lemma_count_concat(a, b.drop_last(), m);
        assert((a + b).drop_last() =~= a + b.drop_last());
    }
}

proof fn lemma_count_bounds(s: Seq<u32>, m: u32)
    ensures
        count_lt(s, m) <= count_le(s, m) <= s.len(),
        count_le(s, m) + count_gt(s, m) == s.len(),
    decreases s.len(),
{
    if s.len() > 0 {
        lemma_count_bounds(s.drop_last(), m);
    }
}

proof fn lemma_count_all_ge(s: Seq<u32>, m: u32)
    requires
        forall|i: int| 0 <= i < s.len() ==> s[i] >= m,
    ensures
        count_lt(s, m) == 0,
    decreases s.len(),
{
    if s.len() > 0 {
        lemma_count_all_ge(s.drop_last(), m);
    }
}

proof fn lemma_count_all_le(s: Seq<u32>, m: u32)
    requires
        forall|i: int| 0 <= i < s.len() ==> s[i] <= m,
    ensures
        count_le(s, m) == s.len(),
    decreases s.len(),
{
    if s.len() > 0 {
        lemma_count_all_le(s.drop_last(), m);
    }
}

/// Below `m + 1` means at most `m`.
proof fn lemma_count_lt_succ(s: Seq<u32>, m: u32)
    requires
        m < u32::MAX,
    ensures
        count_lt(s, (m + 1) as u32) == count_le(s, m),
    decreases s.len(),
{
    if s.len() > 0 {
        lemma_count_lt_succ(s.drop_last(), m);
    }
}

/// A smaller candidate has no more readings at or below it than a larger one
/// has strictly below it.
proof fn lemma_count_le_lt_mono(s: Seq<u32>, a: u32, b: u32)
    requires
        a < b,
    ensures
        count_le(s, a) <= count_lt(s, b),
    decreases s.len(),
{
    if s.len() > 0 {
        lemma_count_le_lt_mono(s.drop_last(), a, b);
    }
}

proof fn lemma_median_exists_below(s: Seq<u32>, k: u32)
    requires
        count_le(s, k) > s.len() / 2,
    ensures
        is_upper_median(s, upper_median(s)),
    decreases k,
{
    if k == 0 {
        lemma_count_all_ge(s, 0);
        assert(is_upper_median(s, 0));
    } else if count_le(s, (k - 1) as u32) > s.len() / 2 {
        lemma_median_exists_below(s, (k - 1) as u32);
    } else {
        lemma_count_lt_succ(s, (k - 1) as u32);
        assert(is_upper_median(s, k));
    }
}

/// Every non-empty sequence of readings has an upper median.
pub proof fn lemma_median_exists(s: Seq<u32>)
    requires
        s.len() > 0,
    ensures
        is_upper_median(s, upper_median(s)),
{
    lemma_count_all_le(s, u32::MAX);
    lemma_median_exists_below(s, u32::MAX);
}

/// The upper median is unique.
pub proof fn lemma_median_unique(s: Seq<u32>, a: u32, b: u32)
    requires
        is_upper_median(s, a),
        is_upper_median(s, b),
    ensures
        a == b,
{
    if a < b {
        lemma_count_le_lt_mono(s, a, b);
    } else if b < a {
        lemma_count_le_lt_mono(s, b, a);
    }
}

/// In a sorted sequence the upper median is the element at index `len / 2`.
pub proof fn lemma_median_of_sorted(s: Seq<u32>)
    requires
        s.len() > 0,
        sorted(s),
    ensures
        upper_median(s) == s[(s.len() / 2) as int],
{
    let k: int = (s.len() / 2) as int;
    let m = s[k];
    let lo = s.take(k);
    let hi = s.skip(k);
    assert(s =~= lo + hi);
    lemma_count_concat(lo, hi, m);
    lemma_count_all_ge(hi, m);
    lemma_count_bounds(lo, m);
    let lo1 = s.take(k + 1);
    let hi1 = s.skip(k + 1);
    assert(s =~= lo1 + hi1);
    lemma_count_concat(lo1, hi1, m);
    lemma_count_all_le(lo1, m);
    assert(is_upper_median(s, m));
    lemma_median_exists(s);
    lemma_median_unique(s, m, upper_median(s));
}

proof fn lemma_count_single(x: u32, m: u32)
    ensures
        count_lt(seq![x], m) == (if x < m { 1nat } else { 0nat }),
        count_le(seq![x], m) == (if x <= m { 1nat } else { 0nat }),
{
    assert(seq![x].drop_last() =~= Seq::<u32>::empty());
    assert(count_lt(Seq::<u32>::empty(), m) == 0);
    assert(count_le(Seq::<u32>::empty(), m) == 0);
}

/// Counts depend on the multiset of readings only.
proof fn lemma_count_permutation(s: Seq<u32>, t: Seq<u32>, m: u32)
    requires
        s.to_multiset() == t.to_multiset(),
    ensures
        count_lt(s, m) == count_lt(t, m),
        count_le(s, m) == count_le(t, m),
    decreases s.len(),
{
    broadcast use vstd::seq_lib::group_to_multiset_ensures;

    s.to_multiset_ensures();
    t.to_multiset_ensures();
    if s.len() == 0 {
        assert(t.len() == 0);
        assert(t =~= s);
    } else {
        let x = s.last();
        let p = s.drop_last();
        assert(s =~= p.push(x));
        assert(s.to_multiset().count(x) > 0);
        assert(t.contains(x));
        let j = choose|j: int| 0 <= j < t.len() && t[j] == x;
        let q = t.remove(j);
        assert(p.to_multiset() =~= q.to_multiset());
        lemma_count_permutation(p, q, m);
        assert(t =~= t.take(j) + (seq![x] + t.skip(j + 1)));
        assert(q =~= t.take(j) + t.skip(j + 1));
        lemma_count_concat(t.take(j), seq![x] + t.skip(j + 1), m);
        lemma_count_concat(seq![x], t.skip(j + 1), m);
        lemma_count_concat(t.take(j), t.skip(j + 1), m);
        lemma_count_single(x, m);
    }
}

/// Sorting readings ascending, in any way, and taking the element at index
/// `len / 2` gives the upper median.
pub proof fn lemma_median_after_sort(s: Seq<u32>, t: Seq<u32>)
    requires
        s.len() > 0,
        sorted(t),
        t.to_multiset() == s.to_multiset(),
    ensures
        t.len() == s.len(),
        upper_median(s) == t[(t.len() / 2) as int],
{
    broadcast use vstd::seq_lib::group_to_multiset_ensures;

    s.to_multiset_ensures();
    t.to_multiset_ensures();
    assert(t.len() == s.len());
    lemma_median_of_sorted(t);
    lemma_median_exists(t);
    assert forall|m: u32| count_lt(s, m) == count_lt(t, m) && count_le(s, m) == count_le(t, m) by {
        lemma_count_permutation(s, t, m);
    }
    assert(is_upper_median(s, upper_median(t)));
    lemma_median_exists(s);
    lemma_median_unique(s, upper_median(t), upper_median(s));
}

/// For an odd number of readings the upper median is the statistical median:
/// at most half of the others lie below it, and at most half above it.
pub proof fn lemma_median_odd(s: Seq<u32>)
    requires
        s.len() % 2 == 1,
    ensures
        count_lt(s, upper_median(s)) <= (s.len() - 1) / 2,
        count_gt(s, upper_median(s)) <= (s.len() - 1) / 2,
{
    lemma_median_exists(s);
    lemma_count_bounds(s, upper_median(s));
}

/// Sorts readings ascending (insertion sort), keeping every count.
pub fn sort_heights(v: &Vec<u32>) -> (r: Vec<u32>)
    ensures
        r.len() == v.len(),
        sorted(r@),
        forall|m: u32| count_lt(r@, m) == count_lt(v@, m) && count_le(r@, m) == count_le(v@, m),
{
    let mut r: Vec<u32> = Vec::new();
    let mut i: usize = 0;
    while i < v.len()
        invariant
            i <= v.len(),
            r.len() == i,
            sorted(r@),
            forall|m: u32|
                count_lt(r@, m) == count_lt(v@.take(i as int), m) && count_le(r@, m) == count_le(
                    v@.take(i as int),
                    m,
                ),
        decreases v.len() - i,
    {
        let x = v[i];
        let mut p: usize = 0;
        while p < r.len() && r[p] <= x
            invariant
                p <= r.len(),
                forall|k: int| 0 <= k < p ==> r@[k] <= x,
            decreases r.len() - p,
        {
            p = p + 1;
        }
        let ghost old_r = r@;
        r.insert(p, x);
        proof {
            assert(r@ =~= old_r.take(p as int) + (seq![x] + old_r.skip(p as int)));
            assert(old_r =~= old_r.take(p as int) + old_r.skip(p as int));
            assert(v@.take(i + 1).drop_last() =~= v@.take(i as int));
            assert forall|m: u32|
                count_lt(r@, m) == count_lt(v@.take(i + 1), m) && count_le(r@, m) == count_le(
                    v@.take(i + 1),
                    m,
                ) by {
                lemma_count_concat(old_r.take(p as int), seq![x] + old_r.skip(p as int), m);
                lemma_count_concat(seq![x], old_r.skip(p as int), m);
                lemma_count_concat(old_r.take(p as int), old_r.skip(p as int), m);
                assert(seq![x].drop_last() =~= Seq::<u32>::empty());
                assert(count_lt(Seq::<u32>::empty(), m) == 0);
                assert(count_le(Seq::<u32>::empty(), m) == 0);
                assert(v@.take(i + 1) =~= v@.take(i as int) + seq![x]);
                lemma_count_concat(v@.take(i as int), seq![x], m);
            }
            assert forall|a: int, b: int| 0 <= a <= b < r@.len() implies r@[a] <= r@[b] by {
                if a < p && b > p {
                    assert(r@[a] == old_r[a]);
                    assert(r@[b] == old_r[b - 1]);
                }
            }
        }
        i = i + 1;
    }
    assert(v@.take(v.len() as int) =~= v@);
    r
}

/// The representative height of an hour's readings.
pub fn median(v: &Vec<u32>) -> (r: u32)
    requires
        v.len() > 0,
    ensures
        is_upper_median(v@, r),
        r == upper_median(v@),
{
    let s = sort_heights(v);
    let r = s[s.len() / 2];
    proof {
        lemma_median_of_sorted(s@);
        lemma_median_exists(s@);
        assert(is_upper_median(v@, r));
        lemma_median_exists(v@);
        lemma_median_unique(v@, r, upper_median(v@));
    }
    r
}

} // verus!
