use vstd::prelude::*;
use itertools::Itertools;

verus! {

/// Number of times `v` occurs in `s`.
pub open spec fn count_of(s: Seq<u8>, v: u8) -> nat
    decreases s.len(),
{
    if s.len() == 0 {
        0
    } else {
        count_of(s.drop_last(), v) + if s.last() == v {
            1nat
        } else {
            0nat
        }
    }
}

/// Sum of the values of `s`.
pub open spec fn sum_of(s: Seq<u8>) -> int
    decreases s.len(),
{
    if s.len() == 0 {
        0
    } else {
        sum_of(s.drop_last()) + s.last()
    }
}

/// The pairs `(value, count)` describe the multiplicities of `s`: each pair
/// holds a value of `s` and the number of its occurrences, no value is listed
/// twice, and every value of `s` is listed.
pub open spec fn is_count_listing(s: Seq<u8>, r: Seq<(u8, usize)>) -> bool {
    &&& forall|i: int| #![trigger r[i]] 0 <= i < r.len() ==> r[i].1 == count_of(s, r[i].0) && s.contains(r[i].0)
    &&& forall|i: int, j: int| 0 <= i < j < r.len() ==> #[trigger] r[i].0 != #[trigger] r[j].0
    &&& forall|v: u8| s.contains(v) ==> exists|i: int| 0 <= i < r.len() && #[trigger] r[i].0 == v
}

/// Calls `Itertools::counts` on the values of `vals` and lists the map it
/// returns as `(value, count)` pairs. Claimed: each distinct value of `vals`
/// appears once, with the number of times it occurs in `vals`. The order of
/// the pairs is that of the map's iteration, which the map's hasher decides:
/// no clause states it.
#[verifier::external_body]
pub(crate) fn value_counts(vals: Vec<u8>) -> (r: Vec<(u8, usize)>)
    ensures
        is_count_listing(vals@, r@),
{
    vals.into_iter().counts().into_iter().collect()
}

pub proof fn lemma_count_of_push(s: Seq<u8>, x: u8, v: u8)
    ensures
        count_of(s.push(x), v) == count_of(s, v) + if x == v {
            1nat
        } else {
            0nat
        },
{
    assert(s.push(x).drop_last() =~= s);
}

pub proof fn lemma_count_of_bound(s: Seq<u8>, v: u8)
    ensures
        count_of(s, v) <= s.len(),
        count_of(s, v) > 0 <==> s.contains(v),
    decreases s.len(),
{
    if s.len() > 0 {
        lemma_count_of_bound(s.drop_last(), v);
        if s.drop_last().contains(v) {
            let k = choose|k: int| 0 <= k < s.drop_last().len() && s.drop_last()[k] == v;
            assert(s[k] == v);
        }
        if s.contains(v) && s.last() != v {
            let k = choose|k: int| 0 <= k < s.len() && s[k] == v;
            assert(k != s.len() - 1);
            assert(s.drop_last()[k] == v);
        }
    }
}

/// Two distinct values together occur at most as often as the sequence is
/// long, and strictly less often when a third value occurs.
pub proof fn lemma_count_of_two(s: Seq<u8>, a: u8, b: u8)
    requires
        a != b,
    ensures
        count_of(s, a) + count_of(s, b) <= s.len(),
        (exists|k: int| 0 <= k < s.len() && s[k] != a && s[k] != b) ==> count_of(s, a) + count_of(
            s,
            b,
        ) < s.len(),
    decreases s.len(),
{
    if s.len() > 0 {
        lemma_count_of_two(s.drop_last(), a, b);
        if exists|k: int| 0 <= k < s.len() && s[k] != a && s[k] != b {
            let k = choose|k: int| 0 <= k < s.len() && s[k] != a && s[k] != b;
            if k < s.len() - 1 {
                assert(s.drop_last()[k] == s[k]);
            }
        }
    }
}

/// Counts add up over a split of the sequence.
pub proof fn lemma_count_of_split(s: Seq<u8>, k: int, v: u8)
    requires
        0 <= k <= s.len(),
    ensures
        count_of(s, v) == count_of(s.subrange(0, k), v) + count_of(s.subrange(k, s.len() as int), v),
    decreases s.len() - k,
{
    if k < s.len() {
        lemma_count_of_split(s, k + 1, v);
        let a = s.subrange(0, k + 1);
        assert(a.drop_last() =~= s.subrange(0, k));
        let b = s.subrange(k, s.len() as int);
        let b2 = s.subrange(k + 1, s.len() as int);
        lemma_count_of_prepend(b2, s[k], v);
        assert(b =~= seq![s[k]] + b2);
    } else {
        assert(s.subrange(0, k) =~= s);
        assert(s.subrange(k, s.len() as int) =~= Seq::<u8>::empty());
    }
}

/// Counting after putting `x` in front.
pub proof fn lemma_count_of_prepend(t: Seq<u8>, x: u8, v: u8)
    ensures
        count_of(seq![x] + t, v) == count_of(t, v) + if x == v {
            1nat
        } else {
            0nat
        },
    decreases t.len(),
{
    let u = seq![x] + t;
    if t.len() == 0 {
        assert(u.drop_last() =~= Seq::<u8>::empty());
        assert(u.last() == x);
        assert(count_of(Seq::<u8>::empty(), v) == 0);
        assert(count_of(t, v) == 0);
    } else {
        lemma_count_of_prepend(t.drop_last(), x, v);
        assert(u.drop_last() =~= seq![x] + t.drop_last());
        assert(u.last() == t.last());
    }
}

pub proof fn lemma_sum_of_push(s: Seq<u8>, x: u8)
    ensures
        sum_of(s.push(x)) == sum_of(s) + x,
{
    assert(s.push(x).drop_last() =~= s);
}

pub proof fn lemma_sum_of_bound(s: Seq<u8>, m: u8)
    requires
        forall|i: int| 0 <= i < s.len() ==> s[i] <= m,
    ensures
        0 <= sum_of(s) <= s.len() * m,
    decreases s.len(),
{
    if s.len() > 0 {
        lemma_sum_of_bound(s.drop_last(), m);
        assert(s.len() * m == (s.len() - 1) * m + m) by (nonlinear_arith);
    }
}

} // verus!
