use vstd::prelude::*;
use itertools::Itertools;

verus! {

/// `x` put in front of each sequence of `cs`.
pub open spec fn prepend_all(x: u8, cs: Seq<Seq<u8>>) -> Seq<Seq<u8>> {
    cs.map_values(|c: Seq<u8>| seq![x] + c)
}

/// The `k`-element combinations of the positions of `s`, in lexicographic
/// order of positions, each given by the elements it selects.
pub open spec fn combos(s: Seq<u8>, k: nat) -> Seq<Seq<u8>>
    decreases s.len(),
{
    if k == 0 {
        seq![Seq::empty()]
    } else if s.len() == 0 {
        Seq::empty()
    } else {
        prepend_all(s[0], combos(s.drop_first(), (k - 1) as nat)) + combos(s.drop_first(), k)
    }
}

/// The `k`-element combinations with repetition of the positions of `s`, in
/// lexicographic order of positions, each given by the elements it selects.
pub open spec fn combos_rep(s: Seq<u8>, k: nat) -> Seq<Seq<u8>>
    decreases s.len(), k,
{
    if k == 0 {
        seq![Seq::empty()]
    } else if s.len() == 0 {
        Seq::empty()
    } else {
        prepend_all(s[0], combos_rep(s, (k - 1) as nat)) + combos_rep(s.drop_first(), k)
    }
}

pub open spec fn strictly_increasing(s: Seq<u8>) -> bool {
    forall|i: int, j: int| 0 <= i < j < s.len() ==> s[i] < s[j]
}

pub open spec fn nondecreasing(s: Seq<u8>) -> bool {
    forall|i: int, j: int| 0 <= i < j < s.len() ==> s[i] <= s[j]
}

/// `t` is a rearrangement of `s`.
pub open spec fn is_rearrangement(t: Seq<u8>, s: Seq<u8>) -> bool {
    t.len() == s.len() && t.to_multiset() == s.to_multiset()
}

/// Binomial coefficient by Pascal's rule.
pub open spec fn binom(n: nat, k: nat) -> nat
    decreases n,
{
    if k == 0 {
        1
    } else if n == 0 {
        0
    } else {
        binom((n - 1) as nat, (k - 1) as nat) + binom((n - 1) as nat, k)
    }
}

/// Number of multisets of size `k` over `n` kinds, by Pascal's rule.
pub open spec fn multichoose(n: nat, k: nat) -> nat
    decreases n, k,
{
    if k == 0 {
        1
    } else if n == 0 {
        0
    } else {
        multichoose(n, (k - 1) as nat) + multichoose((n - 1) as nat, k)
    }
}

pub proof fn lemma_combos_len(s: Seq<u8>, k: nat)
    ensures
        combos(s, k).len() == binom(s.len(), k),
    decreases s.len(),
{
    if k > 0 && s.len() > 0 {
        lemma_combos_len(s.drop_first(), (k - 1) as nat);
        lemma_combos_len(s.drop_first(), k);
    }
}

pub proof fn lemma_combos_rep_len(s: Seq<u8>, k: nat)
    ensures
        combos_rep(s, k).len() == multichoose(s.len(), k),
    decreases s.len(), k,
{
    if k > 0 && s.len() > 0 {
        lemma_combos_rep_len(s, (k - 1) as nat);
        lemma_combos_rep_len(s.drop_first(), k);
    }
}

/// Combinations of a strictly increasing sequence are strictly increasing
/// sequences of its elements, of the requested length.
pub proof fn lemma_combos_sound(s: Seq<u8>, k: nat)
    requires
        strictly_increasing(s),
    ensures
        forall|i: int|
            0 <= i < combos(s, k).len() ==> {
                let c = #[trigger] combos(s, k)[i];
                &&& c.len() == k
                &&& strictly_increasing(c)
                &&& forall|j: int| 0 <= j < c.len() ==> s.contains(#[trigger] c[j])
            },
    decreases s.len(),
{
    if k > 0 && s.len() > 0 {
        let t = s.drop_first();
        assert(strictly_increasing(t));
        lemma_combos_sound(t, (k - 1) as nat);
        lemma_combos_sound(t, k);
        let a = prepend_all(s[0], combos(t, (k - 1) as nat));
        let b = combos(t, k);
        assert forall|i: int| 0 <= i < combos(s, k).len() implies {
            let c = #[trigger] combos(s, k)[i];
            &&& c.len() == k
            &&& strictly_increasing(c)
            &&& forall|j: int| 0 <= j < c.len() ==> s.contains(#[trigger] c[j])
        } by {
            let c = combos(s, k)[i];
            if i < a.len() {
                let d = combos(t, (k - 1) as nat)[i];
                assert(c == seq![s[0]] + d);
                assert forall|j: int| 0 <= j < c.len() implies s.contains(#[trigger] c[j]) by {
                    if j == 0 {
                        assert(s[0] == c[j]);
                    } else {
                        assert(c[j] == d[j - 1]);
                        assert(t.contains(d[j - 1]));
                        let m = choose|m: int| 0 <= m < t.len() && t[m] == d[j - 1];
                        assert(s[m + 1] == c[j]);
                    }
                }
                assert forall|x: int, y: int| 0 <= x < y < c.len() implies c[x] < c[y] by {
                    assert(c[y] == d[y - 1]);
                    assert(t.contains(d[y - 1]));
                    let m = choose|m: int| 0 <= m < t.len() && t[m] == d[y - 1];
                    if x == 0 {
                        assert(s[0] < s[m + 1]);
                    } else {
                        assert(c[x] == d[x - 1]);
                    }
                }
            } else {
                assert(c == b[i - a.len()]);
                assert forall|j: int| 0 <= j < c.len() implies s.contains(#[trigger] c[j]) by {
                    assert(t.contains(c[j]));
                    let m = choose|m: int| 0 <= m < t.len() && t[m] == c[j];
                    assert(s[m + 1] == c[j]);
                }
            }
        }
    }
}

/// Combinations with repetition of a sequence have the requested length and
/// hold elements of the sequence.
pub proof fn lemma_combos_rep_sound(s: Seq<u8>, k: nat)
    ensures
        forall|i: int|
            0 <= i < combos_rep(s, k).len() ==> {
                let c = #[trigger] combos_rep(s, k)[i];
                &&& c.len() == k
                &&& forall|j: int| 0 <= j < c.len() ==> s.contains(#[trigger] c[j])
            },
    decreases s.len(), k,
{
    if k > 0 && s.len() > 0 {
        let t = s.drop_first();
        lemma_combos_rep_sound(s, (k - 1) as nat);
        lemma_combos_rep_sound(t, k);
        let a = prepend_all(s[0], combos_rep(s, (k - 1) as nat));
        let b = combos_rep(t, k);
        assert forall|i: int| 0 <= i < combos_rep(s, k).len() implies {
            let c = #[trigger] combos_rep(s, k)[i];
            &&& c.len() == k
            &&& forall|j: int| 0 <= j < c.len() ==> s.contains(#[trigger] c[j])
        } by {
            let c = combos_rep(s, k)[i];
            if i < a.len() {
                let d = combos_rep(s, (k - 1) as nat)[i];
                assert(c == seq![s[0]] + d);
                assert forall|j: int| 0 <= j < c.len() implies s.contains(#[trigger] c[j]) by {
                    if j == 0 {
                        assert(s[0] == c[j]);
                    } else {
                        assert(c[j] == d[j - 1]);
                    }
                }
            } else {
                assert(c == b[i - a.len()]);
                assert forall|j: int| 0 <= j < c.len() implies s.contains(#[trigger] c[j]) by {
                    assert(t.contains(c[j]));
                    let m = choose|m: int| 0 <= m < t.len() && t[m] == c[j];
                    assert(s[m + 1] == c[j]);
                }
            }
        }
    }
}

/// Sorted sequences holding the same elements are equal.
pub proof fn lemma_sorted_unique(a: Seq<u8>, b: Seq<u8>)
    requires
        nondecreasing(a),
        nondecreasing(b),
        a.to_multiset() == b.to_multiset(),
    ensures
        a == b,
    decreases a.len(),
{
    broadcast use vstd::seq_lib::group_to_multiset_ensures;

    assert(a.len() == a.to_multiset().len());
    assert(b.len() == b.to_multiset().len());
    if a.len() > 0 {
        assert(b.to_multiset().count(b[0]) > 0);
        assert(a.contains(b[0]));
        let m = choose|m: int| 0 <= m < a.len() && a[m] == b[0];
        assert(a[0] <= a[m]);
        assert(a.to_multiset().count(a[0]) > 0);
        assert(b.contains(a[0]));
        let n = choose|n: int| 0 <= n < b.len() && b[n] == a[0];
        assert(b[0] <= b[n]);
        assert(a[0] == b[0]);
        vstd::seq_lib::to_multiset_remove(a, 0);
        vstd::seq_lib::to_multiset_remove(b, 0);
        assert(a.remove(0) =~= a.drop_first());
        assert(b.remove(0) =~= b.drop_first());
        lemma_sorted_unique(a.drop_first(), b.drop_first());
        assert(a =~= b) by {
            assert forall|i: int| 0 <= i < a.len() implies a[i] == b[i] by {
                if i > 0 {
                    assert(a[i] == a.drop_first()[i - 1]);
                    assert(b[i] == b.drop_first()[i - 1]);
                }
            }
        }
    }
}

/// Over a strictly increasing sequence, the combinations with repetition are
/// sorted and pairwise distinct.
pub proof fn lemma_combos_rep_sorted(s: Seq<u8>, k: nat)
    requires
        strictly_increasing(s),
    ensures
        forall|i: int| 0 <= i < combos_rep(s, k).len() ==> nondecreasing(#[trigger] combos_rep(s, k)[i]),
        combos_rep(s, k).no_duplicates(),
    decreases s.len(), k,
{
    if k > 0 && s.len() > 0 {
        let t = s.drop_first();
        assert(strictly_increasing(t));
        lemma_combos_rep_sorted(s, (k - 1) as nat);
        lemma_combos_rep_sorted(t, k);
        lemma_combos_rep_sound(s, (k - 1) as nat);
        lemma_combos_rep_sound(t, k);
        let d = combos_rep(s, (k - 1) as nat);
        let a = prepend_all(s[0], d);
        let b = combos_rep(t, k);
        let all = combos_rep(s, k);
        assert(all == a + b);
        assert forall|i: int| 0 <= i < all.len() implies nondecreasing(#[trigger] all[i]) by {
            if i < a.len() {
                let e = d[i];
                assert(all[i] == seq![s[0]] + e);
                assert forall|x: int, y: int| 0 <= x < y < all[i].len() implies all[i][x] <= all[i][y] by {
                    if x == 0 {
                        assert(all[i][y] == e[y - 1]);
                        assert(s.contains(e[y - 1]));
                        let m = choose|m: int| 0 <= m < s.len() && s[m] == e[y - 1];
                        if m > 0 {
                            assert(s[0] < s[m]);
                        }
                    } else {
                        assert(all[i][x] == e[x - 1]);
                        assert(all[i][y] == e[y - 1]);
                    }
                }
            } else {
                assert(all[i] == b[i - a.len()]);
            }
        }
        assert forall|i: int, j: int| 0 <= i < all.len() && 0 <= j < all.len() && i != j implies all[i] != all[j] by {
            if i < a.len() && j < a.len() {
                assert(all[i] == seq![s[0]] + d[i]);
                assert(all[j] == seq![s[0]] + d[j]);
                assert(d[i] != d[j]);
                if all[i] == all[j] {
                    assert(d[i] =~= all[i].drop_first());
                    assert(d[j] =~= all[j].drop_first());
                }
            } else if i >= a.len() && j >= a.len() {
                assert(all[i] == b[i - a.len()]);
                assert(all[j] == b[j - a.len()]);
            } else {
                let (x, y) = if i < a.len() {
                    (i, j)
                } else {
                    (j, i)
                };
                assert(all[x][0] == s[0]);
                let e = b[y - a.len()];
                assert(all[y] == e);
                assert(t.contains(e[0]));
                let m = choose|m: int| 0 <= m < t.len() && t[m] == e[0];
                assert(s[m + 1] == e[0]);
                assert(s[0] < s[m + 1]);
            }
        }
    }
}

/// Every sorted sequence of `k` elements of a strictly increasing `s` is a
/// combination with repetition of `s`.
pub proof fn lemma_combos_rep_complete(s: Seq<u8>, k: nat, c: Seq<u8>)
    requires
        strictly_increasing(s),
        c.len() == k,
        nondecreasing(c),
        forall|j: int| 0 <= j < c.len() ==> s.contains(#[trigger] c[j]),
    ensures
        combos_rep(s, k).contains(c),
    decreases s.len(), k,
{
    if k == 0 {
        assert(c =~= Seq::<u8>::empty());
        assert(combos_rep(s, k)[0] == c);
    } else {
        assert(s.contains(c[0]));
        let t = s.drop_first();
        let d = combos_rep(s, (k - 1) as nat);
        let a = prepend_all(s[0], d);
        let b = combos_rep(t, k);
        assert(combos_rep(s, k) == a + b);
        if c[0] == s[0] {
            let rest = c.drop_first();
            assert forall|j: int| 0 <= j < rest.len() implies s.contains(#[trigger] rest[j]) by {
                assert(rest[j] == c[j + 1]);
            }
            lemma_combos_rep_complete(s, (k - 1) as nat, rest);
            let i = choose|i: int| 0 <= i < d.len() && d[i] == rest;
            assert(a[i] =~= c);
            assert((a + b)[i] == c);
        } else {
            assert(strictly_increasing(t));
            assert forall|j: int| 0 <= j < c.len() implies t.contains(#[trigger] c[j]) by {
                assert(s.contains(c[j]));
                let m = choose|m: int| 0 <= m < s.len() && s[m] == c[j];
                let m0 = choose|m0: int| 0 <= m0 < s.len() && s[m0] == c[0];
                if m0 == 0 {
                    assert(false);
                }
                assert(c[0] <= c[j]);
                if m == 0 {
                    assert(s[0] < s[m0]);
                    assert(false);
                }
                assert(t[m - 1] == c[j]);
            }
            lemma_combos_rep_complete(t, k, c);
            let i = choose|i: int| 0 <= i < b.len() && b[i] == c;
            assert((a + b)[a.len() + i] == c);
        }
    }
}

/// Calls `Itertools::combinations` on the elements of `items` and collects
/// what it yields. Claimed: the `k`-element combinations of the positions of
/// `items`, in lexicographic order of positions (the order of the iterator's
/// index vector, which it advances from the right).
#[verifier::external_body]
pub(crate) fn combinations_of(items: Vec<u8>, k: usize) -> (r: Vec<Vec<u8>>)
    ensures
        r.deep_view() == combos(items@, k as nat),
{
    items.into_iter().combinations(k).collect()
}

/// Calls `Itertools::combinations_with_replacement` on the elements of
/// `items` and collects what it yields. Claimed: the `k`-element
/// combinations with repetition of the positions of `items`, in
/// lexicographic order of positions, as the iterator's index vector advances
/// from the right.
#[verifier::external_body]
pub(crate) fn combinations_with_replacement_of(items: Vec<u8>, k: usize) -> (r: Vec<Vec<u8>>)
    ensures
        r.deep_view() == combos_rep(items@, k as nat),
{
    items.into_iter().combinations_with_replacement(k).collect()
}

/// Calls `Itertools::permutations` with `k` equal to the number of items and
/// collects what it yields. Claimed: every yielded sequence is a
/// rearrangement of `items`, and every rearrangement is yielded. Their order
/// and how often each repeats (when `items` repeats a value) are not stated.
#[verifier::external_body]
pub(crate) fn permutations_of(items: Vec<u8>, k: usize) -> (r: Vec<Vec<u8>>)
    requires
        k == items.len(),
    ensures
        forall|i: int| 0 <= i < r.len() ==> is_rearrangement(#[trigger] r.deep_view()[i], items@),
        forall|t: Seq<u8>| is_rearrangement(t, items@) ==> r.deep_view().contains(t),
{
    items.into_iter().permutations(k).collect()
}

/// Calls `Itertools::unique` on the sequences of `items` and collects what it
/// yields. Claimed: the result holds the same sequences as `items`, each
/// once. The order (first occurrences first) is not stated.
#[verifier::external_body]
pub(crate) fn unique_of(items: Vec<Vec<u8>>) -> (r: Vec<Vec<u8>>)
    ensures
        r.deep_view().to_set() == items.deep_view().to_set(),
        r.deep_view().no_duplicates(),
{
    items.into_iter().unique().collect()
}

/// Calls `itertools::repeat_n(0..=hi, n)` and `Itertools::multi_cartesian_product`
/// and collects what they yield. Claimed: for `n == 0` nothing; otherwise
/// every sequence of `n` indices from 0 to `hi`, each once. The order is not
/// stated.
#[verifier::external_body]
pub(crate) fn index_tuples(n: usize, hi: usize) -> (r: Vec<Vec<usize>>)
    ensures
        n == 0 ==> r.len() == 0,
        forall|i: int|
            0 <= i < r.len() ==> (#[trigger] r.deep_view()[i]).len() == n && forall|j: int|
                0 <= j < n ==> r.deep_view()[i][j] <= hi,
        n > 0 ==> forall|t: Seq<usize>|
            t.len() == n && (forall|j: int| 0 <= j < n ==> t[j] <= hi) ==> r.deep_view().contains(t),
{
    itertools::repeat_n(0..=hi, n).multi_cartesian_product().collect()
}

} // verus!
