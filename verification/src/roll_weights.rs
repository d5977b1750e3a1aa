use vstd::prelude::*;
use vstd::arithmetic::power::pow;
use crate::distribution::{prefixed_sum, lemma_weight_total, lemma_weight_is_arrangements};
use crate::enumeration::{
    combos_rep, multichoose, strictly_increasing, nondecreasing, lemma_combos_rep_len, lemma_combos_rep_sound,
    lemma_combos_rep_sorted, lemma_combos_rep_complete,
};
use crate::combinatorics::arrangements_spec;
use crate::selections::lemma_outcome_count;
use crate::tables::{
    lemma_selection_count, Outcome, Tables, die_faces, index_combos_spec, outcome_matches, range_start, lemma_index_combos_len,
    lemma_index_combos_elem_len,
};

verus! {

/// Sum of the arrangement counts of `n` outcomes from position `lo` on.
pub open spec fn arrangement_sum(os: Seq<Outcome>, lo: int, n: int) -> int
    decreases n,
{
    if n <= 0 {
        0
    } else {
        arrangement_sum(os, lo, n - 1) + os[lo + n - 1].arrangements
    }
}

/// For each way to pick `k` dice to roll, the arrangement counts of its
/// outcomes add up to `6^k`: every ordered roll of the picked dice is
/// counted exactly once, so the counts weigh the outcomes by their
/// probability.
pub proof fn lemma_outcome_weights(t: &Tables, i: int)
    requires
        t.wf(),
        0 <= i < 32,
    ensures
        arrangement_sum(
            t.outcomes@,
            range_start(index_combos_spec(), i),
            multichoose(6, index_combos_spec()[i].len()) as int,
        ) == pow(6, index_combos_spec()[i].len()),
{
    lemma_index_combos_len();
    lemma_index_combos_elem_len();
    let m = index_combos_spec()[i].len();
    let cs = combos_rep(die_faces(), m);
    let lo = range_start(index_combos_spec(), i);
    lemma_combos_rep_len(die_faces(), m);
    lemma_combos_rep_sound(die_faces(), m);
    assert(die_faces().len() == 6);
    assert(strictly_increasing(die_faces()));
    assert(forall|x: int| 0 <= x < 6 ==> 1 <= #[trigger] die_faces()[x]);
    lemma_weight_total(die_faces(), m);
    let os = t.outcomes@;
    assert forall|n: int| 0 <= n <= cs.len() implies #[trigger] arrangement_sum(os, lo, n) == prefixed_sum(
        Seq::empty(),
        cs.subrange(0, n),
    ) by {
        lemma_arrangement_prefix(t, i, n);
    }
    assert(cs.subrange(0, cs.len() as int) =~= cs);
    assert(arrangement_sum(os, lo, cs.len() as int) == prefixed_sum(Seq::empty(), cs.subrange(0, cs.len() as int)));
}

proof fn lemma_arrangement_prefix(t: &Tables, i: int, n: int)
    requires
        t.wf(),
        0 <= i < 32,
        0 <= n <= combos_rep(die_faces(), index_combos_spec()[i].len()).len(),
    ensures
        arrangement_sum(t.outcomes@, range_start(index_combos_spec(), i), n) == prefixed_sum(
            Seq::empty(),
            combos_rep(die_faces(), index_combos_spec()[i].len()).subrange(0, n),
        ),
    decreases n,
{
    lemma_index_combos_len();
    lemma_index_combos_elem_len();
    let m = index_combos_spec()[i].len();
    let cs = combos_rep(die_faces(), m);
    let lo = range_start(index_combos_spec(), i);
    if n == 0 {
        assert(cs.subrange(0, 0) =~= Seq::<Seq<u8>>::empty());
    } else {
        lemma_arrangement_prefix(t, i, n - 1);
        assert(cs.subrange(0, n).drop_last() =~= cs.subrange(0, n - 1));
        assert(cs.subrange(0, n).last() == cs[n - 1]);
        assert(Seq::<u8>::empty() + cs[n - 1] =~= cs[n - 1]);
        lemma_combos_rep_len(die_faces(), m);
        lemma_combos_rep_sound(die_faces(), m);
        let v = cs[n - 1];
        assert(outcome_matches(t.outcomes@[lo + (n - 1)], index_combos_spec()[i], v));
        assert forall|x: int| 0 <= x < v.len() implies 1 <= #[trigger] v[x] by {
            assert(die_faces().contains(v[x]));
        }
        lemma_weight_is_arrangements(v);
    }
}

/// The outcome table holds 1683 outcomes. For the `i`-th way to pick dice
/// (positions `c`, `m` of them), its block is the `i`-th selection range, and
/// the block lists each multiset of `m` faces exactly once: its `k`-th
/// outcome puts the sorted faces `vs[k]` at the positions `c`, clears the
/// mask there, keeps every other die (mask 7, value 0), and counts the
/// orders of `vs[k]`; two outcomes of the block never roll the same values,
/// and every sorted sequence of `m` faces is rolled by one of them.
pub proof fn lemma_outcomes_each_multiset_once(t: &Tables, i: int)
    requires
        t.wf(),
        0 <= i < 32,
    ensures
        ({
            let c = index_combos_spec()[i];
            let vs = combos_rep(die_faces(), c.len());
            let lo = range_start(index_combos_spec(), i);
            &&& t.outcomes@.len() == 1683
            &&& t.selection_ranges@[i] == (lo as usize, (lo + vs.len()) as usize)
            &&& vs.len() == multichoose(6, c.len())
            &&& forall|k: int| 0 <= k < vs.len() ==> outcome_matches(#[trigger] t.outcomes@[lo + k], c, vs[k])
            &&& forall|k: int, p: int|
                #![trigger t.outcomes@[lo + k].mask@[p]]
                0 <= k < vs.len() && 0 <= p < 5 ==> if c.contains(p as u8) {
                    t.outcomes@[lo + k].mask@[p] == 0
                } else {
                    t.outcomes@[lo + k].mask@[p] == 7 && t.outcomes@[lo + k].dievals@[p] == 0
                }
            &&& forall|k: int, j: int|
                #![trigger vs[k][j]]
                0 <= k < vs.len() && 0 <= j < c.len() ==> t.outcomes@[lo + k].dievals@[c[j] as int] == vs[k][j]
            &&& forall|k: int| 0 <= k < vs.len() ==> (#[trigger] t.outcomes@[lo + k]).arrangements == arrangements_spec(vs[k])
            &&& forall|k: int| 0 <= k < vs.len() ==> nondecreasing(#[trigger] vs[k])
            &&& forall|k1: int, k2: int| 0 <= k1 < vs.len() && 0 <= k2 < vs.len() && k1 != k2 ==> #[trigger] vs[k1] != #[trigger] vs[k2]
            &&& forall|v: Seq<u8>|
                v.len() == c.len() && nondecreasing(v) && (forall|j: int| 0 <= j < v.len() ==> 1 <= #[trigger] v[j] <= 6)
                    ==> vs.contains(v)
        }),
{
    lemma_index_combos_len();
    lemma_index_combos_elem_len();
    let c = index_combos_spec()[i];
    let m = c.len();
    let vs = combos_rep(die_faces(), m);
    assert(strictly_increasing(die_faces()));
    lemma_combos_rep_len(die_faces(), m);
    lemma_combos_rep_sorted(die_faces(), m);
    lemma_outcome_count();
    lemma_selection_count(m);
    let lo = range_start(index_combos_spec(), i);
    assert(range_start(index_combos_spec(), i + 1) == lo + vs.len());
    assert forall|k: int, p: int|
        #![trigger t.outcomes@[lo + k].mask@[p]]
        0 <= k < vs.len() && 0 <= p < 5 implies if c.contains(p as u8) {
            t.outcomes@[lo + k].mask@[p] == 0
        } else {
            t.outcomes@[lo + k].mask@[p] == 7 && t.outcomes@[lo + k].dievals@[p] == 0
        } by {
        let o = t.outcomes@[lo + k];
        assert(outcome_matches(o, c, vs[k]));
        if c.contains(p as u8) {
            let j = choose|j: int| 0 <= j < c.len() && c[j] == p as u8;
            lemma_matches_at(o, c, vs[k], j);
            assert(c[j] as int == p);
        } else {
            assert(o.dievals@[p] == 0 && o.mask@[p] == 7);
        }
    }
    assert forall|k: int, j: int|
        #![trigger vs[k][j]]
        0 <= k < vs.len() && 0 <= j < c.len() implies t.outcomes@[lo + k].dievals@[c[j] as int] == vs[k][j] by {
        assert(outcome_matches(t.outcomes@[lo + k], c, vs[k]));
        lemma_matches_at(t.outcomes@[lo + k], c, vs[k], j);
    }
    assert forall|v: Seq<u8>|
        v.len() == m && nondecreasing(v) && (forall|j: int| 0 <= j < v.len() ==> 1 <= #[trigger] v[j] <= 6)
            implies vs.contains(v) by {
        assert forall|j: int| 0 <= j < v.len() implies die_faces().contains(#[trigger] v[j]) by {
            assert(die_faces()[v[j] - 1] == v[j]);
        }
        lemma_combos_rep_complete(die_faces(), m, v);
    }
}

/// An outcome that matches positions `c` and values `v` shows `v[j]` at
/// position `c[j]`, with the mask cleared there.
proof fn lemma_matches_at(o: Outcome, c: Seq<u8>, v: Seq<u8>, j: int)
    requires
        outcome_matches(o, c, v),
        0 <= j < c.len(),
    ensures
        o.dievals@[c[j] as int] == v[j],
        o.mask@[c[j] as int] == 0,
{
    assert(o.dievals@[c[j] as int] == v[j] && o.mask@[c[j] as int] == 0);
}

} // verus!
