use vstd::prelude::*;
use crate::combinatorics::{n_take_r, n_take_r_spec, fact_spec, arrangements_spec, distinct_arrangements_for};
use crate::dievals::{
    DieVal, DieVals, DieValsID, field_at, pack_spec, lemma_pack_view, lemma_pack_injective,
    lemma_pack_bound, lemma_view_small,
};
use crate::selections::{selected_positions, lemma_idx_for_selection};
use crate::enumeration::{
    combos, combos_rep, prepend_all, combinations_of, combinations_with_replacement_of, binom, multichoose,
    lemma_combos_len, lemma_combos_rep_len, lemma_combos_sound, lemma_combos_rep_sound,
    strictly_increasing, nondecreasing, is_rearrangement, lemma_combos_rep_sorted,
    lemma_combos_rep_complete, lemma_sorted_unique, permutations_of, unique_of,
};

verus! {

/// One roll outcome for a selection of dice: the values the selected dice
/// show, a mask that keeps the unselected dice, and how many orders of the
/// rolled dice give the same values.
#[derive(Clone, Copy, Debug)]
pub struct Outcome {
    pub dievals: DieVals,
    pub mask: DieVals,
    pub arrangements: u8,
}

/// Outcome `o` is the roll that puts values `v` at positions `c`: the
/// selected positions show `v` and are cleared in the mask, the others show
/// 0 and are kept by the mask (all three bits set).
pub open spec fn outcome_matches(o: Outcome, c: Seq<u8>, v: Seq<u8>) -> bool {
    &&& forall|j: int| 0 <= j < c.len() ==> o.dievals@[c[j] as int] == v[j] && o.mask@[c[j] as int] == 0
    &&& forall|p: int| 0 <= p < 5 && !c.contains(p as u8) ==> o.dievals@[p] == 0 && o.mask@[p] == 7
    &&& o.arrangements == arrangements_spec(v)
    &&& o.dievals.data == pack_spec(o.dievals@)
    &&& o.mask.data == pack_spec(o.mask@)
}

/// The die positions 0 to 4.
pub open spec fn die_positions() -> Seq<u8> {
    seq![0u8, 1, 2, 3, 4]
}

/// The die faces 1 to 6.
pub open spec fn die_faces() -> Seq<u8> {
    seq![1u8, 2, 3, 4, 5, 6]
}

/// Every way to pick dice to roll, as position lists: the empty list, then
/// all lists of one position, then of two, up to all five.
pub open spec fn index_combos_spec() -> Seq<Seq<u8>> {
    seq![Seq::empty()] + combos(die_positions(), 1) + combos(die_positions(), 2) + combos(die_positions(), 3) + combos(
        die_positions(),
        4,
    ) + combos(die_positions(), 5)
}

/// How many ways there are to pick one to five of the five dice.
pub proof fn lemma_index_combos_len()
    ensures
        combos(die_positions(), 1).len() == 5,
        combos(die_positions(), 2).len() == 10,
        combos(die_positions(), 3).len() == 10,
        combos(die_positions(), 4).len() == 5,
        combos(die_positions(), 5).len() == 1,
        index_combos_spec().len() == 32,
{
    reveal_with_fuel(binom, 6);
    lemma_combos_len(die_positions(), 1);
    lemma_combos_len(die_positions(), 2);
    lemma_combos_len(die_positions(), 3);
    lemma_combos_len(die_positions(), 4);
    lemma_combos_len(die_positions(), 5);
}

/// The set of all ways to roll different dice, as lists of die positions.
pub fn die_index_combos() -> (them: Vec<Vec<u8>>)
    ensures
        them.deep_view() == index_combos_spec(),
{
    let mut them: Vec<Vec<u8>> = Vec::new();
    let empty: Vec<u8> = Vec::new();
    assert(empty.deep_view() =~= Seq::<u8>::empty());
    them.push(empty);
    assert(them.deep_view() =~= seq![Seq::<u8>::empty()]);
    let mut n: usize = 1;
    while n <= 5
        invariant
            1 <= n <= 6,
            them.deep_view() == seq![Seq::<u8>::empty()] + (if n == 1 {
                Seq::empty()
            } else {
                combos(die_positions(), 1)
            }) + (if n <= 2 {
                Seq::empty()
            } else {
                combos(die_positions(), 2)
            }) + (if n <= 3 {
                Seq::empty()
            } else {
                combos(die_positions(), 3)
            }) + (if n <= 4 {
                Seq::empty()
            } else {
                combos(die_positions(), 4)
            }) + (if n <= 5 {
                Seq::empty()
            } else {
                combos(die_positions(), 5)
            }),
        decreases 6 - n,
    {
        let positions: Vec<u8> = vec![0, 1, 2, 3, 4];
        assert(positions@ =~= die_positions());
        let combos_n = combinations_of(positions, n);
        let ghost before = them.deep_view();
        let mut k: usize = 0;
        while k < combos_n.len()
            invariant
                k <= combos_n.len(),
                combos_n.deep_view() == combos(die_positions(), n as nat),
                them.deep_view() == before + combos_n.deep_view().subrange(0, k as int),
            decreases combos_n.len() - k,
        {
            let combo = combos_n[k].clone();
            assert(combo@ =~= combos_n@[k as int]@);
            assert(combo.deep_view() =~= combos_n.deep_view()[k as int]);
            let ghost prev = them.deep_view();
            them.push(combo);
            assert(them.deep_view() =~= prev.push(combos_n.deep_view()[k as int]));
            assert(combos_n.deep_view().subrange(0, k + 1) =~= combos_n.deep_view().subrange(
                0,
                k as int,
            ).push(combos_n.deep_view()[k as int]));
            assert(them.deep_view() =~= before + combos_n.deep_view().subrange(0, k + 1));
            k = k + 1;
        }
        assert(combos_n.deep_view().subrange(0, k as int) =~= combos_n.deep_view());
        assert(them.deep_view() =~= before + combos(die_positions(), n as nat));
        n = n + 1;
        assert(them.deep_view() =~= seq![Seq::<u8>::empty()] + (if n == 1 {
            Seq::empty()
        } else {
            combos(die_positions(), 1)
        }) + (if n <= 2 {
            Seq::empty()
        } else {
            combos(die_positions(), 2)
        }) + (if n <= 3 {
            Seq::empty()
        } else {
            combos(die_positions(), 3)
        }) + (if n <= 4 {
            Seq::empty()
        } else {
            combos(die_positions(), 4)
        }) + (if n <= 5 {
            Seq::empty()
        } else {
            combos(die_positions(), 5)
        }));
    }
    assert(them.deep_view() =~= index_combos_spec());
    them
}

/// Every combination lists as many elements as it was asked for.
pub proof fn lemma_combos_elem_len(s: Seq<u8>, k: nat)
    ensures
        forall|i: int| 0 <= i < combos(s, k).len() ==> (#[trigger] combos(s, k)[i]).len() == k,
    decreases s.len(),
{
    if k > 0 && s.len() > 0 {
        lemma_combos_elem_len(s.drop_first(), (k - 1) as nat);
        lemma_combos_elem_len(s.drop_first(), k);
        let a = prepend_all(s[0], combos(s.drop_first(), (k - 1) as nat));
        let b = combos(s.drop_first(), k);
        assert forall|i: int| 0 <= i < combos(s, k).len() implies (#[trigger] combos(s, k)[i]).len()
            == k by {
            if i < a.len() {
                assert(combos(s, k)[i] == a[i]);
            } else {
                assert(combos(s, k)[i] == b[i - a.len()]);
            }
        }
    }
}

/// Every way to pick dice lists at most five positions.
pub proof fn lemma_index_combos_elem_len()
    ensures
        forall|i: int| 0 <= i < 32 ==> (#[trigger] index_combos_spec()[i]).len() <= 5,
{
    lemma_index_combos_len();
    lemma_combos_elem_len(die_positions(), 1);
    lemma_combos_elem_len(die_positions(), 2);
    lemma_combos_elem_len(die_positions(), 3);
    lemma_combos_elem_len(die_positions(), 4);
    lemma_combos_elem_len(die_positions(), 5);
    let c1 = combos(die_positions(), 1);
    let c2 = combos(die_positions(), 2);
    let c3 = combos(die_positions(), 3);
    let c4 = combos(die_positions(), 4);
    let c5 = combos(die_positions(), 5);
    let all = index_combos_spec();
    assert forall|i: int| 0 <= i < 32 implies (#[trigger] all[i]).len() <= 5 by {
        if i == 0 {
            assert(all[i] == Seq::<u8>::empty());
        } else if i < 6 {
            assert(all[i] == c1[i - 1]);
        } else if i < 16 {
            assert(all[i] == c2[i - 6]);
        } else if i < 26 {
            assert(all[i] == c3[i - 16]);
        } else if i < 31 {
            assert(all[i] == c4[i - 26]);
        } else {
            assert(all[i] == c5[i - 31]);
        }
    }
}

/// The number of outcomes of rolling `k` dice, counted as multisets of
/// faces.
pub proof fn lemma_selection_count(k: nat)
    requires
        k <= 5,
    ensures
        n_take_r_spec(6, k, false, true) == multichoose(6, k),
        multichoose(6, k) <= 252,
        multichoose(6, k) >= 1,
        k == 5 ==> multichoose(6, k) == 252,
{
    reveal_with_fuel(fact_spec, 11);
    reveal_with_fuel(multichoose, 12);
    assert(multichoose(1, 5) == 1);
    assert(multichoose(2, 5) == 6);
    assert(multichoose(3, 5) == 21);
    assert(multichoose(4, 5) == 56);
    assert(multichoose(5, 5) == 126);
    assert(multichoose(6, 1) == 6);
    assert(multichoose(6, 2) == 21);
    assert(multichoose(6, 3) == 56);
    assert(multichoose(6, 4) == 126);
    assert(multichoose(6, 5) == 252);
    assert(fact_spec(0) == 1);
    assert(fact_spec(1) == 1);
    assert(fact_spec(2) == 2);
    assert(fact_spec(3) == 6);
    assert(fact_spec(4) == 24);
    assert(fact_spec(5) == 120);
    assert(fact_spec(6) == 720);
    assert(fact_spec(7) == 5040);
    assert(fact_spec(8) == 40320);
    assert(fact_spec(9) == 362880);
    assert(fact_spec(10) == 3628800);
    if k == 0 {
        assert(n_take_r_spec(6, k, false, true) == 120int / (1 * 120int));
    } else if k == 1 {
        assert(n_take_r_spec(6, k, false, true) == 720int / (1 * 120int));
    } else if k == 2 {
        assert(n_take_r_spec(6, k, false, true) == 5040int / (2 * 120int));
    } else if k == 3 {
        assert(n_take_r_spec(6, k, false, true) == 40320int / (6 * 120int));
    } else if k == 4 {
        assert(n_take_r_spec(6, k, false, true) == 362880int / (24 * 120int));
    } else {
        assert(n_take_r_spec(6, k, false, true) == 3628800int / (120 * 120int));
    }
}

/// Outcomes of rolling the dice at positions `c`.
pub open spec fn selection_count(c: Seq<u8>) -> int {
    n_take_r_spec(6, c.len(), false, true)
}

/// Where the outcomes of the `i`-th way to pick dice start in the outcome
/// table: the outcome counts of the earlier ways, added up.
pub open spec fn range_start(cs: Seq<Seq<u8>>, i: int) -> int
    decreases i,
{
    if i <= 0 {
        0
    } else {
        range_start(cs, i - 1) + selection_count(cs[i - 1])
    }
}

/// For each way to pick dice, the range of its outcomes within the outcome
/// table.
pub fn selection_ranges() -> (sel_ranges: Vec<(usize, usize)>)
    ensures
        sel_ranges.len() == 32,
        forall|i: int|
            0 <= i < 32 ==> (#[trigger] sel_ranges@[i]).0 == range_start(index_combos_spec(), i)
                && sel_ranges@[i].1 == range_start(index_combos_spec(), i + 1),
{
    let mut sel_ranges: Vec<(usize, usize)> = vec![(0, 0); 32];
    let mut s: usize = 0;
    sel_ranges.set(0, (0, 1));
    let combos = die_index_combos();
    proof {
        lemma_index_combos_len();
        lemma_index_combos_elem_len();
    }
    let mut i: usize = 0;
    while i < combos.len()
        invariant
            combos.deep_view() == index_combos_spec(),
            combos.len() == 32,
            sel_ranges.len() == 32,
            i <= 32,
            s == range_start(index_combos_spec(), i as int),
            s <= 252 * i,
            forall|j: int|
                0 <= j < i ==> (#[trigger] sel_ranges@[j]).0 == range_start(index_combos_spec(), j)
                    && sel_ranges@[j].1 == range_start(index_combos_spec(), j + 1),
            forall|j: int| 0 <= j < 32 ==> (#[trigger] index_combos_spec()[j]).len() <= 5,
        decreases 32 - i,
    {
        let len = combos[i].len();
        assert(len == index_combos_spec()[i as int].len());
        proof {
            lemma_selection_count(len as nat);
        }
        let count = n_take_r(6, len, false, true);
        sel_ranges.set(i, (s, s + count as usize));
        s = s + count as usize;
        i = i + 1;
    }
    sel_ranges
}

/// The outcomes table: for the `i`-th way to pick dice, in order, each
/// multiset of faces for the picked dice, in the order of
/// `combos_rep(die_faces(), ..)`.
pub open spec fn outcomes_table_spec(outcomes: Seq<Outcome>) -> bool {
    &&& outcomes.len() == range_start(index_combos_spec(), 32)
    &&& forall|i: int, k: int|
        0 <= i < 32 && 0 <= k < multichoose(6, index_combos_spec()[i].len()) ==> outcome_matches(
            #[trigger] outcomes[range_start(index_combos_spec(), i) + k],
            index_combos_spec()[i],
            #[trigger] combos_rep(die_faces(), index_combos_spec()[i].len())[k],
        )
}

/// One step of placing the rolled values: writing `v[j]` at position `c[j]`
/// of the dice and clearing it in the mask keeps the earlier placements,
/// leaves the unpicked dice at 0, and leaves the mask bits of positions not
/// yet placed at 7.
proof fn lemma_place_step(
    before_d: Seq<u8>,
    before_m: Seq<u8>,
    after_d: Seq<u8>,
    after_m: Seq<u8>,
    c: Seq<u8>,
    v: Seq<u8>,
    j: int,
)
    requires
        0 <= j < c.len(),
        v.len() == c.len(),
        before_d.len() == 5,
        before_m.len() == 5,
        strictly_increasing(c),
        forall|jj: int| 0 <= jj < c.len() ==> c[jj] < 5,
        after_d == before_d.update(c[j] as int, v[j]),
        after_m == before_m.update(c[j] as int, 0),
        forall|jj: int| 0 <= jj < j ==> before_d[c[jj] as int] == v[jj] && before_m[c[jj] as int] == 0,
        forall|p: int| 0 <= p < 5 && !c.contains(p as u8) ==> before_d[p] == 0,
        forall|p: int| 0 <= p < 5 && !c.subrange(0, j).contains(p as u8) ==> before_m[p] == 7,
    ensures
        forall|jj: int| 0 <= jj < j + 1 ==> after_d[c[jj] as int] == v[jj] && after_m[c[jj] as int] == 0,
        forall|p: int| 0 <= p < 5 && !c.contains(p as u8) ==> after_d[p] == 0,
        forall|p: int| 0 <= p < 5 && !c.subrange(0, j + 1).contains(p as u8) ==> after_m[p] == 7,
{
    let idx = c[j];
    assert forall|jj: int| 0 <= jj < j + 1 implies after_d[c[jj] as int] == v[jj] && after_m[c[jj] as int]
        == 0 by {
        if jj < j {
            assert(c[jj] < c[j]);
        }
    }
    assert forall|p: int| 0 <= p < 5 && !c.subrange(0, j + 1).contains(p as u8) implies after_m[p] == 7 by {
        assert(c.subrange(0, j + 1)[j] == idx);
        assert(p != idx);
        if c.subrange(0, j).contains(p as u8) {
            let m = choose|m: int| 0 <= m < j && c.subrange(0, j)[m] == p as u8;
            assert(c.subrange(0, j + 1)[m] == p as u8);
        }
    }
    assert forall|p: int| 0 <= p < 5 && !c.contains(p as u8) implies after_d[p] == 0 by {
        assert(c[j] == idx);
        assert(p != idx);
    }
}

/// Roll outcomes for every way to pick dice, grouped by way, where 0 stands
/// for an unselected die.
pub fn all_selection_outcomes() -> (retval: Vec<Outcome>)
    ensures
        outcomes_table_spec(retval@),
{
    let mut retval: Vec<Outcome> = Vec::new();
    let mut outcome = Outcome {
        dievals: DieVals { data: 0 },
        mask: DieVals { data: 0 },
        arrangements: 0,
    };
    let combos = die_index_combos();
    proof {
        lemma_index_combos_len();
        lemma_index_combos_elem_len();
    }
    let mut i: usize = 0;
    while i < combos.len()
        invariant
            combos.deep_view() == index_combos_spec(),
            combos.len() == 32,
            i <= 32,
            retval.len() == range_start(index_combos_spec(), i as int),
            forall|j: int| 0 <= j < 32 ==> (#[trigger] index_combos_spec()[j]).len() <= 5,
            forall|ii: int, k: int|
                0 <= ii < i && 0 <= k < multichoose(6, index_combos_spec()[ii].len())
                    ==> outcome_matches(
                    #[trigger] retval@[range_start(index_combos_spec(), ii) + k],
                    index_combos_spec()[ii],
                    #[trigger] combos_rep(die_faces(), index_combos_spec()[ii].len())[k],
                ),
        decreases 32 - i,
    {
        let combo = &combos[i];
        let ghost c = index_combos_spec()[i as int];
        assert(combo@ == c);
        proof {
            lemma_index_combo_positions(i as int);
            lemma_selection_count(c.len());
        }
        outcome.dievals = DieVals { data: 0 };
        assert forall|p: int| 0 <= p < 5 implies outcome.dievals@[p] == 0 by {
            assert(field_at(0, p) == 0) by {
                let q = (3 * p) as u16;
                assert(((0u16 >> q) & 7u16) as u8 == 0u8) by (bit_vector);
            }
        }
        let faces: Vec<u8> = vec![1, 2, 3, 4, 5, 6];
        assert(faces@ =~= die_faces());
        let dv_list = combinations_with_replacement_of(faces, combo.len());
        proof {
            lemma_combos_rep_len(die_faces(), c.len());
            lemma_combos_rep_sound(die_faces(), c.len());
        }
        let ghost base = retval.len() as int;
        proof {
            lemma_range_start_nonneg(i as int);
        }
        let mut k: usize = 0;
        while k < dv_list.len()
            invariant
                combos.deep_view() == index_combos_spec(),
                combos.len() == 32,
                i < 32,
                combo@ == c,
                c == index_combos_spec()[i as int],
                c.len() <= 5,
                strictly_increasing(c),
                forall|j: int| 0 <= j < c.len() ==> c[j] < 5,
                dv_list.deep_view() == combos_rep(die_faces(), c.len()),
                dv_list.len() == multichoose(6, c.len()),
                forall|ix: int|
                    0 <= ix < dv_list.len() ==> {
                        let w = #[trigger] dv_list.deep_view()[ix];
                        &&& w.len() == c.len()
                        &&& forall|j: int| 0 <= j < w.len() ==> die_faces().contains(#[trigger] w[j])
                    },
                k <= dv_list.len(),
                base == range_start(index_combos_spec(), i as int),
                base >= 0,
                retval.len() == base + k,
                forall|p: int| 0 <= p < 5 && !c.contains(p as u8) ==> outcome.dievals@[p] == 0,
                outcome.dievals.data < 32768,
                forall|j: int| 0 <= j < 32 ==> (#[trigger] index_combos_spec()[j]).len() <= 5,
                forall|ii: int, kk: int|
                    0 <= ii < i && 0 <= kk < multichoose(6, index_combos_spec()[ii].len())
                        ==> outcome_matches(
                        #[trigger] retval@[range_start(index_combos_spec(), ii) + kk],
                        index_combos_spec()[ii],
                        #[trigger] combos_rep(die_faces(), index_combos_spec()[ii].len())[kk],
                    ),
                forall|kk: int|
                    0 <= kk < k ==> outcome_matches(
                        #[trigger] retval@[base + kk],
                        c,
                        combos_rep(die_faces(), c.len())[kk],
                    ),
            decreases dv_list.len() - k,
        {
            let dievals_vec = &dv_list[k];
            let ghost v = dv_list.deep_view()[k as int];
            assert(dievals_vec@ == v);
            outcome.mask = DieVals::from_array([0b111, 0b111, 0b111, 0b111, 0b111]);
            proof {
                let m = outcome.mask.data;
                assert(m == 7u16 << 12u16 | 7u16 << 9u16 | 7u16 << 6u16 | 7u16 << 3u16 | 7u16);
                assert(m == 7u16 << 12u16 | 7u16 << 9u16 | 7u16 << 6u16 | 7u16 << 3u16 | 7u16 ==> m < 32768)
                    by (bit_vector);
            }
            assert forall|j: int| 0 <= j < v.len() implies v[j] < 8 by {
                assert(die_faces().contains(v[j]));
            }
            let mut j: usize = 0;
            while j < dievals_vec.len()
                invariant
                    dievals_vec@ == v,
                    combo@ == c,
                    v.len() == c.len(),
                    c.len() <= 5,
                    j <= v.len(),
                    strictly_increasing(c),
                    forall|jj: int| 0 <= jj < c.len() ==> c[jj] < 5,
                    forall|jj: int| 0 <= jj < v.len() ==> v[jj] < 8,
                    forall|jj: int|
                        0 <= jj < j ==> outcome.dievals@[c[jj] as int] == v[jj] && outcome.mask@[c[jj] as int] == 0,
                    forall|p: int| 0 <= p < 5 && !c.contains(p as u8) ==> outcome.dievals@[p] == 0,
                    forall|p: int|
                        0 <= p < 5 && !c.subrange(0, j as int).contains(p as u8) ==> outcome.mask@[p] == 7,
                    outcome.dievals.data < 32768,
                    outcome.mask.data < 32768,
                decreases v.len() - j,
            {
                let idx = combo[j];
                let val = dievals_vec[j];
                let ghost before_d = outcome.dievals@;
                let ghost before_m = outcome.mask@;
                outcome.dievals.set(idx, val);
                outcome.mask.set(idx, 0);
                proof {
                    assert(idx == c[j as int]);
                    assert(val == v[j as int]);
                    lemma_place_step(before_d, before_m, outcome.dievals@, outcome.mask@, c, v, j as int);
                }
                j = j + 1;
            }
            proof {
                assert(c.subrange(0, j as int) =~= c);
            }
            let vals_copy = dievals_vec.clone();
            assert(vals_copy@ =~= v);
            outcome.arrangements = distinct_arrangements_for(vals_copy);
            assert(outcome_matches(outcome, c, v)) by {
                assert forall|jj: int| 0 <= jj < c.len() implies outcome.dievals@[c[jj] as int] == v[jj]
                    && outcome.mask@[c[jj] as int] == 0 by {}
                lemma_pack_view(outcome.dievals);
                lemma_pack_view(outcome.mask);
                assert forall|p: int| 0 <= p < 5 && !c.contains(p as u8) implies outcome.dievals@[p] == 0
                    && outcome.mask@[p] == 7 by {
                    assert(!c.subrange(0, j as int).contains(p as u8));
                }
                assert(outcome.arrangements == arrangements_spec(v));
            }
            let ghost prev = retval@;
            retval.push(outcome);
            proof {
                assert(retval@ == prev.push(outcome));
                assert(prev.len() == base + k);
                assert forall|ii: int, kk: int|
                    0 <= ii < i && 0 <= kk < multichoose(6, index_combos_spec()[ii].len())
                        implies outcome_matches(
                        #[trigger] retval@[range_start(index_combos_spec(), ii) + kk],
                        index_combos_spec()[ii],
                        #[trigger] combos_rep(die_faces(), index_combos_spec()[ii].len())[kk],
                    ) by {
                    lemma_range_start_mono(ii, i as int);
                    lemma_selection_count(index_combos_spec()[ii].len());
                    assert(range_start(index_combos_spec(), ii) + kk < prev.len());
                    assert(retval@[range_start(index_combos_spec(), ii) + kk] == prev[range_start(
                        index_combos_spec(),
                        ii,
                    ) + kk]);
                }
                assert forall|kk: int|
                    0 <= kk < k + 1 implies outcome_matches(
                        #[trigger] retval@[base + kk],
                        c,
                        combos_rep(die_faces(), c.len())[kk],
                    ) by {
                    if kk < k {
                        assert(retval@[base + kk] == prev[base + kk]);
                    } else {
                        assert(retval@[base + kk] == outcome);
                    }
                }
            }
            k = k + 1;
        }
        proof {
            assert(range_start(index_combos_spec(), i + 1) == base + multichoose(6, c.len()));
        }
        i = i + 1;
    }
    retval
}

/// The outcome ranges of the ways to pick dice come one after another.
proof fn lemma_range_start_mono(a: int, b: int)
    requires
        0 <= a < b <= 32,
    ensures
        range_start(index_combos_spec(), a) + selection_count(index_combos_spec()[a])
            <= range_start(index_combos_spec(), b),
        range_start(index_combos_spec(), a) >= 0,
    decreases b - a,
{
    lemma_index_combos_len();
    lemma_index_combos_elem_len();
    lemma_range_start_nonneg(a);
    if a + 1 < b {
        lemma_range_start_mono(a, b - 1);
        lemma_selection_count(index_combos_spec()[b - 1].len());
    }
}

proof fn lemma_range_start_nonneg(a: int)
    requires
        0 <= a <= 32,
    ensures
        range_start(index_combos_spec(), a) >= 0,
    decreases a,
{
    lemma_index_combos_len();
    lemma_index_combos_elem_len();
    if a > 0 {
        lemma_range_start_nonneg(a - 1);
        lemma_selection_count(index_combos_spec()[a - 1].len());
    }
}

/// The `i`-th way to pick dice lists distinct positions below 5, increasing.
proof fn lemma_index_combo_positions(i: int)
    requires
        0 <= i < 32,
    ensures
        strictly_increasing(index_combos_spec()[i]),
        forall|j: int| 0 <= j < index_combos_spec()[i].len() ==> #[trigger] index_combos_spec()[i][j] < 5,
{
    lemma_index_combos_len();
    let dp = die_positions();
    assert(strictly_increasing(dp));
    lemma_combos_sound(dp, 1);
    lemma_combos_sound(dp, 2);
    lemma_combos_sound(dp, 3);
    lemma_combos_sound(dp, 4);
    lemma_combos_sound(dp, 5);
    let all = index_combos_spec();
    let c = all[i];
    if i == 0 {
        assert(c == Seq::<u8>::empty());
    } else if i < 6 {
        assert(c == combos(dp, 1)[i - 1]);
    } else if i < 16 {
        assert(c == combos(dp, 2)[i - 6]);
    } else if i < 26 {
        assert(c == combos(dp, 3)[i - 16]);
    } else if i < 31 {
        assert(c == combos(dp, 4)[i - 26]);
    } else {
        assert(c == combos(dp, 5)[i - 31]);
    }
    assert forall|j: int| 0 <= j < c.len() implies #[trigger] c[j] < 5 by {
        if c.len() > 0 {
            assert(dp.contains(c[j]));
        }
    }
}

/// The 252 sorted combinations of five die faces, in lexicographic order.
pub open spec fn face_combos() -> Seq<Seq<u8>> {
    combos_rep(die_faces(), 5)
}

/// Facts about the sorted face combinations: 252 of them, each five faces
/// long, sorted, and no two alike.
pub proof fn lemma_face_combos()
    ensures
        face_combos().len() == 252,
        face_combos().no_duplicates(),
        forall|i: int|
            0 <= i < 252 ==> {
                let c = #[trigger] face_combos()[i];
                &&& c.len() == 5
                &&& nondecreasing(c)
                &&& forall|j: int| 0 <= j < 5 ==> 1 <= #[trigger] c[j] <= 6
            },
{
    lemma_combos_rep_len(die_faces(), 5);
    lemma_selection_count(5);
    assert(die_faces().len() == 6);
    assert(strictly_increasing(die_faces()));
    lemma_combos_rep_sorted(die_faces(), 5);
    lemma_combos_rep_sound(die_faces(), 5);
    assert forall|i: int|
        0 <= i < 252 implies {
        let c = #[trigger] face_combos()[i];
        &&& c.len() == 5
        &&& nondecreasing(c)
        &&& forall|j: int| 0 <= j < 5 ==> 1 <= #[trigger] c[j] <= 6
    } by {
        let c = face_combos()[i];
        assert(c == combos_rep(die_faces(), 5)[i]);
        assert(nondecreasing(combos_rep(die_faces(), 5)[i]));
        assert forall|j: int| 0 <= j < 5 implies 1 <= #[trigger] c[j] <= 6 by {
            assert(die_faces().contains(combos_rep(die_faces(), 5)[i][j]));
        }
    }
}

/// The die values of each sorted combination, indexed by its id; entry 0 is
/// the all-zero wildcard.
pub fn dievals_for_dievals_id() -> (out: Vec<DieVals>)
    ensures
        out.len() == 253,
        out@[0].data == 0,
        forall|i: int| 0 <= i < 252 ==> (#[trigger] out@[i + 1])@ == face_combos()[i],
        forall|i: int| 0 <= i < 252 ==> (#[trigger] out@[i + 1]).data == pack_spec(face_combos()[i]),
{
    let mut out: Vec<DieVals> = Vec::new();
    out.push(DieVals { data: 0 });
    let faces: Vec<u8> = vec![1, 2, 3, 4, 5, 6];
    assert(faces@ =~= die_faces());
    let combos = combinations_with_replacement_of(faces, 5);
    proof {
        lemma_face_combos();
    }
    let mut i: usize = 0;
    while i < combos.len()
        invariant
            combos.deep_view() == face_combos(),
            combos.len() == 252,
            i <= 252,
            out.len() == i + 1,
            out@[0].data == 0,
            forall|ii: int| 0 <= ii < i ==> (#[trigger] out@[ii + 1])@ == face_combos()[ii],
            forall|ii: int| 0 <= ii < i ==> (#[trigger] out@[ii + 1]).data == pack_spec(face_combos()[ii]),
            forall|ii: int|
                0 <= ii < 252 ==> {
                    let c = #[trigger] face_combos()[ii];
                    &&& c.len() == 5
                    &&& forall|j: int| 0 <= j < 5 ==> 1 <= #[trigger] c[j] <= 6
                },
        decreases 252 - i,
    {
        let ghost c = face_combos()[i as int];
        assert(combos@[i as int]@ == c);
        let dv = DieVals::from_vec(&combos[i]);
        assert(dv@ == c) by {
            assert(forall|j: int| 0 <= j < 5 ==> c[j] < 8);
            assert(c.subrange(0, 5) =~= c);
        }
        assert(dv.data == pack_spec(c));
        out.push(dv);
        i = i + 1;
    }
    out
}

/// Every order of the dice of the `i`-th sorted combination is mapped to
/// id `i + 1`.
pub open spec fn maps_rearrangements(arr: Seq<DieValsID>, i: int) -> bool {
    forall|t: Seq<u8>| #[trigger] is_rearrangement(t, face_combos()[i]) ==> arr[pack_spec(t) as int].data == i + 1
}

/// Entry `d` is 0 or the id of a combination among the first `n` whose
/// dice, in some order, pack to `d`.
pub open spec fn entry_accounted(arr: Seq<DieValsID>, d: int, n: int) -> bool {
    arr[d].data == 0 || exists|t: Seq<u8>|
        #[trigger] is_rearrangement(t, face_combos()[arr[d].data - 1]) && 1 <= arr[d].data <= n
            && pack_spec(t) == d
}

/// A rearrangement of a sequence holds only its values.
proof fn lemma_rearrangement_values(t: Seq<u8>, c: Seq<u8>)
    requires
        is_rearrangement(t, c),
    ensures
        forall|j: int| 0 <= j < t.len() ==> c.contains(#[trigger] t[j]),
{
    broadcast use vstd::seq_lib::group_to_multiset_ensures;

    assert forall|j: int| 0 <= j < t.len() implies c.contains(#[trigger] t[j]) by {
        assert(t.contains(t[j]));
        assert(t.to_multiset().count(t[j]) > 0);
        assert(c.to_multiset().count(t[j]) > 0);
    }
}

/// Distinct sorted combinations share no rearrangement.
proof fn lemma_rearrangements_disjoint(t: Seq<u8>, i: int, ii: int)
    requires
        0 <= i < 252,
        0 <= ii < 252,
        is_rearrangement(t, face_combos()[i]),
        is_rearrangement(t, face_combos()[ii]),
    ensures
        i == ii,
{
    lemma_face_combos();
    lemma_sorted_unique(face_combos()[i], face_combos()[ii]);
}

/// For each packing of five die values, the id of their sorted combination
/// (0 where the packing is not one of five faces).
pub fn dievals_id_for_dievals() -> (arr: Vec<DieValsID>)
    ensures
        arr.len() == 28087,
        forall|i: int| 0 <= i < 252 ==> maps_rearrangements(arr@, i),
        forall|d: int| 0 <= d < 28087 ==> #[trigger] entry_accounted(arr@, d, 252),
{
    let mut arr: Vec<DieValsID> = Vec::new();
    let mut n: usize = 0;
    while n < 28087
        invariant
            n <= 28087,
            arr.len() == n,
            forall|d: int| 0 <= d < n ==> (#[trigger] arr@[d]).data == 0,
        decreases 28087 - n,
    {
        arr.push(DieValsID { data: 0 });
        n = n + 1;
    }
    arr.set(0, DieValsID { data: 0 });
    let faces: Vec<u8> = vec![1, 2, 3, 4, 5, 6];
    assert(faces@ =~= die_faces());
    let combos = combinations_with_replacement_of(faces, 5);
    proof {
        lemma_face_combos();
    }
    let mut i: usize = 0;
    while i < combos.len()
        invariant
            combos.deep_view() == face_combos(),
            combos.len() == 252,
            i <= 252,
            arr.len() == 28087,
            forall|ii: int| 0 <= ii < i ==> maps_rearrangements(arr@, ii),
            forall|d: int| 0 <= d < 28087 ==> #[trigger] entry_accounted(arr@, d, i as int),
        decreases 252 - i,
    {
        let ghost c = face_combos()[i as int];
        proof {
            lemma_face_combos();
        }
        let combo = combos[i].clone();
        assert(combo@ =~= c);
        let all_perms = permutations_of(combo, 5);
        let perms = unique_of(all_perms);
        let ghost ps = perms.deep_view();
        proof {
            assert forall|x: int| 0 <= x < ps.len() implies is_rearrangement(#[trigger] ps[x], c) by {
                assert(ps.to_set().contains(ps[x]));
                assert(all_perms.deep_view().to_set().contains(ps[x]));
                let y = choose|y: int| 0 <= y < all_perms.deep_view().len() && all_perms.deep_view()[y] == ps[x];
                assert(is_rearrangement(all_perms.deep_view()[y], c));
            }
            assert forall|d: int| 0 <= d < 28087 implies #[trigger] entry_accounted(arr@, d, i + 1) by {
                assert(entry_accounted(arr@, d, i as int));
            }
        }
        let mut j: usize = 0;
        while j < perms.len()
            invariant
                0 <= i < 252,
                c == face_combos()[i as int],
                ps == perms.deep_view(),
                forall|x: int| 0 <= x < ps.len() ==> is_rearrangement(#[trigger] ps[x], c),
                j <= perms.len(),
                arr.len() == 28087,
                forall|ii: int| 0 <= ii < i ==> maps_rearrangements(arr@, ii),
                forall|x: int| 0 <= x < j ==> arr@[pack_spec(#[trigger] ps[x]) as int].data == i + 1,
                forall|d: int| 0 <= d < 28087 ==> #[trigger] entry_accounted(arr@, d, i + 1),
            decreases perms.len() - j,
        {
            let ghost p = ps[j as int];
            assert(perms@[j as int]@ == p);
            proof {
                lemma_rearrangement_values(p, c);
                lemma_face_combos();
                assert forall|k: int| 0 <= k < 5 implies p[k] <= 6 && p[k] < 8 by {
                    let m = choose|m: int| 0 <= m < c.len() && c[m] == p[k];
                }
                lemma_pack_bound(p);
            }
            let dv = DieVals::from_vec(&perms[j]);
            let ghost old_arr = arr@;
            arr.set(dv.data as usize, DieValsID { data: (i as u8) + 1 });
            proof {
                let d0 = dv.data as int;
                assert(d0 == pack_spec(p));
                assert forall|ii: int| 0 <= ii < i implies maps_rearrangements(arr@, ii) by {
                    assert forall|t: Seq<u8>| #[trigger] is_rearrangement(t, face_combos()[ii]) implies arr@[pack_spec(t) as int].data == ii + 1 by {
                        assert(maps_rearrangements(old_arr, ii));
                        lemma_rearrangement_values(t, face_combos()[ii]);
                        assert forall|k: int| 0 <= k < 5 implies t[k] <= 6 by {
                            let m = choose|m: int| 0 <= m < 5 && face_combos()[ii][m] == t[k];
                        }
                        lemma_pack_bound(t);
                        if pack_spec(t) as int == d0 {
                            lemma_pack_injective(t, p);
                            lemma_rearrangements_disjoint(t, i as int, ii);
                        }
                    }
                }
                assert forall|x: int| 0 <= x < j + 1 implies arr@[pack_spec(#[trigger] ps[x]) as int].data == i + 1 by {
                    lemma_rearrangement_values(ps[x], c);
                    assert forall|k: int| 0 <= k < 5 implies ps[x][k] <= 6 by {
                        let m = choose|m: int| 0 <= m < 5 && c[m] == ps[x][k];
                    }
                    lemma_pack_bound(ps[x]);
                    if pack_spec(ps[x]) as int != d0 {
                        assert(arr@[pack_spec(ps[x]) as int] == old_arr[pack_spec(ps[x]) as int]);
                    }
                }
                assert forall|d: int| 0 <= d < 28087 implies #[trigger] entry_accounted(arr@, d, i + 1) by {
                    if d == d0 {
                        assert(is_rearrangement(p, face_combos()[arr@[d].data - 1]));
                    } else {
                        assert(arr@[d] == old_arr[d]);
                        assert(entry_accounted(old_arr, d, i + 1));
                    }
                }
            }
            j = j + 1;
        }
        proof {
            assert forall|t: Seq<u8>| #[trigger] is_rearrangement(t, c) implies arr@[pack_spec(t) as int].data == i + 1 by {
                assert(ps.to_set().contains(t));
                let x = choose|x: int| 0 <= x < ps.len() && ps[x] == t;
                assert(arr@[pack_spec(ps[x]) as int].data == i + 1);
            }
            assert(maps_rearrangements(arr@, i as int));
        }
        i = i + 1;
    }
    arr
}

/// The index, among the ways to pick dice, that each selection bitfield
/// reads its outcomes from: the way that picks exactly the selected dice.
pub open spec fn idx_for_selection_spec(selection: int) -> int {
    if selection == 0 {
        0
    } else if selection == 1 {
        1
    } else if selection == 2 {
        2
    } else if selection == 3 {
        6
    } else if selection == 4 {
        3
    } else if selection == 5 {
        7
    } else if selection == 6 {
        10
    } else if selection == 7 {
        16
    } else if selection == 8 {
        4
    } else if selection == 9 {
        8
    } else if selection == 10 {
        11
    } else if selection == 11 {
        17
    } else if selection == 12 {
        13
    } else if selection == 13 {
        19
    } else if selection == 14 {
        22
    } else if selection == 15 {
        26
    } else if selection == 16 {
        5
    } else if selection == 17 {
        9
    } else if selection == 18 {
        12
    } else if selection == 19 {
        18
    } else if selection == 20 {
        14
    } else if selection == 21 {
        20
    } else if selection == 22 {
        23
    } else if selection == 23 {
        27
    } else if selection == 24 {
        15
    } else if selection == 25 {
        21
    } else if selection == 26 {
        24
    } else if selection == 27 {
        28
    } else if selection == 28 {
        25
    } else if selection == 29 {
        29
    } else if selection == 30 {
        30
    } else {
        31
    }
}

/// The table entry of a selection bitfield: which way to pick dice its
/// outcomes come from.
pub fn idx_for_selection(selection: u8) -> (r: usize)
    requires
        selection < 32,
    ensures
        r == idx_for_selection_spec(selection as int),
        r < 32,
{
    match selection {
        0 => 0,
        1 => 1,
        2 => 2,
        3 => 6,
        4 => 3,
        5 => 7,
        6 => 10,
        7 => 16,
        8 => 4,
        9 => 8,
        10 => 11,
        11 => 17,
        12 => 13,
        13 => 19,
        14 => 22,
        15 => 26,
        16 => 5,
        17 => 9,
        18 => 12,
        19 => 18,
        20 => 14,
        21 => 20,
        22 => 23,
        23 => 27,
        24 => 15,
        25 => 21,
        26 => 24,
        27 => 28,
        28 => 25,
        29 => 29,
        30 => 30,
        _ => 31,
    }
}

/// The precomputed lookup tables: die values to their sorted-combination
/// id and back, and the roll outcomes of every way to pick dice.
pub struct Tables {
    pub dievals_id_for_dievals: Vec<DieValsID>,
    pub dievals_for_dievals_id: Vec<DieVals>,
    pub selection_ranges: Vec<(usize, usize)>,
    pub outcomes: Vec<Outcome>,
}

impl Tables {
    /// The tables hold what their builders compute.
    pub open spec fn wf(&self) -> bool {
        &&& self.dievals_id_for_dievals.len() == 28087
        &&& forall|i: int| 0 <= i < 252 ==> maps_rearrangements(self.dievals_id_for_dievals@, i)
        &&& forall|d: int| 0 <= d < 28087 ==> #[trigger] entry_accounted(self.dievals_id_for_dievals@, d, 252)
        &&& self.dievals_for_dievals_id.len() == 253
        &&& self.dievals_for_dievals_id@[0].data == 0
        &&& forall|i: int| 0 <= i < 252 ==> (#[trigger] self.dievals_for_dievals_id@[i + 1])@ == face_combos()[i]
        &&& forall|i: int| 0 <= i < 252 ==> (#[trigger] self.dievals_for_dievals_id@[i + 1]).data == pack_spec(face_combos()[i])
        &&& self.selection_ranges.len() == 32
        &&& forall|i: int|
            0 <= i < 32 ==> (#[trigger] self.selection_ranges@[i]).0 == range_start(index_combos_spec(), i)
                && self.selection_ranges@[i].1 == range_start(index_combos_spec(), i + 1)
        &&& outcomes_table_spec(self.outcomes@)
    }

    /// Builds all tables.
    pub fn new() -> (t: Tables)
        ensures
            t.wf(),
    {
        Tables {
            dievals_id_for_dievals: dievals_id_for_dievals(),
            dievals_for_dievals_id: dievals_for_dievals_id(),
            selection_ranges: selection_ranges(),
            outcomes: all_selection_outcomes(),
        }
    }

    /// The id of the sorted combination of the dice `dievals`.
    pub fn id_for_dievals(&self, dievals: DieVals) -> (r: DieValsID)
        requires
            self.wf(),
            dievals.data < 28087,
        ensures
            r == self.dievals_id_for_dievals@[dievals.data as int],
            r.data <= 252,
    {
        let r = self.dievals_id_for_dievals[dievals.data as usize];
        assert(entry_accounted(self.dievals_id_for_dievals@, dievals.data as int, 252));
        r
    }

    /// The id of the sorted combination of the five die values `a`.
    pub fn id_for_array(&self, a: [DieVal; 5]) -> (r: DieValsID)
        requires
            self.wf(),
            pack_spec(a@) < 28087,
        ensures
            r == self.dievals_id_for_dievals@[pack_spec(a@) as int],
    {
        self.id_for_dievals(DieVals::from_array(a))
    }

    /// The sorted dice of combination `id` (all zero for the wildcard 0).
    pub fn dievals_for_id(&self, id: DieValsID) -> (r: DieVals)
        requires
            self.wf(),
            id.data < 253,
        ensures
            r == self.dievals_for_dievals_id@[id.data as int],
            id.data == 0 ==> r.data == 0,
            id.data > 0 ==> r@ == face_combos()[id.data - 1],
    {
        let r = self.dievals_for_dievals_id[id.data as usize];
        assert(id.data > 0 ==> self.dievals_for_dievals_id@[(id.data - 1) + 1]@ == face_combos()[id.data - 1]);
        r
    }

    /// The roll outcomes for a selection bitfield, where bit `i` set means
    /// die `i` is rolled: those of the way to pick dice that rolls exactly
    /// the selected dice. Each outcome clears the mask of a rolled die and
    /// puts a face there, and keeps every other die (mask 7, value 0).
    pub fn outcomes_for_selection(&self, selection: u8) -> (r: &[Outcome])
        requires
            self.wf(),
            selection < 32,
        ensures
            ({
                let idx = idx_for_selection_spec(selection as int);
                let c = index_combos_spec()[idx];
                &&& r@ == self.outcomes@.subrange(
                    range_start(index_combos_spec(), idx),
                    range_start(index_combos_spec(), idx + 1),
                )
                &&& r@.len() == multichoose(6, c.len())
                &&& forall|k: int|
                    0 <= k < r@.len() ==> outcome_matches(#[trigger] r@[k], c, combos_rep(die_faces(), c.len())[k])
            }),
            index_combos_spec()[idx_for_selection_spec(selection as int)] == selected_positions(selection as int),
            forall|k: int, p: int|
                #![trigger r@[k].mask@[p]]
                0 <= k < r@.len() && 0 <= p < 5 ==> if selected_positions(selection as int).contains(p as u8) {
                    r@[k].mask@[p] == 0 && 1 <= r@[k].dievals@[p] <= 6
                } else {
                    r@[k].mask@[p] == 7 && r@[k].dievals@[p] == 0
                },
    {
        let idx = idx_for_selection(selection);
        let ghost c = index_combos_spec()[idx as int];
        proof {
            lemma_idx_for_selection(selection as int);
        }
        let range = self.selection_ranges[idx];
        proof {
            lemma_index_combos_len();
            lemma_index_combos_elem_len();
            lemma_range_start_nonneg(idx as int);
            lemma_selection_count(c.len());
            lemma_range_start_mono(idx as int, 32);
            assert(range.0 == range_start(index_combos_spec(), idx as int));
            assert(range.1 == range_start(index_combos_spec(), idx + 1));
            assert(range_start(index_combos_spec(), idx + 1) == range_start(index_combos_spec(), idx as int) + selection_count(c));
            assert(range.0 <= range.1);
            assert(self.outcomes@.len() == range_start(index_combos_spec(), 32));
            assert(range.1 <= self.outcomes@.len());
        }
        let r = vstd::slice::slice_subrange(self.outcomes.as_slice(), range.0, range.1);
        proof {
            assert forall|k: int| 0 <= k < r@.len() implies outcome_matches(
                #[trigger] r@[k],
                c,
                combos_rep(die_faces(), c.len())[k],
            ) by {
                assert(r@[k] == self.outcomes@[range_start(index_combos_spec(), idx as int) + k]);
            }
            lemma_combos_rep_sound(die_faces(), c.len());
            lemma_combos_rep_len(die_faces(), c.len());
            lemma_index_combo_positions(idx as int);
            assert forall|k: int, p: int|
                #![trigger r@[k].mask@[p]]
                0 <= k < r@.len() && 0 <= p < 5 implies if c.contains(p as u8) {
                r@[k].mask@[p] == 0 && 1 <= r@[k].dievals@[p] <= 6
            } else {
                r@[k].mask@[p] == 7 && r@[k].dievals@[p] == 0
            } by {
                let v = combos_rep(die_faces(), c.len())[k];
                assert(outcome_matches(r@[k], c, v));
                if c.contains(p as u8) {
                    let j = choose|j: int| 0 <= j < c.len() && c[j] == p as u8;
                    assert(r@[k].dievals@[c[j] as int] == v[j]);
                    assert(die_faces().contains(v[j]));
                    let m = choose|m: int| 0 <= m < 6 && die_faces()[m] == v[j];
                    assert(1 <= die_faces()[m] <= 6);
                }
            }
        }
        r
    }
}

/// The id table holds 0 at every index that no five faces from 1 to 6 pack
/// to, the wildcard index 0 among them.
pub proof fn lemma_id_zero_off_faces(t: &Tables, d: int)
    requires
        t.wf(),
        0 <= d < 28087,
        forall|a: Seq<u8>|
            a.len() == 5 && (forall|j: int| 0 <= j < 5 ==> 1 <= #[trigger] a[j] <= 6) ==> pack_spec(a) != d,
    ensures
        t.dievals_id_for_dievals@[d].data == 0,
{
    if t.dievals_id_for_dievals@[d].data != 0 {
        assert(entry_accounted(t.dievals_id_for_dievals@, d, 252));
        let id = t.dievals_id_for_dievals@[d].data;
        let a = choose|a: Seq<u8>|
            #[trigger] is_rearrangement(a, face_combos()[id - 1]) && 1 <= id <= 252 && pack_spec(a) == d;
        lemma_face_combos();
        let c = face_combos()[id - 1];
        lemma_rearrangement_values(a, c);
        assert forall|j: int| 0 <= j < 5 implies 1 <= #[trigger] a[j] <= 6 by {
            assert(c.contains(a[j]));
            let m = choose|m: int| 0 <= m < c.len() && c[m] == a[j];
        }
    }
}

/// No five faces from 1 to 6 pack to 0, so the wildcard id's entry is 0.
pub proof fn lemma_wildcard_id(t: &Tables)
    requires
        t.wf(),
    ensures
        t.dievals_id_for_dievals@[0].data == 0,
{
    assert forall|a: Seq<u8>|
        a.len() == 5 && (forall|j: int| 0 <= j < 5 ==> 1 <= #[trigger] a[j] <= 6) implies pack_spec(a) != 0 by {
        let z = seq![0u8, 0, 0, 0, 0];
        assert(pack_spec(z) == 0) by {
            assert((0u8 as u16) << 12u16 | (0u8 as u16) << 9u16 | (0u8 as u16) << 6u16 | (0u8 as u16) << 3u16
                | (0u8 as u16) == 0) by (bit_vector);
        }
        if pack_spec(a) == 0 {
            lemma_pack_injective(a, z);
            assert(a[0] == z[0]);
        }
    }
    lemma_id_zero_off_faces(t, 0);
}

/// The dice `a` in ascending order.
pub open spec fn sorted_dice(a: Seq<u8>) -> Seq<u8> {
    a.sort_by(|x: u8, y: u8| x <= y)
}

/// The id table, read for five faces from 1 to 6 packed in any order, gives
/// an id from 1 to 252 whose dice are those faces in ascending order; the
/// wildcard index 0 holds id 0.
pub proof fn lemma_id_table(t: &Tables, a: Seq<u8>)
    requires
        t.wf(),
        a.len() == 5,
        forall|i: int| 0 <= i < 5 ==> 1 <= #[trigger] a[i] <= 6,
    ensures
        pack_spec(a) < 28087,
        1 <= t.dievals_id_for_dievals@[pack_spec(a) as int].data <= 252,
        t.dievals_for_dievals_id@[t.dievals_id_for_dievals@[pack_spec(a) as int].data as int]@ == sorted_dice(a),
        t.dievals_id_for_dievals@[0].data == 0,
{
    lemma_pack_bound(a);
    let dv = DieVals { data: pack_spec(a) };
    lemma_pack_view(dv);
    lemma_view_small(dv);
    lemma_pack_injective(dv@, a);
    assert(dv@ == a);
    lemma_canonical_id(t, dv);
    let e = t.dievals_for_dievals_id@[t.dievals_id_for_dievals@[dv.data as int].data as int]@;
    let leq = |x: u8, y: u8| x <= y;
    let srt = a.sort_by(leq);
    assert(vstd::relations::total_ordering(leq));
    a.lemma_sort_by_ensures(leq);
    assert forall|x: int, y: int| 0 <= x < y < srt.len() implies srt[x] <= srt[y] by {
        assert(leq(srt[x], srt[y]));
    }
    lemma_sorted_unique(e, srt);
    lemma_wildcard_id(t);
}

/// The id table sends the dice of every roll to their sorted combination:
/// for five faces from 1 to 6, the id is between 1 and 252 and names a
/// sorted rearrangement of the dice.
pub proof fn lemma_canonical_id(t: &Tables, dv: DieVals)
    requires
        t.wf(),
        dv.data < 32768,
        forall|i: int| 0 <= i < 5 ==> 1 <= #[trigger] dv@[i] <= 6,
    ensures
        dv.data < 28087,
        1 <= t.dievals_id_for_dievals@[dv.data as int].data <= 252,
        nondecreasing(t.dievals_for_dievals_id@[t.dievals_id_for_dievals@[dv.data as int].data as int]@),
        is_rearrangement(dv@, t.dievals_for_dievals_id@[t.dievals_id_for_dievals@[dv.data as int].data as int]@),
{
    lemma_face_combos();
    lemma_pack_view(dv);
    lemma_pack_bound(dv@);
    let leq = |x: u8, y: u8| x <= y;
    let s = dv@.sort_by(leq);
    assert(vstd::relations::total_ordering(leq));
    dv@.lemma_sort_by_ensures(leq);
    assert forall|a: int, b: int| 0 <= a < b < s.len() implies s[a] <= s[b] by {
        assert(leq(s[a], s[b]));
    }
    broadcast use vstd::seq_lib::group_to_multiset_ensures;

    assert(s.len() == 5) by {
        assert(s.len() == s.to_multiset().len());
        assert(dv@.len() == dv@.to_multiset().len());
    }
    assert forall|j: int| 0 <= j < s.len() implies die_faces().contains(#[trigger] s[j]) by {
        assert(s.to_multiset().count(s[j]) > 0);
        assert(dv@.contains(s[j]));
        let m = choose|m: int| 0 <= m < 5 && dv@[m] == s[j];
        assert(1 <= dv@[m] <= 6);
        assert(die_faces()[s[j] - 1] == s[j]);
    }
    assert(strictly_increasing(die_faces()));
    lemma_combos_rep_complete(die_faces(), 5, s);
    let i = choose|i: int| 0 <= i < face_combos().len() && face_combos()[i] == s;
    assert(is_rearrangement(dv@, face_combos()[i]));
    assert(maps_rearrangements(t.dievals_id_for_dievals@, i));
    assert(t.dievals_id_for_dievals@[dv.data as int].data == i + 1);
    assert(t.dievals_for_dievals_id@[i + 1]@ == face_combos()[i]);
}

/// Looking up the id of a sorted combination's dice gives back the id.
pub proof fn lemma_id_round_trip(t: &Tables, id: int)
    requires
        t.wf(),
        1 <= id <= 252,
    ensures
        t.dievals_for_dievals_id@[id].data < 28087,
        t.dievals_id_for_dievals@[t.dievals_for_dievals_id@[id].data as int].data == id,
{
    lemma_face_combos();
    let dv = t.dievals_for_dievals_id@[(id - 1) + 1];
    let c = face_combos()[id - 1];
    assert(dv.data == pack_spec(c));
    lemma_pack_bound(c);
    assert(is_rearrangement(c, c));
    assert(maps_rearrangements(t.dievals_id_for_dievals@, id - 1));
}

} // verus!
