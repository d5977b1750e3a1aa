use vstd::prelude::*;
use vstd::arithmetic::power2::{pow2, lemma_pow2_unfold, lemma_pow2_pos};
use crate::enumeration::{combos, combinations_of, binom, lemma_combos_len, lemma_combos_sound, strictly_increasing};
use crate::game_state::GameState;
use crate::solver::bonus_options;
use crate::sorted_slots::{
    SortedSlots, slot_seq, slots_mask, bit_set, lemma_members_from, YAHTZEE,
};
use crate::upper_totals::relevant_upper_total;

verus! {

/// How many values `t` below `n` satisfy `p`.
pub open spec fn count_below(p: spec_fn(u8) -> bool, n: int) -> nat
    decreases n,
{
    if n <= 0 {
        0
    } else {
        count_below(p, n - 1) + if p((n - 1) as u8) {
            1nat
        } else {
            0nat
        }
    }
}

/// Number of distinct relevant upper totals of the slot set `data`.
pub open spec fn relevant_count(data: u16) -> nat {
    count_below(|t: u8| relevant_upper_total(data, t as int), 256)
}

/// Number of states the solver keeps per slot set: one per relevant upper
/// total and Yahtzee-bonus value (two bonus values while the Yahtzee slot is
/// filled).
pub open spec fn states_of(data: u16) -> int {
    relevant_count(data) * if bit_set(data, 12) {
        1int
    } else {
        2int
    }
}

/// Cache reads per state for slot sets of `k` slots: 848484 for the dice
/// selections and `252 * k` (twice that beyond one slot) for the slot
/// choices.
pub open spec fn lookups_per_state(k: int) -> int {
    848484 + k * (if k == 1 {
        1int
    } else {
        2int
    }) * 252
}

/// States of the first `n` slot sets listed in `cs`.
pub open spec fn saves_of(cs: Seq<Seq<u8>>, n: int) -> int
    decreases n,
{
    if n <= 0 {
        0
    } else {
        saves_of(cs, n - 1) + states_of(slots_mask(cs[n - 1]))
    }
}

/// States of every slot subset of `s` of `1 ..= k` slots.
pub open spec fn saves_upto(s: Seq<u8>, k: int) -> int
    decreases k,
{
    if k <= 0 {
        0
    } else {
        saves_upto(s, k - 1) + saves_of(combos(s, k as nat), combos(s, k as nat).len() as int)
    }
}

/// Cache reads for every slot subset of `s` of `1 ..= k` slots.
pub open spec fn lookups_upto(s: Seq<u8>, k: int) -> int
    decreases k,
{
    if k <= 0 {
        0
    } else {
        lookups_upto(s, k - 1) + lookups_per_state(k) * saves_of(
            combos(s, k as nat),
            combos(s, k as nat).len() as int,
        )
    }
}

/// The counts behind the solver's progress display and cache size.
#[derive(Debug)]
pub struct GameStateCounts {
    pub lookups: u64,
    pub saves: usize,
}

proof fn lemma_count_below_remove(p: spec_fn(u8) -> bool, x: u8, n: int)
    requires
        p(x),
        0 <= n <= 256,
    ensures
        count_below(|t: u8| p(t) && t != x, n) + (if x < n {
            1nat
        } else {
            0nat
        }) == count_below(p, n),
    decreases n,
{
    if n > 0 {
        lemma_count_below_remove(p, x, n - 1);
    }
}

proof fn lemma_count_below_empty(p: spec_fn(u8) -> bool, n: int)
    requires
        forall|t: u8| !#[trigger] p(t),
    ensures
        count_below(p, n) == 0,
    decreases n,
{
    if n > 0 {
        lemma_count_below_empty(p, n - 1);
    }
}

/// A duplicate-free listing of the values satisfying `p` is as long as the
/// number of such values.
proof fn lemma_listing_len(r: Seq<u8>, p: spec_fn(u8) -> bool)
    requires
        r.no_duplicates(),
        forall|t: u8| r.contains(t) <==> #[trigger] p(t),
    ensures
        r.len() == count_below(p, 256),
    decreases r.len(),
{
    if r.len() == 0 {
        lemma_count_below_empty(p, 256);
    } else {
        let x = r.last();
        let q = |t: u8| p(t) && t != x;
        let rest = r.drop_last();
        assert(r.contains(x));
        assert forall|t: u8| rest.contains(t) <==> #[trigger] q(t) by {
            if rest.contains(t) {
                let m = choose|m: int| 0 <= m < rest.len() && rest[m] == t;
                assert(r[m] == t);
                assert(m != r.len() - 1);
            }
            if q(t) {
                let m = choose|m: int| 0 <= m < r.len() && r[m] == t;
                assert(rest[m] == t);
            }
        }
        lemma_listing_len(rest, q);
        lemma_count_below_remove(p, x, 256);
    }
}

/// At most 64 values are relevant totals.
proof fn lemma_relevant_count_bound(data: u16, n: int)
    requires
        0 <= n <= 256,
    ensures
        count_below(|t: u8| relevant_upper_total(data, t as int), n) <= if n < 64 {
            n
        } else {
            64
        },
    decreases n,
{
    if n > 0 {
        lemma_relevant_count_bound(data, n - 1);
    }
}

proof fn lemma_binom_bound(n: nat, k: nat)
    ensures
        binom(n, k) <= pow2(n),
    decreases n,
{
    lemma_pow2_pos(n);
    if k > 0 && n > 0 {
        lemma_binom_bound((n - 1) as nat, (k - 1) as nat);
        lemma_binom_bound((n - 1) as nat, k);
        lemma_pow2_unfold(n);
    }
}

proof fn lemma_saves_bound(cs: Seq<Seq<u8>>, n: int)
    requires
        n >= 0,
    ensures
        0 <= saves_of(cs, n) <= 128 * n,
    decreases n,
{
    if n > 0 {
        lemma_saves_bound(cs, n - 1);
        lemma_relevant_count_bound(slots_mask(cs[n - 1]), 256);
    }
}

impl SortedSlots {
    /// The sets of `k` slots drawn from this set's ordinary slots, in the
    /// lexicographic order of their slot lists.
    pub fn slot_subsets(self, k: usize) -> (r: Vec<SortedSlots>)
        ensures
            r@.len() == combos(slot_seq(self.data), k as nat).len(),
            forall|i: int|
                0 <= i < r@.len() ==> (#[trigger] r@[i]).data == slots_mask(
                    combos(slot_seq(self.data), k as nat)[i],
                ) && r@[i]@ == combos(slot_seq(self.data), k as nat)[i].to_set(),
    {
        let items = self.slots();
        proof {
            lemma_members_from(self.data, 1);
            assert(strictly_increasing(items@));
            lemma_combos_sound(items@, k as nat);
        }
        let subsets = combinations_of(items, k);
        let ghost cs = subsets.deep_view();
        let mut r: Vec<SortedSlots> = Vec::new();
        let mut i: usize = 0;
        while i < subsets.len()
            invariant
                cs == subsets.deep_view(),
                cs == combos(slot_seq(self.data), k as nat),
                forall|x: int|
                    0 <= x < cs.len() ==> {
                        let c = #[trigger] cs[x];
                        &&& c.len() == k
                        &&& strictly_increasing(c)
                        &&& forall|j: int| 0 <= j < c.len() ==> slot_seq(self.data).contains(#[trigger] c[j])
                    },
                slot_seq(self.data).len() <= 13,
                forall|x: int|
                    0 <= x < slot_seq(self.data).len() ==> 1 <= #[trigger] slot_seq(self.data)[x] <= 13,
                forall|x: int, y: int|
                    0 <= x < y < slot_seq(self.data).len() ==> #[trigger] slot_seq(self.data)[x]
                        < #[trigger] slot_seq(self.data)[y],
                i <= subsets.len(),
                r@.len() == i,
                forall|x: int|
                    0 <= x < i ==> (#[trigger] r@[x]).data == slots_mask(cs[x]) && r@[x]@ == cs[x].to_set(),
            decreases subsets.len() - i,
        {
            let ghost c = cs[i as int];
            assert(subsets@[i as int]@ == c);
            proof {
                assert forall|j: int| 0 <= j < c.len() implies c[j] < 16 by {
                    let m = choose|m: int| 0 <= m < slot_seq(self.data).len() && slot_seq(self.data)[m] == c[j];
                }
                lemma_strict_len_bound(c, slot_seq(self.data));
            }
            let slots = SortedSlots::from_slots(subsets[i].as_slice());
            r.push(slots);
            i = i + 1;
        }
        r
    }
}

/// A strictly increasing sequence drawn from a strictly increasing sequence
/// is no longer than it.
proof fn lemma_strict_len_bound(c: Seq<u8>, s: Seq<u8>)
    requires
        strictly_increasing(c),
        strictly_increasing(s),
        forall|j: int| 0 <= j < c.len() ==> s.contains(#[trigger] c[j]),
    ensures
        c.len() <= s.len(),
    decreases s.len(),
{
    if c.len() > 0 {
        let last = c.last();
        assert(s.contains(c[c.len() - 1]));
        let m = choose|m: int| 0 <= m < s.len() && s[m] == last;
        let s2 = s.subrange(0, m);
        let c2 = c.drop_last();
        assert(strictly_increasing(s2));
        assert forall|j: int| 0 <= j < c2.len() implies s2.contains(#[trigger] c2[j]) by {
            assert(s.contains(c[j]));
            let q = choose|q: int| 0 <= q < s.len() && s[q] == c[j];
            assert(c[j] < last);
            if q >= m {
                if q > m {
                    assert(s[m] < s[q]);
                }
                assert(false);
            }
            assert(s2[q] == c2[j]);
        }
        lemma_strict_len_bound(c2, s2);
    }
}

impl GameState {
    /// How many cache reads and cache entries building every state below this
    /// one takes: for each subset of the open slots (by size, in
    /// lexicographic order), each relevant upper total and each Yahtzee-bonus
    /// value.
    pub fn counts(self) -> (r: GameStateCounts)
        ensures
            r.saves == saves_upto(slot_seq(self.sorted_open_slots.data), self.sorted_open_slots.len_spec() as int),
            r.lookups == lookups_upto(slot_seq(self.sorted_open_slots.data), self.sorted_open_slots.len_spec() as int),
    {
        let ghost s = slot_seq(self.sorted_open_slots.data);
        let mut lookups: u64 = 0;
        let mut saves: usize = 0;
        let n = self.sorted_open_slots.len();
        proof {
            lemma_members_from(self.sorted_open_slots.data, 1);
        }
        let mut subset_len: u8 = 1;
        while subset_len <= n
            invariant
                1 <= subset_len <= 17,
                n <= 16,
                n == self.sorted_open_slots.len_spec(),
                s == slot_seq(self.sorted_open_slots.data),
                s.len() <= 13,
                subset_len <= n + 1,
                saves == saves_upto(s, subset_len - 1),
                lookups == lookups_upto(s, subset_len - 1),
                saves <= (subset_len - 1) * 1048576,
                lookups <= saves * 856548,
            decreases 17 - subset_len,
        {
            let subsets = self.sorted_open_slots.slot_subsets(subset_len as usize);
            let ghost cs = combos(s, subset_len as nat);
            proof {
                lemma_combos_len(s, subset_len as nat);
                lemma_binom_bound(s.len(), subset_len as nat);
                if s.len() < 13 {
                    vstd::arithmetic::power2::lemma_pow2_strictly_increases(s.len(), 13);
                }
                assert(pow2(13) == 8192) by {
                    vstd::arithmetic::power2::lemma2_to64();
                }
            }
            let ghost base_saves = saves as int;
            let ghost base_lookups = lookups as int;
            let per: u64 = 848484 + (subset_len as u64 * if subset_len == 1 {
                1
            } else {
                2
            }) * 252;
            assert(per == lookups_per_state(subset_len as int));
            let mut i: usize = 0;
            while i < subsets.len()
                invariant
                    cs == combos(s, subset_len as nat),
                    subsets@.len() == cs.len(),
                    cs.len() <= 8192,
                    forall|x: int| 0 <= x < subsets@.len() ==> (#[trigger] subsets@[x]).data == slots_mask(cs[x]),
                    i <= subsets.len(),
                    1 <= subset_len <= 16,
                    per == lookups_per_state(subset_len as int),
                    per <= 856548,
                    saves == base_saves + saves_of(cs, i as int),
                    lookups == base_lookups + per * saves_of(cs, i as int),
                    base_saves <= (subset_len - 1) * 1048576,
                    base_lookups <= base_saves * 856548,
                    0 <= base_saves,
                    lookups <= saves * 856548,
                    saves_of(cs, i as int) <= 128 * i,
                decreases subsets.len() - i,
            {
                let slots = subsets[i];
                let joker_rules = !slots.has(YAHTZEE);
                let totals = slots.relevant_upper_totals();
                let bonus = bonus_options(joker_rules);
                proof {
                    lemma_listing_len(totals@, |t: u8| relevant_upper_total(slots.data, t as int));
                    lemma_relevant_count_bound(slots.data, 256);
                    lemma_saves_bound(cs, i as int);
                    assert(states_of(slots.data) == totals@.len() * bonus@.len());
                    assert(saves_of(cs, i + 1) == saves_of(cs, i as int) + states_of(slots.data));
                    assert(per * saves_of(cs, i + 1) == per * saves_of(cs, i as int) + per * states_of(slots.data)) by (nonlinear_arith)
                        requires
                            saves_of(cs, i + 1) == saves_of(cs, i as int) + states_of(slots.data),
                    ;
                    assert(per * states_of(slots.data) <= 856548 * 128) by (nonlinear_arith)
                        requires
                            per <= 856548,
                            0 <= states_of(slots.data) <= 128,
                    ;
                    assert(per * states_of(slots.data) <= 856548 * states_of(slots.data)) by (nonlinear_arith)
                        requires
                            per <= 856548,
                            0 <= states_of(slots.data),
                    ;
                    assert(per * saves_of(cs, i as int) <= 856548 * saves_of(cs, i as int)) by (nonlinear_arith)
                        requires
                            per <= 856548,
                            0 <= saves_of(cs, i as int),
                    ;
                }
                let states = totals.len() * bonus.len();
                saves = saves + states;
                lookups = lookups + per * (states as u64);
                i = i + 1;
            }
            proof {
                lemma_saves_bound(cs, cs.len() as int);
                assert(saves_upto(s, subset_len as int) == saves_upto(s, subset_len - 1) + saves_of(cs, cs.len() as int));
            }
            subset_len = subset_len + 1;
        }
        proof {
            if n < 16 {
                assert(subset_len == n + 1);
            }
        }
        GameStateCounts { lookups, saves }
    }
}

} // verus!
