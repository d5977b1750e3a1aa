use vstd::prelude::*;
use rustc_hash::FxHashSet;
use crate::enumeration::index_tuples;
use crate::sorted_slots::{SortedSlots, bit_set, best_upper_total_spec, SIXES};

verus! {

#[verifier::external_type_specification]
#[verifier::external_body]
#[verifier::reject_recursive_types(H)]
pub struct ExBuildHasherDefault<H>(std::hash::BuildHasherDefault<H>);

#[verifier::external_type_specification]
#[verifier::external_body]
pub struct ExFxHasher(rustc_hash::FxHasher);

/// Calls `Default::default` for an `FxHashSet<u8>` (a std `HashSet` with
/// rustc_hash's `FxHasher`). Claimed: the set is empty.
#[verifier::external_body]
fn empty_total_set() -> (s: FxHashSet<u8>)
    ensures
        s@ == Set::<u8>::empty(),
{
    FxHashSet::default()
}

/// Calls `HashSet::insert` on an `FxHashSet<u8>`. Claimed: `v` is added and
/// nothing else changes.
#[verifier::external_body]
fn total_set_insert(s: &mut FxHashSet<u8>, v: u8)
    ensures
        final(s)@ == old(s)@.insert(v),
{
    s.insert(v);
}

/// Calls `IntoIterator::into_iter` on an `FxHashSet<u8>` and collects the
/// elements. Claimed: each element of the set once. Their order is the
/// set's iteration order, which the hasher decides; no clause states it.
#[verifier::external_body]
fn total_set_elements(s: FxHashSet<u8>) -> (r: Vec<u8>)
    ensures
        r@.to_set() == s@,
        r@.no_duplicates(),
{
    s.into_iter().collect()
}

/// The upper slots `lo ..= 6` that `data` does not hold, increasing: the
/// upper slots already used.
pub open spec fn used_upper_from(data: u16, lo: int) -> Seq<u8>
    decreases 7 - lo,
{
    if lo > 6 || lo < 1 {
        Seq::empty()
    } else if !bit_set(data, lo) {
        seq![lo as u8] + used_upper_from(data, lo + 1)
    } else {
        used_upper_from(data, lo + 1)
    }
}

/// Total of the upper slots `used`, slot `used[j]` holding `ix[j]` dice of
/// its face.
pub open spec fn weighted_sum(used: Seq<u8>, ix: Seq<usize>) -> int
    decreases used.len(),
{
    if used.len() == 0 || ix.len() == 0 {
        0
    } else {
        weighted_sum(used.drop_last(), ix.drop_last()) + used.last() * ix.last()
    }
}

/// `t` is an upper total (capped at 63) that the used upper slots can hold.
pub open spec fn reachable_total(used: Seq<u8>, t: int) -> bool {
    exists|ix: Seq<usize>|
        ix.len() == used.len() && (forall|j: int| 0 <= j < ix.len() ==> ix[j] <= 5) && t == {
            let w = #[trigger] weighted_sum(used, ix);
            if w > 63 {
                63
            } else {
                w
            }
        }
}

/// The relevant upper totals of a slot set: 0, and every total the used
/// upper slots can hold from which the open upper slots can still reach 63.
pub open spec fn relevant_upper_total(data: u16, t: int) -> bool {
    t == 0 || (best_upper_total_spec(data) + t >= 63 && reachable_total(
        used_upper_from(data, 1),
        t,
    ))
}

proof fn lemma_used_upper_from(data: u16, lo: int)
    requires
        1 <= lo <= 7,
    ensures
        used_upper_from(data, lo).len() <= 7 - lo,
        forall|i: int|
            0 <= i < used_upper_from(data, lo).len() ==> lo <= #[trigger] used_upper_from(data, lo)[i]
                <= 6,
    decreases 7 - lo,
{
    if lo <= 6 {
        lemma_used_upper_from(data, lo + 1);
        let rest = used_upper_from(data, lo + 1);
        if !bit_set(data, lo) {
            let s = seq![lo as u8] + rest;
            assert forall|i: int| 0 <= i < s.len() implies lo <= #[trigger] s[i] <= 6 by {
                if i > 0 {
                    assert(s[i] == rest[i - 1]);
                }
            }
        }
    }
}

proof fn lemma_weighted_sum_push(used: Seq<u8>, ix: Seq<usize>, j: int)
    requires
        used.len() == ix.len(),
        0 <= j < used.len(),
    ensures
        weighted_sum(used.subrange(0, j + 1), ix.subrange(0, j + 1)) == weighted_sum(
            used.subrange(0, j),
            ix.subrange(0, j),
        ) + used[j] * ix[j],
{
    assert(used.subrange(0, j + 1).drop_last() =~= used.subrange(0, j));
    assert(ix.subrange(0, j + 1).drop_last() =~= ix.subrange(0, j));
}

impl SortedSlots {
    /// The upper slots not held, in increasing order.
    fn used_upper_slots(self) -> (r: Vec<u8>)
        ensures
            r@ == used_upper_from(self.data, 1),
    {
        let used = self.previously_used_upper_slots();
        let mut r: Vec<u8> = Vec::new();
        let mut x: u8 = 1;
        while x <= SIXES
            invariant
                1 <= x <= 7,
                used@ == Set::new(|v: u8| v < 7 && !self@.contains(v)),
                r@ + used_upper_from(self.data, x as int) == used_upper_from(self.data, 1),
            decreases 7 - x,
        {
            if used.has(x) {
                assert(used@.contains(x));
                assert(!bit_set(self.data, x as int));
                assert(r@ + used_upper_from(self.data, x as int) =~= r@.push(x) + used_upper_from(
                    self.data,
                    x + 1,
                ));
                r.push(x);
            } else {
                assert(bit_set(self.data, x as int));
            }
            x = x + 1;
        }
        assert(r@ =~= r@ + used_upper_from(self.data, 7));
        r
    }

    /// The distinct upper totals worth tracking for this set of open slots:
    /// 0, and each total the used upper slots could hold (capped at 63) from
    /// which the open upper slots can still reach the bonus threshold 63.
    pub fn relevant_upper_totals(self) -> (r: Vec<u8>)
        ensures
            r@.no_duplicates(),
            forall|t: u8| #[trigger] r@.contains(t) <==> relevant_upper_total(self.data, t as int),
            forall|i: int| 0 <= i < r@.len() ==> #[trigger] r@[i] <= 63,
    {
        let mut totals = empty_total_set();
        let used_slot_idxs = self.used_upper_slots();
        let ghost used = used_slot_idxs@;
        proof {
            lemma_used_upper_from(self.data, 1);
        }
        let used_score_idx_perms = index_tuples(used_slot_idxs.len(), 5);
        let ghost tuples = used_score_idx_perms.deep_view();
        let mut i: usize = 0;
        while i < used_score_idx_perms.len()
            invariant
                used == used_slot_idxs@,
                used.len() <= 6,
                forall|j: int| 0 <= j < used.len() ==> 1 <= #[trigger] used[j] <= 6,
                tuples == used_score_idx_perms.deep_view(),
                forall|k: int|
                    0 <= k < tuples.len() ==> (#[trigger] tuples[k]).len() == used.len() && forall|
                        j: int,
                    | 0 <= j < used.len() ==> tuples[k][j] <= 5,
                i <= tuples.len(),
                forall|t: u8|
                    #[trigger] totals@.contains(t) <==> exists|k: int|
                        0 <= k < i && t == {
                            let w = weighted_sum(used, #[trigger] tuples[k]);
                            if w > 63 {
                                63
                            } else {
                                w
                            }
                        },
            decreases tuples.len() - i,
        {
            let used_score_idxs = &used_score_idx_perms[i];
            let ghost ix = tuples[i as int];
            assert(used_score_idxs@ == ix);
            let mut tot: u8 = 0;
            let mut j: usize = 0;
            while j < used_slot_idxs.len()
                invariant
                    used == used_slot_idxs@,
                    used.len() <= 6,
                    forall|jj: int| 0 <= jj < used.len() ==> 1 <= #[trigger] used[jj] <= 6,
                    ix == used_score_idxs@,
                    ix.len() == used.len(),
                    forall|jj: int| 0 <= jj < used.len() ==> ix[jj] <= 5,
                    j <= used.len(),
                    tot == weighted_sum(used.subrange(0, j as int), ix.subrange(0, j as int)),
                    tot <= 30 * j,
                decreases used.len() - j,
            {
                proof {
                    lemma_weighted_sum_push(used, ix, j as int);
                    assert(used[j as int] * ix[j as int] <= 30) by (nonlinear_arith)
                        requires
                            used[j as int] <= 6,
                            ix[j as int] <= 5,
                    ;
                }
                tot = tot + used_slot_idxs[j] * (used_score_idxs[j] as u8);
                j = j + 1;
            }
            assert(used.subrange(0, j as int) =~= used);
            assert(ix.subrange(0, j as int) =~= ix);
            let capped = if tot < 63 {
                tot
            } else {
                63
            };
            let ghost before = totals@;
            total_set_insert(&mut totals, capped);
            proof {
                assert forall|t: u8| #[trigger] totals@.contains(t) <==> exists|k: int|
                    0 <= k < i + 1 && t == {
                        let w = weighted_sum(used, #[trigger] tuples[k]);
                        if w > 63 {
                            63
                        } else {
                            w
                        }
                    } by {
                    if t == capped {
                        assert(weighted_sum(used, tuples[i as int]) == tot);
                    }
                    if before.contains(t) {
                        let k = choose|k: int|
                            0 <= k < i && t == {
                                let w = weighted_sum(used, #[trigger] tuples[k]);
                                if w > 63 {
                                    63
                                } else {
                                    w
                                }
                            };
                        assert(0 <= k < i + 1);
                    }
                }
            }
            i = i + 1;
        }
        let ghost pre = totals@;
        total_set_insert(&mut totals, 0);
        let ghost all = totals@;
        proof {
            assert forall|t: u8| #[trigger] all.contains(t) implies t <= 63 by {
                if t != 0 {
                    assert(pre.contains(t));
                }
            }
        }
        let best_current_slot_total = self.best_upper_total();
        let elements = total_set_elements(totals);
        let mut r: Vec<u8> = Vec::new();
        let mut k: usize = 0;
        while k < elements.len()
            invariant
                elements@.to_set() == all,
                elements@.no_duplicates(),
                k <= elements.len(),
                best_current_slot_total == best_upper_total_spec(self.data),
                best_current_slot_total <= 105,
                r@.no_duplicates(),
                forall|t: u8|
                    #[trigger] r@.contains(t) <==> (elements@.subrange(0, k as int).contains(t) && (t
                        == 0 || t + best_current_slot_total >= 63)),
                forall|t: u8| #[trigger] all.contains(t) ==> t <= 63,
            decreases elements.len() - k,
        {
            let used_slots_total = elements[k];
            proof {
                assert(all.contains(used_slots_total));
            }
            let ghost prev = r@;
            if used_slots_total == 0 || used_slots_total + best_current_slot_total >= 63 {
                proof {
                    if prev.contains(used_slots_total) {
                        let m = choose|m: int| 0 <= m < k && elements@[m] == used_slots_total;
                        assert(elements@.subrange(0, k as int)[m] == used_slots_total);
                    }
                }
                r.push(used_slots_total);
            }
            proof {
                assert(elements@.subrange(0, k + 1) =~= elements@.subrange(0, k as int).push(
                    used_slots_total,
                ));
                assert forall|t: u8| #[trigger] r@.contains(t) <==> (elements@.subrange(
                    0,
                    k + 1,
                ).contains(t) && (t == 0 || t + best_current_slot_total >= 63)) by {
                    if r@.contains(t) && !prev.contains(t) {
                        assert(t == used_slots_total);
                        assert(elements@.subrange(0, k + 1)[k as int] == t);
                    }
                    if prev.contains(t) {
                        let m = choose|m: int| 0 <= m < prev.len() && prev[m] == t;
                        assert(r@[m] == t);
                    }
                    if elements@.subrange(0, k + 1).contains(t) && (t == 0 || t
                        + best_current_slot_total >= 63) {
                        let m = choose|m: int|
                            0 <= m < k + 1 && #[trigger] elements@.subrange(0, k + 1)[m] == t;
                        if m < k {
                            assert(elements@.subrange(0, k as int)[m] == t);
                        } else {
                            assert(r@[r@.len() - 1] == t);
                        }
                    }
                }
            }
            k = k + 1;
        }
        proof {
            assert(elements@.subrange(0, k as int) =~= elements@);
            assert forall|t: u8| #[trigger] r@.contains(t) <==> relevant_upper_total(
                self.data,
                t as int,
            ) by {
                if t != 0 && reachable_total(used, t as int) {
                    let ix = choose|ix: Seq<usize>|
                        ix.len() == used.len() && (forall|j: int| 0 <= j < ix.len() ==> ix[j] <= 5)
                            && t == {
                            let w = #[trigger] weighted_sum(used, ix);
                            if w > 63 {
                                63
                            } else {
                                w
                            }
                        };
                    if used.len() == 0 {
                        assert(weighted_sum(used, ix) == 0);
                    } else {
                        assert(tuples.contains(ix));
                        let kk = choose|kk: int| 0 <= kk < tuples.len() && tuples[kk] == ix;
                        assert(all.contains(t));
                    }
                }
                if all.contains(t) && t != 0 {
                    assert(pre.contains(t));
                    assert(exists|kk: int|
                        0 <= kk < tuples.len() && t == {
                            let w = weighted_sum(used, #[trigger] tuples[kk]);
                            if w > 63 {
                                63
                            } else {
                                w
                            }
                        });
                    let kk = choose|kk: int|
                        0 <= kk < tuples.len() && t == {
                            let w = weighted_sum(used, #[trigger] tuples[kk]);
                            if w > 63 {
                                63
                            } else {
                                w
                            }
                        };
                    assert(reachable_total(used, t as int)) by {
                        let ix = tuples[kk];
                        assert(ix.len() == used.len());
                    }
                }
                if r@.contains(t) {
                    assert(elements@.contains(t));
                    assert(elements@.to_set().contains(t));
                    assert(all.contains(t));
                }
                if relevant_upper_total(self.data, t as int) {
                    assert(all.contains(t));
                    assert(elements@.to_set().contains(t));
                    assert(elements@.contains(t));
                }
            }
            assert forall|i: int| 0 <= i < r@.len() implies #[trigger] r@[i] <= 63 by {
                assert(r@.contains(r@[i]));
                assert(elements@.contains(r@[i]));
            }
        }
        r
    }
}

} // verus!
