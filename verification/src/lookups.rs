use vstd::prelude::*;
use crate::sorted_slots::{bit_set, best_upper_total_spec};
use crate::upper_totals::{used_upper_from, weighted_sum, reachable_total, relevant_upper_total};

verus! {

/// `x` capped at the bonus threshold 63.
pub open spec fn capped(x: int) -> int {
    if x > 63 {
        63
    } else {
        x
    }
}

/// Total of the upper slots `lo ..= 6`, slot `v` holding `f[v - 1]` dice of
/// its face.
pub open spec fn full_sum(f: Seq<usize>, lo: int) -> int
    decreases 7 - lo,
{
    if lo < 1 || lo > 6 {
        0
    } else {
        lo * f[lo - 1] + full_sum(f, lo + 1)
    }
}

/// `f` gives each upper slot `lo ..= 6` at most five dice, and none to the
/// slots that `data` still holds open.
pub open spec fn fits_from(data: u16, f: Seq<usize>, lo: int) -> bool {
    &&& f.len() == 6
    &&& forall|v: int| lo <= v <= 6 ==> #[trigger] f[v - 1] <= 5 && (bit_set(data, v) ==> f[v - 1] == 0)
}

proof fn lemma_weighted_sum_cons(a: u8, u: Seq<u8>, x: usize, ix: Seq<usize>)
    requires
        u.len() == ix.len(),
    ensures
        weighted_sum(seq![a] + u, seq![x] + ix) == a * x + weighted_sum(u, ix),
    decreases u.len(),
{
    let su = seq![a] + u;
    let sx = seq![x] + ix;
    if u.len() == 0 {
        assert(su.drop_last() =~= Seq::<u8>::empty());
        assert(sx.drop_last() =~= Seq::<usize>::empty());
        assert(su.last() == a && sx.last() == x);
        assert(weighted_sum(Seq::<u8>::empty(), Seq::<usize>::empty()) == 0);
        assert(weighted_sum(u, ix) == 0);
    } else {
        lemma_weighted_sum_cons(a, u.drop_last(), x, ix.drop_last());
        assert(su.drop_last() =~= seq![a] + u.drop_last());
        assert(sx.drop_last() =~= seq![x] + ix.drop_last());
        assert(su.last() == u.last() && sx.last() == ix.last());
        assert(weighted_sum(su, sx) == weighted_sum(su.drop_last(), sx.drop_last()) + su.last() * sx.last());
    }
}

proof fn lemma_full_sum_update(f: Seq<usize>, lo: int, k: int, x: usize)
    requires
        f.len() == 6,
        0 <= k < 6,
        1 <= lo <= 7,
    ensures
        full_sum(f.update(k, x), lo) == full_sum(f, lo) + if lo <= k + 1 {
            (k + 1) * (x - f[k])
        } else {
            0
        },
    decreases 7 - lo,
{
    if lo <= 6 {
        lemma_full_sum_update(f, lo + 1, k, x);
        if lo == k + 1 {
            assert(lo * x - lo * f[k] == lo * (x - f[k])) by (nonlinear_arith);
        }
    }
}

proof fn lemma_full_sum_zero(lo: int)
    requires
        1 <= lo <= 7,
    ensures
        full_sum(Seq::new(6, |i: int| 0usize), lo) == 0,
    decreases 7 - lo,
{
    if lo <= 6 {
        lemma_full_sum_zero(lo + 1);
        let z = Seq::new(6, |i: int| 0usize);
        assert(z[lo - 1] == 0);
    }
}

/// Counts for the used upper slots from `lo` on, spread over all six upper
/// slots.
proof fn lemma_to_full(data: u16, lo: int, ix: Seq<usize>) -> (f: Seq<usize>)
    requires
        1 <= lo <= 7,
        ix.len() == used_upper_from(data, lo).len(),
        forall|j: int| 0 <= j < ix.len() ==> ix[j] <= 5,
    ensures
        fits_from(data, f, lo),
        full_sum(f, lo) == weighted_sum(used_upper_from(data, lo), ix),
    decreases 7 - lo,
{
    if lo == 7 {
        let z = Seq::new(6, |i: int| 0usize);
        assert(used_upper_from(data, 7).len() == 0);
        assert(weighted_sum(used_upper_from(data, 7), ix) == 0);
        z
    } else {
        let rest = used_upper_from(data, lo + 1);
        if !bit_set(data, lo) {
            let x = ix[0];
            let tail = ix.drop_first();
            let g = lemma_to_full(data, lo + 1, tail);
            let f = g.update(lo - 1, x);
            lemma_full_sum_update(g, lo + 1, lo - 1, x);
            assert(ix =~= seq![x] + tail);
            lemma_weighted_sum_cons(lo as u8, rest, x, tail);
            assert(used_upper_from(data, lo) == seq![lo as u8] + rest);
            assert forall|v: int| lo <= v <= 6 implies #[trigger] f[v - 1] <= 5 && (bit_set(data, v) ==> f[v - 1]
                == 0) by {
                if v > lo {
                    assert(g[v - 1] <= 5);
                }
            }
            assert(full_sum(f, lo) == lo * x + full_sum(g, lo + 1));
            f
        } else {
            let g = lemma_to_full(data, lo + 1, ix);
            let f = g.update(lo - 1, 0usize);
            lemma_full_sum_update(g, lo + 1, lo - 1, 0usize);
            assert(used_upper_from(data, lo) == rest);
            assert(full_sum(f, lo) == lo * 0 + full_sum(g, lo + 1));
            assert forall|v: int| lo <= v <= 6 implies #[trigger] f[v - 1] <= 5 && (bit_set(data, v) ==> f[v - 1]
                == 0) by {
                if v > lo {
                    assert(g[v - 1] <= 5);
                }
            }
            f
        }
    }
}

/// Counts over all six upper slots, given back as counts for the used upper
/// slots from `lo` on.
proof fn lemma_from_full(data: u16, lo: int, f: Seq<usize>) -> (ix: Seq<usize>)
    requires
        1 <= lo <= 7,
        fits_from(data, f, lo),
    ensures
        ix.len() == used_upper_from(data, lo).len(),
        forall|j: int| 0 <= j < ix.len() ==> ix[j] <= 5,
        weighted_sum(used_upper_from(data, lo), ix) == full_sum(f, lo),
    decreases 7 - lo,
{
    if lo == 7 {
        Seq::empty()
    } else {
        let rest = used_upper_from(data, lo + 1);
        let tail = lemma_from_full(data, lo + 1, f);
        assert(f[lo - 1] <= 5);
        if !bit_set(data, lo) {
            let x = f[lo - 1];
            lemma_weighted_sum_cons(lo as u8, rest, x, tail);
            let ix = seq![x] + tail;
            assert forall|j: int| 0 <= j < ix.len() implies ix[j] <= 5 by {
                if j > 0 {
                    assert(ix[j] == tail[j - 1]);
                }
            }
            ix
        } else {
            tail
        }
    }
}

proof fn lemma_single_bit(h: u16, v: u16)
    by (bit_vector)
    requires
        h < 16,
        v < 16,
    ensures
        ((1u16 << h) >> v) & 1u16 == 1u16 <==> v == h,
{
}

proof fn lemma_cleared_bit(d: u16, h: u16, v: u16)
    by (bit_vector)
    requires
        h < 16,
        v < 16,
    ensures
        ((d & !(1u16 << h)) >> v) & 1u16 == 1u16 <==> (v != h && (d >> v) & 1u16 == 1u16),
{
}

/// Counts over all six upper slots that fit `data` and give the upper total
/// `t`, for a total that `data` can hold.
proof fn lemma_total_counts(data: u16, t: int) -> (f: Seq<usize>)
    requires
        t == 0 || reachable_total(used_upper_from(data, 1), t),
    ensures
        fits_from(data, f, 1),
        t == capped(full_sum(f, 1)),
{
    if t == 0 {
        let z = Seq::new(6, |i: int| 0usize);
        lemma_full_sum_zero(1);
        z
    } else {
        let used = used_upper_from(data, 1);
        let ix = choose|ix: Seq<usize>|
            ix.len() == used.len() && (forall|j: int| 0 <= j < ix.len() ==> ix[j] <= 5) && t == {
                let w = #[trigger] weighted_sum(used, ix);
                if w > 63 {
                    63
                } else {
                    w
                }
            };
        lemma_to_full(data, 1, ix)
    }
}

/// A total given by counts that fit `data` is one that `data` can hold.
proof fn lemma_counts_reachable(data: u16, f: Seq<usize>)
    requires
        fits_from(data, f, 1),
    ensures
        reachable_total(used_upper_from(data, 1), capped(full_sum(f, 1))),
{
    let ix = lemma_from_full(data, 1, f);
    let used = used_upper_from(data, 1);
    assert(ix.len() == used.len() && (forall|j: int| 0 <= j < ix.len() ==> ix[j] <= 5) && capped(full_sum(f, 1)) == {
        let w = weighted_sum(used, ix);
        if w > 63 {
            63
        } else {
            w
        }
    });
}

/// A dice-selection lookup keeps the upper total of the state it is made
/// for: a relevant upper total of a slot set is never mapped to 0.
pub proof fn lemma_lookup_keeps_relevant_total(data: u16, t: int)
    requires
        relevant_upper_total(data, t),
    ensures
        (if best_upper_total_spec(data) + t >= 63 {
            t
        } else {
            0
        }) == t,
{
}

/// The head lookup of a slot choice finds a state the solver built: for an
/// open slot `h` of a slot set and an upper total relevant to the set, the
/// upper total that the lookup for the single slot `h` uses is relevant to
/// that single slot.
pub proof fn lemma_head_lookup_built(data: u16, h: u8, t: int)
    requires
        relevant_upper_total(data, t),
        1 <= h <= 13,
        bit_set(data, h as int),
    ensures
        relevant_upper_total(
            1u16 << (h as u16),
            if best_upper_total_spec(1u16 << (h as u16)) + t >= 63 {
                t
            } else {
                0
            },
        ),
{
    let hd = 1u16 << (h as u16);
    if best_upper_total_spec(hd) + t >= 63 && t != 0 {
        let f = lemma_total_counts(data, t);
        assert forall|v: int| 1 <= v <= 6 implies #[trigger] f[v - 1] <= 5 && (bit_set(hd, v) ==> f[v - 1] == 0) by {
            lemma_single_bit(h as u16, v as u16);
            if bit_set(hd, v) {
                assert(v == h);
            }
        }
        lemma_counts_reachable(hd, f);
    }
}

/// The tail lookup of a slot choice finds a state the solver built: after
/// scoring `points` in the open slot `h` (for an upper slot, `c` dice of its
/// face, with the 35-point bonus when that crosses 63, and any 100-point
/// Yahtzee bonus), the upper total that the lookup for the remaining slots
/// uses is relevant to them.
pub proof fn lemma_tail_lookup_built(data: u16, h: u8, t: u8, c: int, points: u8)
    requires
        relevant_upper_total(data, t as int),
        1 <= h <= 13,
        bit_set(data, h as int),
        0 <= c <= 5,
        h <= 6 ==> (points % 100 == h * c || (points % 100 == h * c + 35 && t + h * c >= 63)),
    ensures
        ({
            let td = data & !(1u16 << (h as u16));
            let t2 = if h <= 6 {
                if t + points % 100 < 63 {
                    t + points % 100
                } else {
                    63
                }
            } else {
                t as int
            };
            relevant_upper_total(td, if best_upper_total_spec(td) + t2 >= 63 {
                t2
            } else {
                0
            })
        }),
{
    let td = data & !(1u16 << (h as u16));
    let t2 = if h <= 6 {
        if t + points % 100 < 63 {
            t + points % 100
        } else {
            63
        }
    } else {
        t as int
    };
    if best_upper_total_spec(td) + t2 >= 63 && t2 != 0 {
        let f = lemma_total_counts(data, t as int);
        assert forall|v: int| 1 <= v <= 6 && bit_set(td, v) implies bit_set(data, v) && v != h by {
            lemma_cleared_bit(data, h as u16, v as u16);
        }
        if h > 6 {
            assert forall|v: int| 1 <= v <= 6 implies #[trigger] f[v - 1] <= 5 && (bit_set(td, v) ==> f[v - 1] == 0) by {
            }
            lemma_counts_reachable(td, f);
        } else {
            let k = h - 1;
            assert(f[k as int] == 0) by {
                assert(f[h - 1] <= 5 && (bit_set(data, h as int) ==> f[h - 1] == 0));
            }
            let f2 = f.update(k as int, c as usize);
            lemma_full_sum_update(f, 1, k as int, c as usize);
            let w = full_sum(f, 1);
            assert(full_sum(f2, 1) == w + h * c);
            assert forall|v: int| 1 <= v <= 6 implies #[trigger] f2[v - 1] <= 5 && (bit_set(td, v) ==> f2[v - 1] == 0) by {
                lemma_cleared_bit(data, h as u16, v as u16);
                if v != h {
                    assert(f2[v - 1] == f[v - 1]);
                    assert(f[v - 1] <= 5 && (bit_set(data, v) ==> f[v - 1] == 0));
                }
            }
            lemma_counts_reachable(td, f2);
            assert(capped(full_sum(f2, 1)) == t2);
        }
    }
}

/// The bonus flags of the head and tail lookups are among the flags the
/// solver tracks for those slots: with the bonus available the Yahtzee slot
/// is taken, so the head slot is not it; and when the head scores a Yahtzee
/// or the bonus was available, the remaining slots do not hold the Yahtzee
/// slot.
pub proof fn lemma_bonus_lookups_built(data: u16, h: u8, bonus: bool, scored: bool)
    requires
        1 <= h <= 13,
        bit_set(data, h as int),
        bonus ==> !bit_set(data, 12),
    ensures
        bonus ==> h != 12,
        ((h == 12 && scored) || bonus) ==> !bit_set(data & !(1u16 << (h as u16)), 12),
{
    lemma_cleared_bit(data, h as u16, 12);
}

} // verus!
