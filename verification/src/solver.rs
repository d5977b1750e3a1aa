use vstd::prelude::*;
use crate::dievals::{DieVals, DieValsID, lemma_view_small, pack_spec, lemma_pack_view, lemma_pack_bound};
use crate::game_state::GameState;
use crate::score::{Score, yahtzee_spec};
use crate::sorted_slots::{SortedSlots, Slot, bit_set, best_upper_total_spec, SIXES, YAHTZEE};
use crate::tables::{
    Tables, Outcome, outcome_matches, idx_for_selection_spec, index_combos_spec, range_start,
};
use crate::selections::selected_positions;

verus! {

/// The Yahtzee-bonus values worth tracking: `false`, and `true` as well when
/// the joker rules are in play (the distinct values of
/// `[false, joker_rules_in_play]`, first occurrences first).
pub fn bonus_options(joker_rules_in_play: bool) -> (r: Vec<bool>)
    ensures
        r@ == if joker_rules_in_play {
            seq![false, true]
        } else {
            seq![false]
        },
{
    let mut r: Vec<bool> = Vec::new();
    r.push(false);
    if joker_rules_in_play {
        r.push(true);
    }
    r
}

/// The selection bitfields to try with `rolls_remaining` rolls left, as an
/// inclusive range: only "roll all five" before the first roll, every
/// selection otherwise.
pub fn selections_for(rolls_remaining: u8) -> (r: (u8, u8))
    ensures
        r == if rolls_remaining == 3 {
            (31u8, 31u8)
        } else {
            (0u8, 31u8)
        },
{
    if rolls_remaining == 3 {
        (0b11111, 0b11111)
    } else {
        (0b00000, 0b11111)
    }
}

/// Under the joker rules an extra Yahtzee must go in its matching upper slot
/// when that slot is open; the slot to score first, and whether the choice
/// was forced.
pub fn joker_head_slot(dievals: DieVals, slots: SortedSlots, slot: Slot, joker_rules_in_play: bool) -> (r: (Slot, bool))
    ensures
        r.1 == (joker_rules_in_play && yahtzee_spec(dievals@) > 0 && bit_set(slots.data, dievals@[0] as int)),
        r.0 == if r.1 {
            dievals@[0]
        } else {
            slot
        },
{
    let first_dieval = dievals.get(0);
    let joker_rules_matter = joker_rules_in_play && Score::yahtzee(dievals) > 0 && slots.has(
        first_dieval,
    );
    let head_slot = if joker_rules_matter {
        first_dieval
    } else {
        slot
    };
    (head_slot, joker_rules_matter)
}

/// The state to look up for one part of a slot choice: the given dice, rolls
/// and slots, the upper total kept only when the slots' upper section can
/// still reach the bonus, and the given bonus flag.
pub fn lookup_state(
    sorted_dievals: DieValsID,
    rolls_remaining: u8,
    slots: SortedSlots,
    upper_total: u8,
    yahtzee_bonus_avail: bool,
) -> (r: GameState)
    requires
        best_upper_total_spec(slots.data) + upper_total <= 255,
    ensures
        r.sorted_dievals == sorted_dievals,
        r.rolls_remaining == rolls_remaining,
        r.sorted_open_slots == slots,
        r.yahtzee_bonus_avail == yahtzee_bonus_avail,
        r.upper_total == if best_upper_total_spec(slots.data) + upper_total >= 63 {
            upper_total
        } else {
            0
        },
{
    GameState {
        rolls_remaining,
        sorted_dievals,
        sorted_open_slots: slots,
        upper_total: slots.relevant_total(upper_total),
        yahtzee_bonus_avail,
    }
}

/// The upper total after scoring `points` in slot `choice`: an upper slot
/// adds its points (without any Yahtzee bonus, hence modulo 100), capped at
/// 63; other slots leave it.
pub fn upper_total_after(choice: Slot, points: u8, upper_total: u8) -> (r: u8)
    requires
        choice <= SIXES ==> upper_total + points % 100 <= 255,
    ensures
        r == if choice <= 6 {
            if upper_total + points % 100 < 63 {
                upper_total + points % 100
            } else {
                63
            }
        } else {
            upper_total as int
        },
{
    if choice <= SIXES {
        let added = points % 100;
        let sum = upper_total + added;
        if sum < 63 {
            sum
        } else {
            63
        }
    } else {
        upper_total
    }
}

/// The bonus flag after scoring in slot `choice`: a nonzero Yahtzee score
/// makes further Yahtzees earn the bonus.
pub fn bonus_after(choice: Slot, scored: bool, yahtzee_bonus_avail: bool) -> (r: bool)
    ensures
        r == ((choice == 12 && scored) || yahtzee_bonus_avail),
{
    if choice <= SIXES {
        yahtzee_bonus_avail
    } else if choice == YAHTZEE && scored {
        true
    } else {
        yahtzee_bonus_avail
    }
}

/// The dice after a roll: the outcome's values replace the rolled dice, the
/// mask keeps the others.
pub fn rolled_dice(current: DieVals, outcome: &Outcome) -> (r: DieVals)
    ensures
        r.data == (current.data & outcome.mask.data) | outcome.dievals.data,
        forall|j: int|
            0 <= j < 5 ==> #[trigger] r@[j] == (current@[j] & outcome.mask@[j]) | outcome.dievals@[j],
{
    let mut newvals = current;
    newvals.blit(outcome.dievals, outcome.mask);
    newvals
}

/// Rolling the dice of a selection replaces exactly the selected dice: with
/// an outcome that puts values `v` at positions `c`, every selected die
/// shows its new value and every other die keeps its value.
pub proof fn lemma_roll_replaces_selected(current: DieVals, o: Outcome, c: Seq<u8>, v: Seq<u8>)
    requires
        outcome_matches(o, c, v),
        forall|j: int| 0 <= j < c.len() ==> c[j] < 5,
        forall|j: int| 0 <= j < v.len() ==> v[j] < 8,
    ensures
        forall|j: int| 0 <= j < c.len() ==> ((current@[c[j] as int] & o.mask@[c[j] as int]) | o.dievals@[c[j] as int]) == v[j],
        forall|p: int| 0 <= p < 5 && !c.contains(p as u8) ==> ((current@[p] & o.mask@[p]) | o.dievals@[p]) == current@[p],
{
    lemma_view_small(current);
    assert forall|j: int| 0 <= j < c.len() implies ((current@[c[j] as int] & o.mask@[c[j] as int]) | o.dievals@[c[j] as int]) == v[j] by {
        let a = current@[c[j] as int];
        let b = v[j];
        assert((a & 0u8) | b == b) by (bit_vector);
    }
    assert forall|p: int| 0 <= p < 5 && !c.contains(p as u8) implies ((current@[p] & o.mask@[p]) | o.dievals@[p]) == current@[p] by {
        let a = current@[p];
        assert(a < 8 ==> (a & 7u8) | 0u8 == a) by (bit_vector);
    }
}

/// The state reached by a roll: the rolled dice (by their id), the same
/// slots and bonus flag, one roll fewer, and the upper total kept only when
/// the slots can still reach the bonus.
pub fn state_after_roll(
    tables: &Tables,
    current: DieVals,
    outcome: &Outcome,
    slots: SortedSlots,
    upper_total: u8,
    yahtzee_bonus_avail: bool,
    next_roll: u8,
) -> (r: GameState)
    requires
        tables.wf(),
        (current.data & outcome.mask.data) | outcome.dievals.data < 28087,
        best_upper_total_spec(slots.data) + upper_total <= 255,
    ensures
        r.sorted_dievals == tables.dievals_id_for_dievals@[((current.data & outcome.mask.data)
            | outcome.dievals.data) as int],
        r.rolls_remaining == next_roll,
        r.sorted_open_slots == slots,
        r.yahtzee_bonus_avail == yahtzee_bonus_avail,
        r.upper_total == if best_upper_total_spec(slots.data) + upper_total >= 63 {
            upper_total
        } else {
            0
        },
{
    let newvals = rolled_dice(current, outcome);
    let id = tables.id_for_dievals(newvals);
    lookup_state(id, next_roll, slots, upper_total, yahtzee_bonus_avail)
}

/// The outcomes a selection bitfield rolls, as the outcome table holds them.
pub open spec fn selection_outcomes(t: &Tables, selection: int) -> Seq<Outcome> {
    t.outcomes@.subrange(
        range_start(index_combos_spec(), idx_for_selection_spec(selection)),
        range_start(index_combos_spec(), idx_for_selection_spec(selection) + 1),
    )
}

/// The state reached from dice `current` by the roll `o`: the rolled dice by
/// their id, the given rolls left, the same slots and bonus flag, and the
/// upper total kept only when the slots can still reach the bonus.
pub open spec fn roll_state_spec(
    t: &Tables,
    current: DieVals,
    o: Outcome,
    slots: SortedSlots,
    upper_total: u8,
    bonus: bool,
    next_roll: u8,
) -> GameState {
    GameState {
        sorted_dievals: t.dievals_id_for_dievals@[((current.data & o.mask.data) | o.dievals.data) as int],
        rolls_remaining: next_roll,
        sorted_open_slots: slots,
        upper_total: if best_upper_total_spec(slots.data) + upper_total >= 63 {
            upper_total
        } else {
            0
        },
        yahtzee_bonus_avail: bonus,
    }
}

/// Dice showing 0 to 6, rolled with an outcome that either rolls a die to a
/// face or keeps it, show 0 to 6 again and pack within the id table.
proof fn lemma_roll_in_range(current: DieVals, o: Outcome, r: DieVals)
    requires
        current.data == pack_spec(current@),
        forall|i: int| 0 <= i < 5 ==> #[trigger] current@[i] <= 6,
        o.dievals.data == pack_spec(o.dievals@),
        o.mask.data == pack_spec(o.mask@),
        forall|p: int|
            0 <= p < 5 ==> (o.mask@[p] == 0 && 1 <= #[trigger] o.dievals@[p] <= 6) || (o.mask@[p] == 7
                && o.dievals@[p] == 0),
        r.data == (current.data & o.mask.data) | o.dievals.data,
        forall|j: int| 0 <= j < 5 ==> #[trigger] r@[j] == (current@[j] & o.mask@[j]) | o.dievals@[j],
    ensures
        r.data < 28087,
{
    lemma_pack_bound(current@);
    lemma_pack_bound(o.dievals@);
    let m = o.mask@;
    let (m0, m1, m2, m3, m4) = (m[0] as u16, m[1] as u16, m[2] as u16, m[3] as u16, m[4] as u16);
    assert(m0 < 8 && m1 < 8 && m2 < 8 && m3 < 8 && m4 < 8 ==> (m4 << 12u16 | m3 << 9u16 | m2 << 6u16 | m1
        << 3u16 | m0) < 32768) by (bit_vector);
    assert(o.mask.data < 32768);
    let (a, b, c) = (current.data, o.mask.data, o.dievals.data);
    assert(a < 32768 && c < 32768 ==> (a & b) | c < 32768) by (bit_vector);
    lemma_pack_view(r);
    assert forall|j: int| 0 <= j < 5 implies #[trigger] r@[j] <= 6 by {
        let x = current@[j];
        let y = o.dievals@[j];
        if o.mask@[j] == 0 {
            assert((x & 0u8) | y == y) by (bit_vector);
        } else {
            assert(x <= 6 ==> (x & 7u8) | 0u8 == x) by (bit_vector);
        }
    }
    lemma_pack_bound(r@);
}

/// For each selection bitfield worth trying with `rolls_remaining` rolls
/// left, the state each of its outcomes leads to, with the outcome's
/// arrangement count: what the expected value of a selection averages over.
pub fn roll_states(
    tables: &Tables,
    current: DieVals,
    slots: SortedSlots,
    upper_total: u8,
    bonus: bool,
    rolls_remaining: u8,
) -> (r: Vec<(u8, Vec<(GameState, u8)>)>)
    requires
        tables.wf(),
        1 <= rolls_remaining <= 3,
        current.data == pack_spec(current@),
        forall|i: int| 0 <= i < 5 ==> #[trigger] current@[i] <= 6,
        best_upper_total_spec(slots.data) + upper_total <= 255,
    ensures
        r.len() == if rolls_remaining == 3 {
            1int
        } else {
            32int
        },
        forall|x: int| 0 <= x < r.len() ==> (#[trigger] r@[x]).0 == if rolls_remaining == 3 {
            31
        } else {
            x
        },
        forall|x: int|
            0 <= x < r.len() ==> (#[trigger] r@[x]).1@.len() == selection_outcomes(tables, r@[x].0 as int).len(),
        forall|x: int, k: int|
            0 <= x < r.len() && 0 <= k < r@[x].1@.len() ==> #[trigger] r@[x].1@[k] == (
                roll_state_spec(
                    tables,
                    current,
                    selection_outcomes(tables, r@[x].0 as int)[k],
                    slots,
                    upper_total,
                    bonus,
                    (rolls_remaining - 1) as u8,
                ),
                selection_outcomes(tables, r@[x].0 as int)[k].arrangements,
            ),
{
    let next_roll = rolls_remaining - 1;
    let (first, last) = selections_for(rolls_remaining);
    let mut r: Vec<(u8, Vec<(GameState, u8)>)> = Vec::new();
    let mut selection: u8 = first;
    while selection <= last
        invariant
            tables.wf(),
            current.data == pack_spec(current@),
            forall|i: int| 0 <= i < 5 ==> #[trigger] current@[i] <= 6,
            best_upper_total_spec(slots.data) + upper_total <= 255,
            next_roll == rolls_remaining - 1,
            1 <= rolls_remaining <= 3,
            first == (if rolls_remaining == 3 { 31u8 } else { 0u8 }),
            last == 31,
            first <= selection <= 32,
            r.len() == selection - first,
            forall|x: int| 0 <= x < r.len() ==> (#[trigger] r@[x]).0 == first + x,
            forall|x: int|
                0 <= x < r.len() ==> (#[trigger] r@[x]).1@.len() == selection_outcomes(tables, r@[x].0 as int).len(),
            forall|x: int, k: int|
                0 <= x < r.len() && 0 <= k < r@[x].1@.len() ==> #[trigger] r@[x].1@[k] == (
                    roll_state_spec(
                        tables,
                        current,
                        selection_outcomes(tables, r@[x].0 as int)[k],
                        slots,
                        upper_total,
                        bonus,
                        next_roll,
                    ),
                    selection_outcomes(tables, r@[x].0 as int)[k].arrangements,
                ),
        decreases 32 - selection,
    {
        let outcomes = tables.outcomes_for_selection(selection);
        let ghost os = selection_outcomes(tables, selection as int);
        assert(outcomes@ == os);
        let mut states: Vec<(GameState, u8)> = Vec::new();
        let mut k: usize = 0;
        while k < outcomes.len()
            invariant
                tables.wf(),
                outcomes@ == os,
                selection < 32,
                os == selection_outcomes(tables, selection as int),
                current.data == pack_spec(current@),
                forall|i: int| 0 <= i < 5 ==> #[trigger] current@[i] <= 6,
                best_upper_total_spec(slots.data) + upper_total <= 255,
                forall|kk: int, p: int|
                    #![trigger os[kk].mask@[p]]
                    0 <= kk < os.len() && 0 <= p < 5 ==> if selected_positions(selection as int).contains(p as u8) {
                        os[kk].mask@[p] == 0 && 1 <= os[kk].dievals@[p] <= 6
                    } else {
                        os[kk].mask@[p] == 7 && os[kk].dievals@[p] == 0
                    },
                forall|kk: int|
                    0 <= kk < os.len() ==> (#[trigger] os[kk]).dievals.data == pack_spec(os[kk].dievals@)
                        && os[kk].mask.data == pack_spec(os[kk].mask@),
                k <= os.len(),
                states.len() == k,
                forall|kk: int|
                    0 <= kk < k ==> #[trigger] states@[kk] == (
                        roll_state_spec(tables, current, os[kk], slots, upper_total, bonus, next_roll),
                        os[kk].arrangements,
                    ),
            decreases os.len() - k,
        {
            let o = &outcomes[k];
            let rolled = rolled_dice(current, o);
            proof {
                assert forall|p: int| 0 <= p < 5 implies (o.mask@[p] == 0 && 1 <= #[trigger] o.dievals@[p]
                    <= 6) || (o.mask@[p] == 7 && o.dievals@[p] == 0) by {
                    assert(os[k as int].mask@[p] == o.mask@[p]);
                }
                lemma_roll_in_range(current, *o, rolled);
            }
            let state = state_after_roll(tables, current, o, slots, upper_total, bonus, next_roll);
            states.push((state, o.arrangements));
            k = k + 1;
        }
        r.push((selection, states));
        selection = selection + 1;
    }
    r
}

} // verus!
