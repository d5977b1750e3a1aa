use vstd::prelude::*;
use crate::counting::{count_of, lemma_count_of_bound, lemma_sum_of_bound};
use crate::dievals::{DieValsID, lemma_view_small};
use crate::score::{Score, slot_score, yahtzee_spec};
use crate::sorted_slots::{
    SortedSlots, Slot, slot_seq, lemma_members_from, SIXES, FULL_HOUSE,
    SM_STRAIGHT, LG_STRAIGHT, YAHTZEE,
};
use crate::tables::{Tables, face_combos, lemma_face_combos};

verus! {

/// A point in a solo game where a choice is due: the dice showing (as the id
/// of their sorted combination), the open slots, the upper section total so
/// far, the rolls left in this turn, and whether a further Yahtzee earns the
/// bonus.
#[derive(Clone, Copy, Debug, PartialEq, Eq, Hash, PartialOrd, Ord)]
pub struct GameState {
    pub sorted_dievals: DieValsID,
    pub sorted_open_slots: SortedSlots,
    pub upper_total: u8,
    pub rolls_remaining: u8,
    pub yahtzee_bonus_avail: bool,
}

/// The score of placing `dice` in `slot` within a game: the slot's own
/// score, plus the 35-point upper bonus when an upper slot brings a nonzero
/// upper total below 63 up to 63 (a total already at 63 has had its bonus); under the joker rules (a Yahtzee rolled while the
/// Yahtzee slot is taken) the full house and the straights score their full
/// value; and a Yahtzee with the bonus available adds 100.
pub open spec fn slot_score_in_context(slot: u8, dice: Seq<u8>, upper_total: u8, bonus: bool) -> int {
    let base = slot_score(slot, dice);
    let with_upper = if slot <= 6 && 0 < upper_total < 63 && upper_total + base >= 63 {
        base + 35
    } else {
        base
    };
    let rolled_yahtzee = yahtzee_spec(dice) == 50;
    let joker = rolled_yahtzee && slot != 12;
    let with_joker = if joker && slot == 9 {
        25
    } else if joker && slot == 10 {
        30
    } else if joker && slot == 11 {
        40
    } else {
        with_upper
    };
    if rolled_yahtzee && bonus {
        with_joker + 100
    } else {
        with_joker
    }
}

/// The extra-Yahtzee bonus: for dice that are a Yahtzee, having the bonus
/// available adds exactly 100 to the score of any slot, upper slots
/// included; for other dice it changes nothing.
pub proof fn lemma_extra_yahtzee_bonus(slot: u8, dice: Seq<u8>, upper_total: u8)
    ensures
        yahtzee_spec(dice) == 50 ==> slot_score_in_context(slot, dice, upper_total, true)
            == slot_score_in_context(slot, dice, upper_total, false) + 100,
        yahtzee_spec(dice) != 50 ==> slot_score_in_context(slot, dice, upper_total, true)
            == slot_score_in_context(slot, dice, upper_total, false),
{
}

/// Unless an extra-Yahtzee bonus is paid, an upper slot scores its own
/// score, plus 35 exactly when the upper total was above 0 and below 63 and
/// the slot's score brings it to 63 or more; the joker rules do not touch
/// the upper slots.
pub proof fn lemma_upper_bonus_once(slot: u8, dice: Seq<u8>, upper_total: u8, bonus: bool)
    requires
        1 <= slot <= 6,
        !(yahtzee_spec(dice) == 50 && bonus),
    ensures
        slot_score_in_context(slot, dice, upper_total, bonus) == slot_score(slot, dice) + if 0 < upper_total
            < 63 && upper_total + slot_score(slot, dice) >= 63 {
            35int
        } else {
            0int
        },
{
}

/// A lower slot scores just its own score, whatever the upper total, unless
/// the joker rules set the full house or a straight, or an extra-Yahtzee
/// bonus is paid.
pub proof fn lemma_lower_slot_plain(slot: u8, dice: Seq<u8>, upper_total: u8, bonus: bool)
    requires
        7 <= slot <= 13,
        !(yahtzee_spec(dice) == 50 && 9 <= slot <= 11),
        !(yahtzee_spec(dice) == 50 && bonus),
    ensures
        slot_score_in_context(slot, dice, upper_total, bonus) == slot_score(slot, dice),
{
}

/// The joker rules: a Yahtzee rolled while the Yahtzee slot is taken scores
/// the full house 25 and the straights 30 and 40, plus 100 with the bonus
/// available.
pub proof fn lemma_joker_values(slot: u8, dice: Seq<u8>, upper_total: u8, bonus: bool)
    requires
        9 <= slot <= 11,
        yahtzee_spec(dice) == 50,
    ensures
        slot_score_in_context(slot, dice, upper_total, bonus) == (if slot == 9 {
            25int
        } else if slot == 10 {
            30int
        } else {
            40int
        }) + if bonus {
            100int
        } else {
            0int
        },
{
}

/// The dice that id `id` stands for in the tables.
pub open spec fn dice_of(t: &Tables, id: DieValsID) -> Seq<u8> {
    t.dievals_for_dievals_id@[id.data as int]@
}

/// Slot scores stay within 50 for dice below 8.
proof fn lemma_slot_score_bound(slot: u8, s: Seq<u8>)
    requires
        1 <= slot <= 13,
        s.len() == 5,
        forall|i: int| 0 <= i < 5 ==> s[i] < 8,
    ensures
        0 <= slot_score(slot, s) <= 50,
        slot <= 6 ==> slot_score(slot, s) <= 30,
{
    lemma_sum_of_bound(s, 7);
    lemma_count_of_bound(s, slot);
    if slot <= 6 {
        let c = count_of(s, slot);
        assert(slot * c <= 30) by (nonlinear_arith)
            requires
                slot <= 6,
                c <= 5,
        ;
    }
}

/// Dice from the tables are below 8.
proof fn lemma_table_dice(t: &Tables, id: DieValsID)
    requires
        t.wf(),
        id.data < 253,
    ensures
        dice_of(t, id).len() == 5,
        forall|i: int| 0 <= i < 5 ==> #[trigger] dice_of(t, id)[i] < 8,
{
    lemma_face_combos();
    if id.data > 0 {
        assert(t.dievals_for_dievals_id@[(id.data - 1) + 1]@ == face_combos()[id.data - 1]);
    } else {
        lemma_view_small(t.dievals_for_dievals_id@[0]);
    }
}

/// Whether `r` is the starting position: three rolls left, every slot open,
/// the upper total at 63, no Yahtzee bonus, and the wildcard dice.
pub open spec fn is_start_position(r: GameState) -> bool {
    &&& r.sorted_dievals.data == 0
    &&& r.rolls_remaining == 3
    &&& r.upper_total == 63
    &&& !r.yahtzee_bonus_avail
    &&& r.sorted_open_slots@ == Set::new(|v: u8| 1 <= v <= 13)
}

/// The default value of `T`.
pub fn default<T: Default>() -> (r: T)
    ensures
        call_ensures(T::default, (), r),
{
    T::default()
}

impl Default for GameState {
    /// The starting position: three rolls left, every slot open, the upper
    /// total at 63, no Yahtzee bonus, and the wildcard dice.
    fn default() -> (r: GameState)
        ensures
            is_start_position(r),
    {
        let all: [Slot; 13] = [1, 2, 3, 4, 5, 6, 7, 8, 9, 10, 11, 12, 13];
        let slots = SortedSlots::from_slots(&all);
        assert(all@.to_set() =~= Set::new(|v: u8| 1 <= v <= 13)) by {
            assert forall|v: u8| 1 <= v <= 13 implies all@.contains(v) by {
                assert(all@[v - 1] == v);
            }
        }
        GameState {
            sorted_dievals: DieValsID { data: 0 },
            rolls_remaining: 3,
            upper_total: 63,
            yahtzee_bonus_avail: false,
            sorted_open_slots: slots,
        }
    }
}

impl GameState {
    /// The score of the first open slot for the state's dice, counting the
    /// upper bonus, the joker rules and the extra-Yahtzee bonus.
    pub fn score_first_slot_in_context(&self, tables: &Tables) -> (r: u8)
        requires
            tables.wf(),
            self.sorted_dievals.data < 253,
            slot_seq(self.sorted_open_slots.data).len() > 0,
        ensures
            r == slot_score_in_context(
                slot_seq(self.sorted_open_slots.data)[0],
                dice_of(tables, self.sorted_dievals),
                self.upper_total,
                self.yahtzee_bonus_avail,
            ),
    {
        let slots = self.sorted_open_slots.slots();
        proof {
            lemma_members_from(self.sorted_open_slots.data, 1);
        }
        let slot = slots[0];
        let dievals = tables.dievals_for_id(self.sorted_dievals);
        proof {
            lemma_table_dice(tables, self.sorted_dievals);
            lemma_slot_score_bound(slot, dievals@);
        }
        let mut score = Score::slot_with_dice(slot, dievals);
        if slot <= SIXES && self.upper_total > 0 && self.upper_total < 63 {
            let sum = self.upper_total + score;
            let new_upper_total = if sum < 63 {
                sum
            } else {
                63
            };
            if new_upper_total == 63 {
                score = score + 35;
            }
        }
        let just_rolled_yahtzee = Score::yahtzee(dievals) == 50;
        let joker_rules_in_play = slot != YAHTZEE;
        if just_rolled_yahtzee && joker_rules_in_play {
            if slot == FULL_HOUSE {
                score = 25;
            }
            if slot == SM_STRAIGHT {
                score = 30;
            }
            if slot == LG_STRAIGHT {
                score = 40;
            }
        }
        if just_rolled_yahtzee && self.yahtzee_bonus_avail {
            score = score + 100;
        }
        score
    }
}

} // verus!
