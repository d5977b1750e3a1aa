use yahtzeebot::dievals::{DieVals, DieValsID};
use yahtzeebot::game_state::GameState;
use yahtzeebot::solver::{
    bonus_after, bonus_options, joker_head_slot, lookup_state, roll_states, rolled_dice, selections_for,
    state_after_roll, upper_total_after,
};
use yahtzeebot::sorted_slots::SortedSlots;
use yahtzeebot::tables::Tables;
use yahtzeebot::text::state_choice_prefix;

fn state(t: &Tables, dice: [u8; 5], slots: &[u8], upper_total: u8, rolls: u8, bonus: bool) -> GameState {
    GameState {
        sorted_dievals: t.id_for_dievals(DieVals::from_array(dice)),
        sorted_open_slots: SortedSlots::from_slots(slots),
        upper_total,
        rolls_remaining: rolls,
        yahtzee_bonus_avail: bonus,
    }
}

#[test]
fn default_game_state() {
    let g: GameState = yahtzeebot::game_state::default();
    assert_eq!(g.rolls_remaining, 3);
    assert_eq!(g.upper_total, 63);
    assert!(!g.yahtzee_bonus_avail);
    assert_eq!(g.sorted_dievals, DieValsID { data: 0 });
    assert_eq!(g.sorted_open_slots.slots(), (1..=13).collect::<Vec<u8>>());
    assert_eq!(GameState::default(), g);
}

#[test]
fn first_slot_plain_score() {
    let t = Tables::new();
    let g = state(&t, [1, 2, 3, 4, 6], &[13, 12], 0, 0, false);
    assert_eq!(g.score_first_slot_in_context(&t), 0);
    let g = state(&t, [1, 2, 3, 4, 6], &[13], 0, 0, false);
    assert_eq!(g.score_first_slot_in_context(&t), 16);
}

#[test]
fn first_slot_upper_bonus() {
    let t = Tables::new();
    let g = state(&t, [6, 6, 6, 6, 2], &[6], 40, 0, false);
    assert_eq!(g.score_first_slot_in_context(&t), 24 + 35);
    let g = state(&t, [6, 6, 2, 2, 2], &[6], 40, 0, false);
    assert_eq!(g.score_first_slot_in_context(&t), 12);
    let g = state(&t, [6, 6, 6, 6, 6], &[6], 0, 0, false);
    assert_eq!(g.score_first_slot_in_context(&t), 30);
}

#[test]
fn upper_bonus_is_paid_once() {
    let t = Tables::new();
    let g = state(&t, [1, 2, 3, 4, 6], &[6], 63, 0, false);
    assert_eq!(g.score_first_slot_in_context(&t), 6);
    let g = state(&t, [6, 6, 6, 1, 2], &[6], 63, 0, false);
    assert_eq!(g.score_first_slot_in_context(&t), 18);
    let g = state(&t, [6, 6, 6, 1, 2], &[6], 45, 0, false);
    assert_eq!(g.score_first_slot_in_context(&t), 18 + 35);
}

#[test]
fn first_slot_joker_and_bonus() {
    let t = Tables::new();
    let g = state(&t, [3, 3, 3, 3, 3], &[9], 0, 0, false);
    assert_eq!(g.score_first_slot_in_context(&t), 25);
    let g = state(&t, [3, 3, 3, 3, 3], &[10, 11], 0, 0, true);
    assert_eq!(g.score_first_slot_in_context(&t), 130);
    let g = state(&t, [3, 3, 3, 3, 3], &[12], 0, 0, true);
    assert_eq!(g.score_first_slot_in_context(&t), 150);
    let g = state(&t, [3, 3, 3, 3, 3], &[11], 0, 0, false);
    assert_eq!(g.score_first_slot_in_context(&t), 40);
}

#[test]
fn counts_for_single_slots() {
    let t = Tables::new();
    let g = state(&t, [1, 1, 1, 1, 1], &[12], 0, 3, false);
    let c = g.counts();
    assert_eq!(c.saves, 2);
    assert_eq!(c.lookups, 2 * 848736);
    let g = state(&t, [1, 1, 1, 1, 1], &[1], 0, 3, false);
    let c = g.counts();
    assert_eq!(c.saves, 14);
    assert_eq!(c.lookups, 14 * 848736);
}

#[test]
fn counts_for_two_slots() {
    let t = Tables::new();
    let g = state(&t, [1, 1, 1, 1, 1], &[7, 12], 0, 3, false);
    let c = g.counts();
    // {7}: totals {0, 63} x 2 bonus values; {12}: {0, 63} x 1; {7, 12}: {0, 63} x 1.
    assert_eq!(c.saves, 4 + 2 + 2);
    assert_eq!(c.lookups, 6 * 848736 + 2 * (848484 + 2 * 2 * 252));
}

#[test]
fn solver_rules() {
    assert_eq!(bonus_options(false), vec![false]);
    assert_eq!(bonus_options(true), vec![false, true]);
    assert_eq!(selections_for(3), (31, 31));
    assert_eq!(selections_for(1), (0, 31));
    assert_eq!(upper_total_after(4, 16, 40), 56);
    assert_eq!(upper_total_after(4, 120, 40), 60);
    assert_eq!(upper_total_after(6, 30, 40), 63);
    assert_eq!(upper_total_after(9, 25, 40), 40);
    assert!(bonus_after(12, true, false));
    assert!(!bonus_after(12, false, false));
    assert!(!bonus_after(13, true, false));
    assert!(bonus_after(2, false, true));
}

#[test]
fn joker_forces_matching_upper_slot() {
    let yahtzee_of_fours = DieVals::from_array([4, 4, 4, 4, 4]);
    let open = SortedSlots::from_slots(&[4, 9, 13]);
    assert_eq!(joker_head_slot(yahtzee_of_fours, open, 9, true), (4, true));
    assert_eq!(joker_head_slot(yahtzee_of_fours, open, 9, false), (9, false));
    let no_fours = SortedSlots::from_slots(&[9, 13]);
    assert_eq!(joker_head_slot(yahtzee_of_fours, no_fours, 9, true), (9, false));
    let mixed = DieVals::from_array([1, 4, 4, 4, 4]);
    assert_eq!(joker_head_slot(mixed, open, 13, true), (13, false));
}

#[test]
fn lookup_state_drops_unreachable_upper_total() {
    let slots = SortedSlots::from_slots(&[1, 12]);
    let s = lookup_state(DieValsID { data: 3 }, 2, slots, 50, true);
    assert_eq!(s.upper_total, 0);
    let s = lookup_state(DieValsID { data: 3 }, 2, slots, 58, true);
    assert_eq!(s.upper_total, 58);
    assert_eq!(s.rolls_remaining, 2);
    assert_eq!(s.sorted_dievals.data, 3);
    assert!(s.yahtzee_bonus_avail);
}

#[test]
fn rolling_replaces_selected_dice() {
    let t = Tables::new();
    let current = DieVals::from_array([2, 3, 4, 5, 6]);
    let outcomes = t.outcomes_for_selection(0b00001);
    let after = rolled_dice(current, &outcomes[0]);
    assert_eq!(after.to_array(), [1, 3, 4, 5, 6]);
    let slots = SortedSlots::from_slots(&[10]);
    let s = state_after_roll(&t, current, &outcomes[0], slots, 0, false, 1);
    assert_eq!(t.dievals_for_id(s.sorted_dievals).to_array(), [1, 3, 4, 5, 6]);
    assert_eq!(s.rolls_remaining, 1);
}

#[test]
fn state_choice_lines() {
    let t = Tables::new();
    let g = state(&t, [6, 5, 4, 1, 1], &[1, 3, 4, 6, 7, 8, 11], 31, 2, true);
    assert_eq!(state_choice_prefix(&t, &g, 0b01111), "D,01111,65411,2,31,Y,1_3_4_6_7_8_11_,");
    let g = state(&t, [6, 6, 6, 4, 1], &[3, 4, 5, 9, 10, 13], 11, 0, true);
    assert_eq!(state_choice_prefix(&t, &g, 13), "S,13,66641,0,11,Y,3_4_5_9_10_13_,");
    let g = state(&t, [1, 1, 1, 1, 1], &[2], 0, 1, false);
    assert_eq!(state_choice_prefix(&t, &g, 100), "D,1100100,11111,1,0,,2_,");
}

#[test]
fn roll_states_follow_each_selection() {
    let t = Tables::new();
    let current = DieVals::from_array([2, 3, 4, 5, 6]);
    let slots = SortedSlots::from_slots(&[10, 11]);
    let all = roll_states(&t, current, slots, 0, false, 2);
    assert_eq!(all.len(), 32);
    assert_eq!(all[0].0, 0);
    assert_eq!(all[0].1.len(), 1);
    assert_eq!(all[0].1[0].0.sorted_dievals, t.id_for_dievals(current));
    assert_eq!(all[0].1[0].0.rolls_remaining, 1);
    assert_eq!(all[0].1[0].1, 1);
    let second = &all[0b00010].1;
    assert_eq!(second.len(), 6);
    assert_eq!(t.dievals_for_id(second[0].0.sorted_dievals).to_array(), [1, 2, 4, 5, 6]);
    assert_eq!(all[31].1.len(), 252);
    let total: u64 = all[31].1.iter().map(|(_, a)| *a as u64).sum();
    assert_eq!(total, 7776);
    let first_roll = roll_states(&t, DieVals::from_array([0, 0, 0, 0, 0]), slots, 0, false, 3);
    assert_eq!(first_roll.len(), 1);
    assert_eq!(first_roll[0].0, 31);
    assert_eq!(first_roll[0].1.len(), 252);
}

#[test]
fn default_gives_each_types_default() {
    assert_eq!(yahtzeebot::game_state::default::<u8>(), 0);
    assert_eq!(yahtzeebot::game_state::default::<GameState>(), GameState::default());
    let g: GameState = yahtzeebot::game_state::default();
    assert_eq!(g.rolls_remaining, 3);
    assert_eq!(g.upper_total, 63);
    assert_eq!(g.sorted_open_slots.slots(), (1..=13).collect::<Vec<u8>>());
}
