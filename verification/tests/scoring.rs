use yahtzeebot::dievals::DieVals;
use yahtzeebot::score::Score;
use yahtzeebot::sorted_slots::{FULL_HOUSE, YAHTZEE};

fn dice(a: [u8; 5]) -> DieVals {
    DieVals::from_array(a)
}

#[test]
fn score_slot_test() {
    assert_eq!(0, Score::slot_with_dice(FULL_HOUSE, dice([1, 2, 5, 5, 5])));
    assert_eq!(25, Score::slot_with_dice(FULL_HOUSE, dice([2, 2, 5, 5, 5])));
    assert_eq!(0, Score::slot_with_dice(FULL_HOUSE, dice([0, 0, 5, 5, 5])));
    assert_eq!(0, Score::slot_with_dice(YAHTZEE, dice([4, 5, 5, 5, 5])));
    assert_eq!(50, Score::slot_with_dice(YAHTZEE, dice([1, 1, 1, 1, 1])));
}

#[test]
fn straight_len_test() {
    assert_eq!(Score::straight_len(dice([1, 1, 1, 1, 1])), 1);
}

#[test]
fn straight_len_skips_repeats() {
    assert_eq!(Score::straight_len(dice([1, 2, 2, 3, 4])), 4);
    assert_eq!(Score::straight_len(dice([1, 2, 3, 4, 5])), 5);
    assert_eq!(Score::straight_len(dice([1, 2, 4, 5, 6])), 3);
    assert_eq!(Score::straight_len(dice([0, 0, 1, 2, 3])), 4);
}

#[test]
fn upper_boxes() {
    let d = dice([2, 2, 3, 6, 6]);
    assert_eq!(Score::aces(d), 0);
    assert_eq!(Score::twos(d), 4);
    assert_eq!(Score::threes(d), 3);
    assert_eq!(Score::fours(d), 0);
    assert_eq!(Score::fives(d), 0);
    assert_eq!(Score::sixes(d), 12);
    assert_eq!(Score::upperbox(6, d), 12);
}

#[test]
fn kinds() {
    assert_eq!(Score::three_of_a_kind(dice([2, 3, 3, 3, 6])), 17);
    assert_eq!(Score::three_of_a_kind(dice([2, 3, 3, 5, 6])), 0);
    assert_eq!(Score::four_of_a_kind(dice([4, 4, 4, 4, 6])), 22);
    assert_eq!(Score::four_of_a_kind(dice([4, 4, 4, 5, 6])), 0);
    assert_eq!(Score::n_of_a_kind(3, dice([0, 0, 0, 1, 2])), 0);
    assert_eq!(Score::n_of_a_kind(1, dice([1, 2, 3, 4, 6])), 16);
}

#[test]
fn straights() {
    assert_eq!(Score::sm_str8(dice([1, 2, 3, 4, 6])), 30);
    assert_eq!(Score::sm_str8(dice([1, 2, 3, 5, 6])), 0);
    assert_eq!(Score::lg_str8(dice([2, 3, 4, 5, 6])), 40);
    assert_eq!(Score::lg_str8(dice([1, 2, 3, 4, 6])), 0);
}

#[test]
fn full_house_needs_two_values() {
    assert_eq!(Score::fullhouse(dice([3, 3, 3, 3, 3])), 0);
    assert_eq!(Score::fullhouse(dice([1, 1, 6, 6, 6])), 25);
    assert_eq!(Score::fullhouse(dice([1, 1, 1, 6, 6])), 25);
    assert_eq!(Score::fullhouse(dice([1, 1, 2, 6, 6])), 0);
}

#[test]
fn chance_and_yahtzee() {
    assert_eq!(Score::chance(dice([1, 2, 3, 4, 6])), 16);
    assert_eq!(Score::yahtzee(dice([6, 6, 6, 6, 6])), 50);
    assert_eq!(Score::yahtzee(dice([0, 0, 0, 0, 0])), 0);
}

#[test]
fn every_slot_dispatches() {
    let d = dice([3, 3, 3, 3, 3]);
    let expected = [0, 0, 15, 0, 0, 0, 15, 15, 0, 0, 0, 50, 15];
    for slot in 1..=13u8 {
        assert_eq!(Score::slot_with_dice(slot, d), expected[(slot - 1) as usize]);
    }
}

#[test]
fn straight_len_short_runs() {
    assert_eq!(Score::straight_len(dice([1, 1, 3, 3, 5])), 1);
    assert_eq!(Score::straight_len(dice([1, 1, 2, 2, 6])), 2);
    assert_eq!(Score::straight_len(dice([2, 3, 4, 6, 6])), 3);
}
