use yahtzeebot::solver::upper_total_after;
use yahtzeebot::dievals::{DieVals, DieValsID};
use yahtzeebot::sorted_slots::{SortedSlots, ACES, YAHTZEE};

#[test]
fn test_dievals_into() {
    let dv = DieVals::from_array([2, 2, 5, 5, 5]);
    assert_eq!(dv.get(4), 5);
    assert_eq!(dv.get(0), 2);
    assert_eq!(dv.to_string(), "55522");
}

#[test]
fn dievals_pack_layout() {
    let dv = DieVals::from_array([1, 2, 3, 4, 5]);
    assert_eq!(dv.data, 5 << 12 | 4 << 9 | 3 << 6 | 2 << 3 | 1);
    assert_eq!(dv.to_array(), [1, 2, 3, 4, 5]);
    assert_eq!(dv.values(), vec![1, 2, 3, 4, 5]);
}

#[test]
fn dievals_set_then_get() {
    let mut dv = DieVals::from_array([1, 2, 3, 4, 5]);
    dv.set(2, 6);
    assert_eq!(dv.to_array(), [1, 2, 6, 4, 5]);
    dv.set(0, 0);
    assert_eq!(dv.to_array(), [0, 2, 6, 4, 5]);
}

#[test]
fn dievals_blit_replaces_masked_dice() {
    let mut dv = DieVals::from_array([1, 2, 3, 4, 5]);
    let from = DieVals::from_array([0, 6, 0, 6, 0]);
    let mask = DieVals::from_array([7, 0, 7, 0, 7]);
    dv.blit(from, mask);
    assert_eq!(dv.to_array(), [1, 6, 3, 6, 5]);
}

#[test]
fn dievals_from_vec_takes_first_five() {
    let dv = DieVals::from_vec(&vec![6, 5, 4, 3, 2, 1]);
    assert_eq!(dv.to_array(), [6, 5, 4, 3, 2]);
}

#[test]
fn dievals_id_default_is_wildcard() {
    let id = DieValsID::default();
    assert_eq!(id.data, 0);
}

#[test]
fn removed_test() {
    let s = SortedSlots::from_slots(&[1, 3, 5]);
    let r = s.removed(1);
    assert_eq!(r, SortedSlots::from_slots(&[3, 5]));
}

#[test]
fn sorted_slots_insert_remove_has() {
    let mut s = SortedSlots::from_slots(&[]);
    assert!(!s.has(ACES));
    s.insert(ACES);
    s.insert(YAHTZEE);
    assert!(s.has(ACES));
    assert!(s.has(YAHTZEE));
    assert!(!s.has(2));
    s.remove(ACES);
    assert!(!s.has(ACES));
    assert_eq!(s.data, 1 << 12);
}

#[test]
fn sorted_slots_len_is_highest_plus_one() {
    assert_eq!(SortedSlots::from_slots(&[1, 3, 5]).len(), 6);
    assert_eq!(SortedSlots::from_slots(&[12]).len(), 13);
    assert_eq!(SortedSlots::from_slots(&[]).len(), 0);
}

#[test]
fn sorted_slots_lists_slots_in_order() {
    let s = SortedSlots::from_slots(&[11, 3, 7, 1]);
    assert_eq!(s.slots(), vec![1, 3, 7, 11]);
    assert_eq!(s.to_string(), "1_3_7_11_");
}

#[test]
fn sorted_slots_previously_used_upper() {
    let s = SortedSlots::from_slots(&[1, 2, 4, 9]);
    let used = s.previously_used_upper_slots();
    assert_eq!(used.data, 0b0110_1001);
}

#[test]
fn sorted_slots_best_upper_total() {
    assert_eq!(SortedSlots::from_slots(&[1, 2, 4, 9]).best_upper_total(), 35);
    assert_eq!(SortedSlots::from_slots(&[1, 2, 3, 4, 5, 6]).best_upper_total(), 105);
    assert_eq!(SortedSlots::from_slots(&[7, 8]).best_upper_total(), 0);
}

#[test]
fn sorted_slots_relevant_total() {
    let s = SortedSlots::from_slots(&[6]);
    assert_eq!(s.relevant_total(33), 33);
    assert_eq!(s.relevant_total(32), 0);
}

#[test]
fn relevant_upper_totals_test() {
    let mut only_yahtzee = SortedSlots::from_slots(&[12]).relevant_upper_totals();
    only_yahtzee.sort();
    assert_eq!(only_yahtzee, vec![0, 63]);
    let mut only_aces = SortedSlots::from_slots(&[1]).relevant_upper_totals();
    only_aces.sort();
    assert_eq!(only_aces, vec![0, 58, 59, 60, 61, 62, 63]);
    let mut all_upper = SortedSlots::from_slots(&[1, 2, 3, 4, 5, 6]).relevant_upper_totals();
    all_upper.sort();
    assert_eq!(all_upper, vec![0]);
}

#[test]
fn slot_subsets_in_lexicographic_order() {
    let s = SortedSlots::from_slots(&[2, 5, 9]);
    let pairs = s.slot_subsets(2);
    assert_eq!(pairs.len(), 3);
    assert_eq!(pairs[0], SortedSlots::from_slots(&[2, 5]));
    assert_eq!(pairs[1], SortedSlots::from_slots(&[2, 9]));
    assert_eq!(pairs[2], SortedSlots::from_slots(&[5, 9]));
    assert_eq!(s.slot_subsets(4).len(), 0);
}

#[test]
fn slot_choice_lookups_find_built_totals() {
    let slots = SortedSlots::from_slots(&[1, 2, 4, 6, 12]);
    for t in slots.relevant_upper_totals() {
        assert_eq!(slots.relevant_total(t), t);
        for h in slots.slots() {
            let head = SortedSlots::from_slots(&[h]);
            assert!(head.relevant_upper_totals().contains(&head.relevant_total(t)));
            let tail = slots.removed(h);
            let counts: Vec<u8> = if h <= 6 { (0..=5).collect() } else { vec![0] };
            for c in counts {
                let points = if h <= 6 { h * c } else { 25 };
                let after = upper_total_after(h, points, t);
                assert!(tail.relevant_upper_totals().contains(&tail.relevant_total(after)));
            }
        }
    }
}
