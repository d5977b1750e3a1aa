use yahtzeebot::combinatorics::{distinct_arrangements_for, fact, n_take_r};
use yahtzeebot::dievals::{DieVals, DieValsID};
use yahtzeebot::tables::{die_index_combos, selection_ranges, Tables, idx_for_selection};

#[test]
fn factorials() {
    assert_eq!(fact(0), 1);
    assert_eq!(fact(1), 1);
    assert_eq!(fact(5), 120);
    assert_eq!(fact(20), 2432902008176640000);
}

#[test]
fn n_take_r_all_four_kinds() {
    assert_eq!(n_take_r(6, 2, true, true), 36);
    assert_eq!(n_take_r(5, 2, true, false), 20);
    assert_eq!(n_take_r(6, 5, false, true), 252);
    assert_eq!(n_take_r(5, 2, false, false), 10);
    assert_eq!(n_take_r(6, 0, false, true), 1);
}

#[test]
fn arrangements_are_multinomials() {
    assert_eq!(distinct_arrangements_for(vec![1, 1, 2, 3, 0]), 12);
    assert_eq!(distinct_arrangements_for(vec![5, 5, 5, 5, 5]), 1);
    assert_eq!(distinct_arrangements_for(vec![1, 2, 3, 4, 5]), 120);
    assert_eq!(distinct_arrangements_for(vec![]), 1);
    assert_eq!(distinct_arrangements_for(vec![0, 0, 0]), 1);
    assert_eq!(distinct_arrangements_for(vec![1, 1, 2]), 3);
    let mut many_zeros = vec![0u8; 40];
    many_zeros.extend_from_slice(&[2, 2, 5]);
    assert_eq!(distinct_arrangements_for(many_zeros), 3);
}

#[test]
fn index_combos_layout() {
    let combos = die_index_combos();
    assert_eq!(combos.len(), 32);
    assert!(combos[0].is_empty());
    assert_eq!(combos[1], vec![0]);
    assert_eq!(combos[5], vec![4]);
    assert_eq!(combos[6], vec![0, 1]);
    assert_eq!(combos[31], vec![0, 1, 2, 3, 4]);
}

#[test]
fn selection_ranges_layout() {
    let ranges = selection_ranges();
    assert_eq!(ranges.len(), 32);
    assert_eq!(ranges[0], (0, 1));
    assert_eq!(ranges[1], (1, 7));
    assert_eq!(ranges[5], (25, 31));
    assert_eq!(ranges[6], (31, 52));
    assert_eq!(ranges[31], (1431, 1683));
    for k in 1..32 {
        assert_eq!(ranges[k].0, ranges[k - 1].1);
    }
}

#[test]
fn dievals_ids_are_sorted_combinations() {
    let t = Tables::new();
    assert_eq!(t.dievals_for_id(DieValsID { data: 1 }).to_array(), [1, 1, 1, 1, 1]);
    assert_eq!(t.dievals_for_id(DieValsID { data: 2 }).to_array(), [1, 1, 1, 1, 2]);
    assert_eq!(t.dievals_for_id(DieValsID { data: 252 }).to_array(), [6, 6, 6, 6, 6]);
    assert_eq!(t.dievals_for_id(DieValsID { data: 0 }).data, 0);
    let a = t.id_for_dievals(DieVals::from_array([5, 4, 3, 2, 1]));
    let b = t.id_for_dievals(DieVals::from_array([1, 2, 3, 4, 5]));
    assert_eq!(a, b);
    assert_eq!(t.dievals_for_id(a).to_array(), [1, 2, 3, 4, 5]);
    assert_eq!(t.id_for_dievals(DieVals::from_array([0, 0, 0, 0, 0])).data, 0);
    assert_eq!(t.dievals_id_to_string(a), "54321");
    assert_eq!(t.id_for_array([6, 1, 6, 1, 6]), t.id_for_dievals(DieVals::from_array([1, 1, 6, 6, 6])));
    assert_eq!(t.dievals_for_id(t.id_for_array([2, 2, 1, 2, 2])).to_array(), [1, 2, 2, 2, 2]);
}

#[test]
fn every_id_round_trips() {
    let t = Tables::new();
    for id in 1..=252u8 {
        let dv = t.dievals_for_id(DieValsID { data: id });
        assert_eq!(t.id_for_dievals(dv).data, id);
    }
}

#[test]
fn outcomes_per_selection() {
    let t = Tables::new();
    assert_eq!(t.outcomes.len(), 1683);
    assert_eq!(t.outcomes[0].dievals.data, 0);
    assert_eq!(t.outcomes[0].mask.data, 0x7FFF);
    assert_eq!(t.outcomes[0].arrangements, 1);
    assert_eq!(t.outcomes[1682].dievals, DieVals::from_array([6, 6, 6, 6, 6]));
    assert_eq!(t.outcomes[1682].mask.data, 0);
    assert_eq!(t.outcomes[1682].arrangements, 1);
    assert_eq!(idx_for_selection(31), 31);
    assert_eq!(idx_for_selection(3), 6);
    let none = t.outcomes_for_selection(0);
    assert_eq!(none.len(), 1);
    assert_eq!(none[0].dievals.data, 0);
    assert_eq!(none[0].mask.to_array(), [7, 7, 7, 7, 7]);
    let all = t.outcomes_for_selection(0b11111);
    assert_eq!(all.len(), 252);
    assert_eq!(all[0].dievals.to_array(), [1, 1, 1, 1, 1]);
    assert_eq!(all[0].arrangements, 1);
    assert_eq!(all[1].arrangements, 5);
    let total: u64 = all.iter().map(|o| o.arrangements as u64).sum();
    assert_eq!(total, 7776);
    let first = t.outcomes_for_selection(0b00001);
    assert_eq!(first.len(), 6);
    assert_eq!(first[0].dievals.to_array(), [1, 0, 0, 0, 0]);
    assert_eq!(first[0].mask.to_array(), [0, 7, 7, 7, 7]);
    assert_eq!(first[5].dievals.to_array(), [6, 0, 0, 0, 0]);
}

#[test]
fn selection_bits_name_the_rolled_dice() {
    let t = Tables::new();
    for sel in 0u8..32 {
        let outcomes = t.outcomes_for_selection(sel);
        let rolled = sel.count_ones();
        let expected: u64 = match rolled { 0 => 1, 1 => 6, 2 => 21, 3 => 56, 4 => 126, _ => 252 };
        assert_eq!(outcomes.len() as u64, expected);
        for o in outcomes {
            let mask = o.mask.to_array();
            let dice = o.dievals.to_array();
            for i in 0..5 {
                if (sel >> i) & 1 == 1 {
                    assert_eq!(mask[i], 0);
                    assert!((1..=6).contains(&dice[i]));
                } else {
                    assert_eq!(mask[i], 7);
                    assert_eq!(dice[i], 0);
                }
            }
        }
    }
    // 0b01000 rolls the die at index 3 only
    let second = t.outcomes_for_selection(0b01000);
    assert_eq!(second[0].mask.to_array(), [7, 7, 7, 0, 7]);
}

#[test]
fn outcome_weights_per_selection() {
    let t = Tables::new();
    for sel in 0u8..32 {
        let outcomes = t.outcomes_for_selection(sel);
        let rolled = outcomes[0].mask.to_array().iter().filter(|&&m| m == 0).count() as u32;
        let total: u64 = outcomes.iter().map(|o| o.arrangements as u64).sum();
        assert_eq!(total, 6u64.pow(rolled));
    }
}
