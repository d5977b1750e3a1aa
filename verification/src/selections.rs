use vstd::prelude::*;
use crate::enumeration::{combos, prepend_all, multichoose};
use crate::tables::{die_positions, index_combos_spec, idx_for_selection_spec, range_start, lemma_selection_count};

verus! {

/// The die positions whose bits are set in `bits`, from position `p` on,
/// bit `j` of `bits` standing for position `p + j`.
pub open spec fn positions_from(bits: int, p: int) -> Seq<u8>
    decreases 5 - p,
{
    if p < 0 || p >= 5 {
        Seq::empty()
    } else if bits % 2 == 1 {
        seq![p as u8] + positions_from(bits / 2, p + 1)
    } else {
        positions_from(bits / 2, p + 1)
    }
}

/// The die positions a selection bitfield rolls: bit `i` set means die `i`
/// is rolled, listed in increasing order.
pub open spec fn selected_positions(selection: int) -> Seq<u8> {
    positions_from(selection, 0)
}

proof fn lemma_combos_from_5()
    ensures
        combos(Seq::<u8>::empty(), 0) == seq![Seq::<u8>::empty()],
        combos(Seq::<u8>::empty(), 1) == Seq::<Seq<u8>>::empty(),
        combos(Seq::<u8>::empty(), 2) == Seq::<Seq<u8>>::empty(),
        combos(Seq::<u8>::empty(), 3) == Seq::<Seq<u8>>::empty(),
        combos(Seq::<u8>::empty(), 4) == Seq::<Seq<u8>>::empty(),
        combos(Seq::<u8>::empty(), 5) == Seq::<Seq<u8>>::empty(),
{

}

proof fn lemma_combos_from_4()
    ensures
        combos(seq![4u8], 0) == seq![Seq::<u8>::empty()],
        combos(seq![4u8], 1) == seq![seq![4u8]],
        combos(seq![4u8], 2) == Seq::<Seq<u8>>::empty(),
        combos(seq![4u8], 3) == Seq::<Seq<u8>>::empty(),
        combos(seq![4u8], 4) == Seq::<Seq<u8>>::empty(),
        combos(seq![4u8], 5) == Seq::<Seq<u8>>::empty(),
{
    lemma_combos_from_5();
    let s = seq![4u8];
    assert(s.drop_first() =~= Seq::<u8>::empty());
    assert(prepend_all(4u8, seq![Seq::<u8>::empty()]) =~~= seq![seq![4u8]]);
    assert(combos(s, 1) =~~= seq![seq![4u8]]);
    assert(prepend_all(4u8, Seq::<Seq<u8>>::empty()) =~~= Seq::<Seq<u8>>::empty());
    assert(combos(s, 2) =~~= Seq::<Seq<u8>>::empty());
    assert(prepend_all(4u8, Seq::<Seq<u8>>::empty()) =~~= Seq::<Seq<u8>>::empty());
    assert(combos(s, 3) =~~= Seq::<Seq<u8>>::empty());
    assert(prepend_all(4u8, Seq::<Seq<u8>>::empty()) =~~= Seq::<Seq<u8>>::empty());
    assert(combos(s, 4) =~~= Seq::<Seq<u8>>::empty());
    assert(prepend_all(4u8, Seq::<Seq<u8>>::empty()) =~~= Seq::<Seq<u8>>::empty());
    assert(combos(s, 5) =~~= Seq::<Seq<u8>>::empty());
}

proof fn lemma_combos_from_3()
    ensures
        combos(seq![3u8, 4], 0) == seq![Seq::<u8>::empty()],
        combos(seq![3u8, 4], 1) == seq![seq![3u8], seq![4u8]],
        combos(seq![3u8, 4], 2) == seq![seq![3u8, 4]],
        combos(seq![3u8, 4], 3) == Seq::<Seq<u8>>::empty(),
        combos(seq![3u8, 4], 4) == Seq::<Seq<u8>>::empty(),
        combos(seq![3u8, 4], 5) == Seq::<Seq<u8>>::empty(),
{
    lemma_combos_from_4();
    let s = seq![3u8, 4];
    assert(s.drop_first() =~= seq![4u8]);
    assert(prepend_all(3u8, seq![Seq::<u8>::empty()]) =~~= seq![seq![3u8]]);
    assert(combos(s, 1) =~~= seq![seq![3u8], seq![4u8]]);
    assert(prepend_all(3u8, seq![seq![4u8]]) =~~= seq![seq![3u8, 4]]);
    assert(combos(s, 2) =~~= seq![seq![3u8, 4]]);
    assert(prepend_all(3u8, Seq::<Seq<u8>>::empty()) =~~= Seq::<Seq<u8>>::empty());
    assert(combos(s, 3) =~~= Seq::<Seq<u8>>::empty());
    assert(prepend_all(3u8, Seq::<Seq<u8>>::empty()) =~~= Seq::<Seq<u8>>::empty());
    assert(combos(s, 4) =~~= Seq::<Seq<u8>>::empty());
    assert(prepend_all(3u8, Seq::<Seq<u8>>::empty()) =~~= Seq::<Seq<u8>>::empty());
    assert(combos(s, 5) =~~= Seq::<Seq<u8>>::empty());
}

proof fn lemma_combos_from_2()
    ensures
        combos(seq![2u8, 3, 4], 0) == seq![Seq::<u8>::empty()],
        combos(seq![2u8, 3, 4], 1) == seq![seq![2u8], seq![3u8], seq![4u8]],
        combos(seq![2u8, 3, 4], 2) == seq![seq![2u8, 3], seq![2u8, 4], seq![3u8, 4]],
        combos(seq![2u8, 3, 4], 3) == seq![seq![2u8, 3, 4]],
        combos(seq![2u8, 3, 4], 4) == Seq::<Seq<u8>>::empty(),
        combos(seq![2u8, 3, 4], 5) == Seq::<Seq<u8>>::empty(),
{
    lemma_combos_from_3();
    let s = seq![2u8, 3, 4];
    assert(s.drop_first() =~= seq![3u8, 4]);
    assert(prepend_all(2u8, seq![Seq::<u8>::empty()]) =~~= seq![seq![2u8]]);
    assert(combos(s, 1) =~~= seq![seq![2u8], seq![3u8], seq![4u8]]);
    assert(prepend_all(2u8, seq![seq![3u8], seq![4u8]]) =~~= seq![seq![2u8, 3], seq![2u8, 4]]);
    assert(combos(s, 2) =~~= seq![seq![2u8, 3], seq![2u8, 4], seq![3u8, 4]]);
    assert(prepend_all(2u8, seq![seq![3u8, 4]]) =~~= seq![seq![2u8, 3, 4]]);
    assert(combos(s, 3) =~~= seq![seq![2u8, 3, 4]]);
    assert(prepend_all(2u8, Seq::<Seq<u8>>::empty()) =~~= Seq::<Seq<u8>>::empty());
    assert(combos(s, 4) =~~= Seq::<Seq<u8>>::empty());
    assert(prepend_all(2u8, Seq::<Seq<u8>>::empty()) =~~= Seq::<Seq<u8>>::empty());
    assert(combos(s, 5) =~~= Seq::<Seq<u8>>::empty());
}

proof fn lemma_combos_from_1()
    ensures
        combos(seq![1u8, 2, 3, 4], 0) == seq![Seq::<u8>::empty()],
        combos(seq![1u8, 2, 3, 4], 1) == seq![seq![1u8], seq![2u8], seq![3u8], seq![4u8]],
        combos(seq![1u8, 2, 3, 4], 2) == seq![seq![1u8, 2], seq![1u8, 3], seq![1u8, 4], seq![2u8, 3], seq![2u8, 4], seq![3u8, 4]],
        combos(seq![1u8, 2, 3, 4], 3) == seq![seq![1u8, 2, 3], seq![1u8, 2, 4], seq![1u8, 3, 4], seq![2u8, 3, 4]],
        combos(seq![1u8, 2, 3, 4], 4) == seq![seq![1u8, 2, 3, 4]],
        combos(seq![1u8, 2, 3, 4], 5) == Seq::<Seq<u8>>::empty(),
{
    lemma_combos_from_2();
    let s = seq![1u8, 2, 3, 4];
    assert(s.drop_first() =~= seq![2u8, 3, 4]);
    assert(prepend_all(1u8, seq![Seq::<u8>::empty()]) =~~= seq![seq![1u8]]);
    assert(combos(s, 1) =~~= seq![seq![1u8], seq![2u8], seq![3u8], seq![4u8]]);
    assert(prepend_all(1u8, seq![seq![2u8], seq![3u8], seq![4u8]]) =~~= seq![seq![1u8, 2], seq![1u8, 3], seq![1u8, 4]]);
    assert(combos(s, 2) =~~= seq![seq![1u8, 2], seq![1u8, 3], seq![1u8, 4], seq![2u8, 3], seq![2u8, 4], seq![3u8, 4]]);
    assert(prepend_all(1u8, seq![seq![2u8, 3], seq![2u8, 4], seq![3u8, 4]]) =~~= seq![seq![1u8, 2, 3], seq![1u8, 2, 4], seq![1u8, 3, 4]]);
    assert(combos(s, 3) =~~= seq![seq![1u8, 2, 3], seq![1u8, 2, 4], seq![1u8, 3, 4], seq![2u8, 3, 4]]);
    assert(prepend_all(1u8, seq![seq![2u8, 3, 4]]) =~~= seq![seq![1u8, 2, 3, 4]]);
    assert(combos(s, 4) =~~= seq![seq![1u8, 2, 3, 4]]);
    assert(prepend_all(1u8, Seq::<Seq<u8>>::empty()) =~~= Seq::<Seq<u8>>::empty());
    assert(combos(s, 5) =~~= Seq::<Seq<u8>>::empty());
}

proof fn lemma_combos_from_0()
    ensures
        combos(seq![0u8, 1, 2, 3, 4], 0) == seq![Seq::<u8>::empty()],
        combos(seq![0u8, 1, 2, 3, 4], 1) == seq![seq![0u8], seq![1u8], seq![2u8], seq![3u8], seq![4u8]],
        combos(seq![0u8, 1, 2, 3, 4], 2) == seq![seq![0u8, 1], seq![0u8, 2], seq![0u8, 3], seq![0u8, 4], seq![1u8, 2], seq![1u8, 3], seq![1u8, 4], seq![2u8, 3], seq![2u8, 4], seq![3u8, 4]],
        combos(seq![0u8, 1, 2, 3, 4], 3) == seq![seq![0u8, 1, 2], seq![0u8, 1, 3], seq![0u8, 1, 4], seq![0u8, 2, 3], seq![0u8, 2, 4], seq![0u8, 3, 4], seq![1u8, 2, 3], seq![1u8, 2, 4], seq![1u8, 3, 4], seq![2u8, 3, 4]],
        combos(seq![0u8, 1, 2, 3, 4], 4) == seq![seq![0u8, 1, 2, 3], seq![0u8, 1, 2, 4], seq![0u8, 1, 3, 4], seq![0u8, 2, 3, 4], seq![1u8, 2, 3, 4]],
        combos(seq![0u8, 1, 2, 3, 4], 5) == seq![seq![0u8, 1, 2, 3, 4]],
{
    lemma_combos_from_1();
    let s = seq![0u8, 1, 2, 3, 4];
    assert(s.drop_first() =~= seq![1u8, 2, 3, 4]);
    assert(prepend_all(0u8, seq![Seq::<u8>::empty()]) =~~= seq![seq![0u8]]);
    assert(combos(s, 1) =~~= seq![seq![0u8], seq![1u8], seq![2u8], seq![3u8], seq![4u8]]);
    assert(prepend_all(0u8, seq![seq![1u8], seq![2u8], seq![3u8], seq![4u8]]) =~~= seq![seq![0u8, 1], seq![0u8, 2], seq![0u8, 3], seq![0u8, 4]]);
    assert(combos(s, 2) =~~= seq![seq![0u8, 1], seq![0u8, 2], seq![0u8, 3], seq![0u8, 4], seq![1u8, 2], seq![1u8, 3], seq![1u8, 4], seq![2u8, 3], seq![2u8, 4], seq![3u8, 4]]);
    assert(prepend_all(0u8, seq![seq![1u8, 2], seq![1u8, 3], seq![1u8, 4], seq![2u8, 3], seq![2u8, 4], seq![3u8, 4]]) =~~= seq![seq![0u8, 1, 2], seq![0u8, 1, 3], seq![0u8, 1, 4], seq![0u8, 2, 3], seq![0u8, 2, 4], seq![0u8, 3, 4]]);
    assert(combos(s, 3) =~~= seq![seq![0u8, 1, 2], seq![0u8, 1, 3], seq![0u8, 1, 4], seq![0u8, 2, 3], seq![0u8, 2, 4], seq![0u8, 3, 4], seq![1u8, 2, 3], seq![1u8, 2, 4], seq![1u8, 3, 4], seq![2u8, 3, 4]]);
    assert(prepend_all(0u8, seq![seq![1u8, 2, 3], seq![1u8, 2, 4], seq![1u8, 3, 4], seq![2u8, 3, 4]]) =~~= seq![seq![0u8, 1, 2, 3], seq![0u8, 1, 2, 4], seq![0u8, 1, 3, 4], seq![0u8, 2, 3, 4]]);
    assert(combos(s, 4) =~~= seq![seq![0u8, 1, 2, 3], seq![0u8, 1, 2, 4], seq![0u8, 1, 3, 4], seq![0u8, 2, 3, 4], seq![1u8, 2, 3, 4]]);
    assert(prepend_all(0u8, seq![seq![1u8, 2, 3, 4]]) =~~= seq![seq![0u8, 1, 2, 3, 4]]);
    assert(combos(s, 5) =~~= seq![seq![0u8, 1, 2, 3, 4]]);
}

/// The ways to pick dice, listed: the empty pick, then by size, each size
/// in lexicographic order.
proof fn lemma_index_combos_listed()
    ensures
        index_combos_spec() == seq![Seq::<u8>::empty(), seq![0u8], seq![1u8], seq![2u8], seq![3u8], seq![4u8], seq![0u8, 1], seq![0u8, 2], seq![0u8, 3], seq![0u8, 4], seq![1u8, 2], seq![1u8, 3], seq![1u8, 4], seq![2u8, 3], seq![2u8, 4], seq![3u8, 4], seq![0u8, 1, 2], seq![0u8, 1, 3], seq![0u8, 1, 4], seq![0u8, 2, 3], seq![0u8, 2, 4], seq![0u8, 3, 4], seq![1u8, 2, 3], seq![1u8, 2, 4], seq![1u8, 3, 4], seq![2u8, 3, 4], seq![0u8, 1, 2, 3], seq![0u8, 1, 2, 4], seq![0u8, 1, 3, 4], seq![0u8, 2, 3, 4], seq![1u8, 2, 3, 4], seq![0u8, 1, 2, 3, 4]],
{
    lemma_combos_from_0();
    assert(die_positions() =~= seq![0u8, 1, 2, 3, 4]);
    assert(index_combos_spec() =~~= seq![Seq::<u8>::empty(), seq![0u8], seq![1u8], seq![2u8], seq![3u8], seq![4u8], seq![0u8, 1], seq![0u8, 2], seq![0u8, 3], seq![0u8, 4], seq![1u8, 2], seq![1u8, 3], seq![1u8, 4], seq![2u8, 3], seq![2u8, 4], seq![3u8, 4], seq![0u8, 1, 2], seq![0u8, 1, 3], seq![0u8, 1, 4], seq![0u8, 2, 3], seq![0u8, 2, 4], seq![0u8, 3, 4], seq![1u8, 2, 3], seq![1u8, 2, 4], seq![1u8, 3, 4], seq![2u8, 3, 4], seq![0u8, 1, 2, 3], seq![0u8, 1, 2, 4], seq![0u8, 1, 3, 4], seq![0u8, 2, 3, 4], seq![1u8, 2, 3, 4], seq![0u8, 1, 2, 3, 4]]);
}

#[verifier::spinoff_prover]
#[verifier::rlimit(30)]
proof fn lemma_selected_positions_0(selection: int)
    requires
        0 <= selection < 4,
    ensures
        index_combos_spec()[idx_for_selection_spec(selection)] == selected_positions(selection),
{
    lemma_index_combos_listed();
    reveal_with_fuel(positions_from, 6);
    if selection == 0 {
        assert(selected_positions(0) =~= Seq::<u8>::empty());
    } else if selection == 1 {
        assert(selected_positions(1) =~= seq![0u8]);
    } else if selection == 2 {
        assert(selected_positions(2) =~= seq![1u8]);
    } else if selection == 3 {
        assert(selected_positions(3) =~= seq![0u8, 1]);
    }
}

#[verifier::spinoff_prover]
#[verifier::rlimit(30)]
proof fn lemma_selected_positions_1(selection: int)
    requires
        4 <= selection < 8,
    ensures
        index_combos_spec()[idx_for_selection_spec(selection)] == selected_positions(selection),
{
    lemma_index_combos_listed();
    reveal_with_fuel(positions_from, 6);
    if selection == 4 {
        assert(selected_positions(4) =~= seq![2u8]);
    } else if selection == 5 {
        assert(selected_positions(5) =~= seq![0u8, 2]);
    } else if selection == 6 {
        assert(selected_positions(6) =~= seq![1u8, 2]);
    } else if selection == 7 {
        assert(selected_positions(7) =~= seq![0u8, 1, 2]);
    }
}

#[verifier::spinoff_prover]
#[verifier::rlimit(30)]
proof fn lemma_selected_positions_2(selection: int)
    requires
        8 <= selection < 12,
    ensures
        index_combos_spec()[idx_for_selection_spec(selection)] == selected_positions(selection),
{
    lemma_index_combos_listed();
    reveal_with_fuel(positions_from, 6);
    if selection == 8 {
        assert(selected_positions(8) =~= seq![3u8]);
    } else if selection == 9 {
        assert(selected_positions(9) =~= seq![0u8, 3]);
    } else if selection == 10 {
        assert(selected_positions(10) =~= seq![1u8, 3]);
    } else if selection == 11 {
        assert(selected_positions(11) =~= seq![0u8, 1, 3]);
    }
}

#[verifier::spinoff_prover]
#[verifier::rlimit(30)]
proof fn lemma_selected_positions_3(selection: int)
    requires
        12 <= selection < 16,
    ensures
        index_combos_spec()[idx_for_selection_spec(selection)] == selected_positions(selection),
{
    lemma_index_combos_listed();
    reveal_with_fuel(positions_from, 6);
    if selection == 12 {
        assert(selected_positions(12) =~= seq![2u8, 3]);
    } else if selection == 13 {
        assert(selected_positions(13) =~= seq![0u8, 2, 3]);
    } else if selection == 14 {
        assert(selected_positions(14) =~= seq![1u8, 2, 3]);
    } else if selection == 15 {
        assert(selected_positions(15) =~= seq![0u8, 1, 2, 3]);
    }
}

#[verifier::spinoff_prover]
#[verifier::rlimit(30)]
proof fn lemma_selected_positions_4(selection: int)
    requires
        16 <= selection < 20,
    ensures
        index_combos_spec()[idx_for_selection_spec(selection)] == selected_positions(selection),
{
    lemma_index_combos_listed();
    reveal_with_fuel(positions_from, 6);
    if selection == 16 {
        assert(selected_positions(16) =~= seq![4u8]);
    } else if selection == 17 {
        assert(selected_positions(17) =~= seq![0u8, 4]);
    } else if selection == 18 {
        assert(selected_positions(18) =~= seq![1u8, 4]);
    } else if selection == 19 {
        assert(selected_positions(19) =~= seq![0u8, 1, 4]);
    }
}

#[verifier::spinoff_prover]
#[verifier::rlimit(30)]
proof fn lemma_selected_positions_5(selection: int)
    requires
        20 <= selection < 24,
    ensures
        index_combos_spec()[idx_for_selection_spec(selection)] == selected_positions(selection),
{
    lemma_index_combos_listed();
    reveal_with_fuel(positions_from, 6);
    if selection == 20 {
        assert(selected_positions(20) =~= seq![2u8, 4]);
    } else if selection == 21 {
        assert(selected_positions(21) =~= seq![0u8, 2, 4]);
    } else if selection == 22 {
        assert(selected_positions(22) =~= seq![1u8, 2, 4]);
    } else if selection == 23 {
        assert(selected_positions(23) =~= seq![0u8, 1, 2, 4]);
    }
}

#[verifier::spinoff_prover]
#[verifier::rlimit(30)]
proof fn lemma_selected_positions_6(selection: int)
    requires
        24 <= selection < 28,
    ensures
        index_combos_spec()[idx_for_selection_spec(selection)] == selected_positions(selection),
{
    lemma_index_combos_listed();
    reveal_with_fuel(positions_from, 6);
    if selection == 24 {
        assert(selected_positions(24) =~= seq![3u8, 4]);
    } else if selection == 25 {
        assert(selected_positions(25) =~= seq![0u8, 3, 4]);
    } else if selection == 26 {
        assert(selected_positions(26) =~= seq![1u8, 3, 4]);
    } else if selection == 27 {
        assert(selected_positions(27) =~= seq![0u8, 1, 3, 4]);
    }
}

#[verifier::spinoff_prover]
#[verifier::rlimit(30)]
proof fn lemma_selected_positions_7(selection: int)
    requires
        28 <= selection < 32,
    ensures
        index_combos_spec()[idx_for_selection_spec(selection)] == selected_positions(selection),
{
    lemma_index_combos_listed();
    reveal_with_fuel(positions_from, 6);
    if selection == 28 {
        assert(selected_positions(28) =~= seq![2u8, 3, 4]);
    } else if selection == 29 {
        assert(selected_positions(29) =~= seq![0u8, 2, 3, 4]);
    } else if selection == 30 {
        assert(selected_positions(30) =~= seq![1u8, 2, 3, 4]);
    } else if selection == 31 {
        assert(selected_positions(31) =~= seq![0u8, 1, 2, 3, 4]);
    }
}

/// The outcome table holds 1683 outcomes: one for the empty pick, and for
/// each pick of `k` dice one per multiset of `k` faces.
pub proof fn lemma_outcome_count()
    ensures
        range_start(index_combos_spec(), 32) == 1683,
{
    lemma_index_combos_listed();
    let cs = index_combos_spec();
    reveal_with_fuel(multichoose, 12);
    assert(multichoose(6, 1) == 6);
    assert(multichoose(6, 2) == 21);
    assert(multichoose(6, 3) == 56);
    assert(multichoose(6, 4) == 126);
    assert(multichoose(6, 5) == 252);
    lemma_selection_count(0);
    lemma_selection_count(1);
    lemma_selection_count(2);
    lemma_selection_count(3);
    lemma_selection_count(4);
    lemma_selection_count(5);
    assert(range_start(cs, 0) == 0);
    assert(range_start(cs, 1) == 1);
    assert(range_start(cs, 2) == 7);
    assert(range_start(cs, 3) == 13);
    assert(range_start(cs, 4) == 19);
    assert(range_start(cs, 5) == 25);
    assert(range_start(cs, 6) == 31);
    assert(range_start(cs, 7) == 52);
    assert(range_start(cs, 8) == 73);
    assert(range_start(cs, 9) == 94);
    assert(range_start(cs, 10) == 115);
    assert(range_start(cs, 11) == 136);
    assert(range_start(cs, 12) == 157);
    assert(range_start(cs, 13) == 178);
    assert(range_start(cs, 14) == 199);
    assert(range_start(cs, 15) == 220);
    assert(range_start(cs, 16) == 241);
    assert(range_start(cs, 17) == 297);
    assert(range_start(cs, 18) == 353);
    assert(range_start(cs, 19) == 409);
    assert(range_start(cs, 20) == 465);
    assert(range_start(cs, 21) == 521);
    assert(range_start(cs, 22) == 577);
    assert(range_start(cs, 23) == 633);
    assert(range_start(cs, 24) == 689);
    assert(range_start(cs, 25) == 745);
    assert(range_start(cs, 26) == 801);
    assert(range_start(cs, 27) == 927);
    assert(range_start(cs, 28) == 1053);
    assert(range_start(cs, 29) == 1179);
    assert(range_start(cs, 30) == 1305);
    assert(range_start(cs, 31) == 1431);
    assert(range_start(cs, 32) == 1683);
}

/// Each selection bitfield's table entry names the way to pick dice that
/// rolls exactly the dice whose bits are set.
pub proof fn lemma_idx_for_selection(selection: int)
    requires
        0 <= selection < 32,
    ensures
        index_combos_spec()[idx_for_selection_spec(selection)] == selected_positions(selection),
{
    if selection < 4 {
        lemma_selected_positions_0(selection);
    } else if selection < 8 {
        lemma_selected_positions_1(selection);
    } else if selection < 12 {
        lemma_selected_positions_2(selection);
    } else if selection < 16 {
        lemma_selected_positions_3(selection);
    } else if selection < 20 {
        lemma_selected_positions_4(selection);
    } else if selection < 24 {
        lemma_selected_positions_5(selection);
    } else if selection < 28 {
        lemma_selected_positions_6(selection);
    } else if selection < 32 {
        lemma_selected_positions_7(selection);
    }
}

} // verus!
