use vstd::prelude::*;
use vstd::string::StringExecFns;
use crate::dievals::{DieVals, DieValsID};
use crate::game_state::GameState;
use crate::sorted_slots::{SortedSlots, slot_seq};
use crate::tables::Tables;

verus! {

/// The character of decimal digit `d`.
pub open spec fn digit_char(d: int) -> char {
    (('0' as int) + d) as char
}

/// The decimal digits of `n`, without leading zeros.
pub open spec fn decimal(n: nat) -> Seq<char>
    decreases n,
{
    if n < 10 {
        seq![digit_char(n as int)]
    } else {
        decimal(n / 10).push(digit_char((n % 10) as int))
    }
}

/// The binary digits of `n`, without leading zeros.
pub open spec fn binary(n: nat) -> Seq<char>
    decreases n,
{
    if n < 2 {
        seq![digit_char(n as int)]
    } else {
        binary(n / 2).push(digit_char((n % 2) as int))
    }
}

/// The binary digits of `n`, padded with zeros to at least five.
pub open spec fn binary5(n: nat) -> Seq<char> {
    let b = binary(n);
    if b.len() < 5 {
        Seq::new((5 - b.len()) as nat, |i: int| '0') + b
    } else {
        b
    }
}

/// The dice as text: five digits, the highest position first.
pub open spec fn dice_text(s: Seq<u8>) -> Seq<char> {
    seq![
        digit_char(s[4] as int),
        digit_char(s[3] as int),
        digit_char(s[2] as int),
        digit_char(s[1] as int),
        digit_char(s[0] as int),
    ]
}

/// The slots as text: each slot number followed by an underscore.
pub open spec fn slots_text(s: Seq<u8>) -> Seq<char>
    decreases s.len(),
{
    if s.len() == 0 {
        Seq::empty()
    } else {
        slots_text(s.drop_last()) + decimal(s.last() as nat) + seq!['_']
    }
}

/// Appends the digit `d`.
fn push_digit(s: &mut String, d: u8)
    requires
        d < 10,
    ensures
        final(s)@ == old(s)@.push(digit_char(d as int)),
{
    match d {
        0 => {
            proof {
                reveal_strlit("0");
            }
            s.append("0");
        },
        1 => {
            proof {
                reveal_strlit("1");
            }
            s.append("1");
        },
        2 => {
            proof {
                reveal_strlit("2");
            }
            s.append("2");
        },
        3 => {
            proof {
                reveal_strlit("3");
            }
            s.append("3");
        },
        4 => {
            proof {
                reveal_strlit("4");
            }
            s.append("4");
        },
        5 => {
            proof {
                reveal_strlit("5");
            }
            s.append("5");
        },
        6 => {
            proof {
                reveal_strlit("6");
            }
            s.append("6");
        },
        7 => {
            proof {
                reveal_strlit("7");
            }
            s.append("7");
        },
        8 => {
            proof {
                reveal_strlit("8");
            }
            s.append("8");
        },
        _ => {
            proof {
                reveal_strlit("9");
            }
            s.append("9");
        },
    }
}

/// Appends `n` in decimal.
fn push_decimal(s: &mut String, n: u8)
    ensures
        final(s)@ == old(s)@ + decimal(n as nat),
    decreases n,
{
    if n < 10 {
        push_digit(s, n);
        assert(old(s)@.push(digit_char(n as int)) =~= old(s)@ + decimal(n as nat));
    } else {
        push_decimal(s, n / 10);
        push_digit(s, n % 10);
        assert(old(s)@ + decimal((n / 10) as nat) + seq![digit_char((n % 10) as int)] =~= old(s)@
            + decimal(n as nat));
    }
}

/// Appends `n` in binary, padded to five digits.
fn push_binary5(s: &mut String, n: u8)
    ensures
        final(s)@ == old(s)@ + binary5(n as nat),
{
    let mut digits: Vec<u8> = Vec::new();
    let mut m: u8 = n;
    // The digits of `n`, lowest first.
    while m >= 2
        invariant
            binary(n as nat) == binary(m as nat) + Seq::new(digits@.len(), |i: int| digit_char(digits@[digits@.len() - 1 - i] as int)),
            forall|i: int| 0 <= i < digits@.len() ==> digits@[i] < 2,
        decreases m,
    {
        let ghost before = digits@;
        digits.push(m % 2);
        assert(binary(m as nat) == binary((m / 2) as nat).push(digit_char((m % 2) as int)));
        assert(binary((m / 2) as nat) + Seq::new(digits@.len(), |i: int| digit_char(digits@[digits@.len() - 1 - i] as int)) =~= binary((m / 2) as nat).push(digit_char((m % 2) as int)) + Seq::new(before.len(), |i: int| digit_char(before[before.len() - 1 - i] as int)));
        m = m / 2;
    }
    digits.push(m);
    let ghost b = binary(n as nat);
    assert(b =~= Seq::new(digits@.len(), |i: int| digit_char(digits@[digits@.len() - 1 - i] as int)));
    let mut pad: usize = digits.len();
    let ghost start = s@;
    while pad < 5
        invariant
            digits.len() <= pad <= 5 || (pad == digits.len() && pad > 5),
            s@ == start + Seq::new((pad - digits.len()) as nat, |i: int| '0'),
        decreases 5 - pad,
    {
        push_digit(s, 0);
        assert(s@ =~= start + Seq::new((pad + 1 - digits.len()) as nat, |i: int| '0'));
        pad = pad + 1;
    }
    let ghost padded = s@;
    let mut k: usize = digits.len();
    while k > 0
        invariant
            k <= digits.len(),
            forall|i: int| 0 <= i < digits@.len() ==> digits@[i] < 2,
            s@ == padded + Seq::new((digits.len() - k) as nat, |i: int| digit_char(digits@[digits@.len() - 1 - i] as int)),
        decreases k,
    {
        k = k - 1;
        push_digit(s, digits[k]);
        assert(s@ =~= padded + Seq::new((digits.len() - k) as nat, |i: int| digit_char(digits@[digits@.len() - 1 - i] as int)));
    }
    assert(padded + Seq::new(digits.len() as nat, |i: int| digit_char(digits@[digits@.len() - 1 - i] as int)) =~= old(s)@ + binary5(n as nat));
}

impl DieVals {
    /// The dice as text: five digits, the highest position first.
    pub fn to_string(&self) -> (r: String)
        ensures
            r@ == dice_text(self@),
    {
        let mut r = String::new();
        push_digit(&mut r, self.get(4));
        push_digit(&mut r, self.get(3));
        push_digit(&mut r, self.get(2));
        push_digit(&mut r, self.get(1));
        push_digit(&mut r, self.get(0));
        assert(r@ =~= dice_text(self@));
        r
    }
}

impl SortedSlots {
    /// The slots as text: each slot number followed by an underscore, in
    /// increasing order.
    pub fn to_string(&self) -> (r: String)
        ensures
            r@ == slots_text(slot_seq(self.data)),
    {
        let slots = self.slots();
        let mut r = String::new();
        let mut i: usize = 0;
        proof {
            assert(slots@.subrange(0, 0) =~= Seq::<u8>::empty());
        }
        while i < slots.len()
            invariant
                i <= slots@.len(),
                r@ == slots_text(slots@.subrange(0, i as int)),
            decreases slots@.len() - i,
        {
            push_decimal(&mut r, slots[i]);
            proof {
                reveal_strlit("_");
            }
            r.append("_");
            assert(slots@.subrange(0, i + 1).drop_last() =~= slots@.subrange(0, i as int));
            i = i + 1;
        }
        assert(slots@.subrange(0, i as int) =~= slots@);
        r
    }
}

impl Tables {
    /// The dice of a sorted-combination id as text.
    pub fn dievals_id_to_string(&self, id: DieValsID) -> (r: String)
        requires
            self.wf(),
            id.data < 253,
        ensures
            r@ == dice_text(self.dievals_for_dievals_id@[id.data as int]@),
    {
        self.dievals_for_id(id).to_string()
    }
}

/// A line of the solver's output up to the expected value: the choice type
/// (`S` for a slot choice with no rolls left, `D` for a dice selection), the
/// choice (a slot number, or five binary digits for the dice to roll), the
/// dice, the rolls left, the upper total, `Y` when the Yahtzee bonus is
/// available, and the open slots, each followed by a comma.
pub open spec fn state_choice_prefix_spec(state: GameState, choice: u8, dice: Seq<u8>) -> Seq<char> {
    (if state.rolls_remaining == 0 {
        seq!['S', ','] + decimal(choice as nat)
    } else {
        seq!['D', ','] + binary5(choice as nat)
    }) + seq![','] + dice_text(dice) + seq![','] + decimal(state.rolls_remaining as nat) + seq![','] + decimal(state.upper_total as nat) + seq![','] + (if state.yahtzee_bonus_avail {
        seq!['Y']
    } else {
        Seq::empty()
    }) + seq![','] + slots_text(slot_seq(state.sorted_open_slots.data)) + seq![',']
}

/// Two to the power `j`.
pub open spec fn two_to(j: int) -> int
    decreases j,
{
    if j <= 0 {
        1
    } else {
        2 * two_to(j - 1)
    }
}

/// The character of bit `j` of `n`: '1' when it is set, '0' when not.
pub open spec fn bit_char(n: int, j: int) -> char {
    if (n / two_to(j)) % 2 == 1 {
        '1'
    } else {
        '0'
    }
}

#[verifier::spinoff_prover]
#[verifier::rlimit(30)]
proof fn lemma_binary5_digits_0(n: nat)
    requires
        0 <= n < 8,
    ensures
        binary5(n).len() == 5,
        binary5(n)[0] == bit_char(n as int, 4),
        binary5(n)[1] == bit_char(n as int, 3),
        binary5(n)[2] == bit_char(n as int, 2),
        binary5(n)[3] == bit_char(n as int, 1),
        binary5(n)[4] == bit_char(n as int, 0),
{
    reveal_with_fuel(binary, 6);
    assert(two_to(0) == 1);
    assert(two_to(1) == 2);
    assert(two_to(2) == 4);
    assert(two_to(3) == 8);
    assert(two_to(4) == 16);
    if n == 0 {
        assert(binary5(0) =~= seq!['0', '0', '0', '0', '0']);
        assert((0int / two_to(0)) % 2 == 0);
        assert((0int / two_to(1)) % 2 == 0);
        assert((0int / two_to(2)) % 2 == 0);
        assert((0int / two_to(3)) % 2 == 0);
        assert((0int / two_to(4)) % 2 == 0);
    } else if n == 1 {
        assert(binary5(1) =~= seq!['0', '0', '0', '0', '1']);
        assert((1int / two_to(0)) % 2 == 1);
        assert((1int / two_to(1)) % 2 == 0);
        assert((1int / two_to(2)) % 2 == 0);
        assert((1int / two_to(3)) % 2 == 0);
        assert((1int / two_to(4)) % 2 == 0);
    } else if n == 2 {
        assert(binary5(2) =~= seq!['0', '0', '0', '1', '0']);
        assert((2int / two_to(0)) % 2 == 0);
        assert((2int / two_to(1)) % 2 == 1);
        assert((2int / two_to(2)) % 2 == 0);
        assert((2int / two_to(3)) % 2 == 0);
        assert((2int / two_to(4)) % 2 == 0);
    } else if n == 3 {
        assert(binary5(3) =~= seq!['0', '0', '0', '1', '1']);
        assert((3int / two_to(0)) % 2 == 1);
        assert((3int / two_to(1)) % 2 == 1);
        assert((3int / two_to(2)) % 2 == 0);
        assert((3int / two_to(3)) % 2 == 0);
        assert((3int / two_to(4)) % 2 == 0);
    } else if n == 4 {
        assert(binary5(4) =~= seq!['0', '0', '1', '0', '0']);
        assert((4int / two_to(0)) % 2 == 0);
        assert((4int / two_to(1)) % 2 == 0);
        assert((4int / two_to(2)) % 2 == 1);
        assert((4int / two_to(3)) % 2 == 0);
        assert((4int / two_to(4)) % 2 == 0);
    } else if n == 5 {
        assert(binary5(5) =~= seq!['0', '0', '1', '0', '1']);
        assert((5int / two_to(0)) % 2 == 1);
        assert((5int / two_to(1)) % 2 == 0);
        assert((5int / two_to(2)) % 2 == 1);
        assert((5int / two_to(3)) % 2 == 0);
        assert((5int / two_to(4)) % 2 == 0);
    } else if n == 6 {
        assert(binary5(6) =~= seq!['0', '0', '1', '1', '0']);
        assert((6int / two_to(0)) % 2 == 0);
        assert((6int / two_to(1)) % 2 == 1);
        assert((6int / two_to(2)) % 2 == 1);
        assert((6int / two_to(3)) % 2 == 0);
        assert((6int / two_to(4)) % 2 == 0);
    } else if n == 7 {
        assert(binary5(7) =~= seq!['0', '0', '1', '1', '1']);
        assert((7int / two_to(0)) % 2 == 1);
        assert((7int / two_to(1)) % 2 == 1);
        assert((7int / two_to(2)) % 2 == 1);
        assert((7int / two_to(3)) % 2 == 0);
        assert((7int / two_to(4)) % 2 == 0);
    }
}

#[verifier::spinoff_prover]
#[verifier::rlimit(30)]
proof fn lemma_binary5_digits_1(n: nat)
    requires
        8 <= n < 16,
    ensures
        binary5(n).len() == 5,
        binary5(n)[0] == bit_char(n as int, 4),
        binary5(n)[1] == bit_char(n as int, 3),
        binary5(n)[2] == bit_char(n as int, 2),
        binary5(n)[3] == bit_char(n as int, 1),
        binary5(n)[4] == bit_char(n as int, 0),
{
    reveal_with_fuel(binary, 6);
    assert(two_to(0) == 1);
    assert(two_to(1) == 2);
    assert(two_to(2) == 4);
    assert(two_to(3) == 8);
    assert(two_to(4) == 16);
    if n == 8 {
        assert(binary5(8) =~= seq!['0', '1', '0', '0', '0']);
        assert((8int / two_to(0)) % 2 == 0);
        assert((8int / two_to(1)) % 2 == 0);
        assert((8int / two_to(2)) % 2 == 0);
        assert((8int / two_to(3)) % 2 == 1);
        assert((8int / two_to(4)) % 2 == 0);
    } else if n == 9 {
        assert(binary5(9) =~= seq!['0', '1', '0', '0', '1']);
        assert((9int / two_to(0)) % 2 == 1);
        assert((9int / two_to(1)) % 2 == 0);
        assert((9int / two_to(2)) % 2 == 0);
        assert((9int / two_to(3)) % 2 == 1);
        assert((9int / two_to(4)) % 2 == 0);
    } else if n == 10 {
        assert(binary5(10) =~= seq!['0', '1', '0', '1', '0']);
        assert((10int / two_to(0)) % 2 == 0);
        assert((10int / two_to(1)) % 2 == 1);
        assert((10int / two_to(2)) % 2 == 0);
        assert((10int / two_to(3)) % 2 == 1);
        assert((10int / two_to(4)) % 2 == 0);
    } else if n == 11 {
        assert(binary5(11) =~= seq!['0', '1', '0', '1', '1']);
        assert((11int / two_to(0)) % 2 == 1);
        assert((11int / two_to(1)) % 2 == 1);
        assert((11int / two_to(2)) % 2 == 0);
        assert((11int / two_to(3)) % 2 == 1);
        assert((11int / two_to(4)) % 2 == 0);
    } else if n == 12 {
        assert(binary5(12) =~= seq!['0', '1', '1', '0', '0']);
        assert((12int / two_to(0)) % 2 == 0);
        assert((12int / two_to(1)) % 2 == 0);
        assert((12int / two_to(2)) % 2 == 1);
        assert((12int / two_to(3)) % 2 == 1);
        assert((12int / two_to(4)) % 2 == 0);
    } else if n == 13 {
        assert(binary5(13) =~= seq!['0', '1', '1', '0', '1']);
        assert((13int / two_to(0)) % 2 == 1);
        assert((13int / two_to(1)) % 2 == 0);
        assert((13int / two_to(2)) % 2 == 1);
        assert((13int / two_to(3)) % 2 == 1);
        assert((13int / two_to(4)) % 2 == 0);
    } else if n == 14 {
        assert(binary5(14) =~= seq!['0', '1', '1', '1', '0']);
        assert((14int / two_to(0)) % 2 == 0);
        assert((14int / two_to(1)) % 2 == 1);
        assert((14int / two_to(2)) % 2 == 1);
        assert((14int / two_to(3)) % 2 == 1);
        assert((14int / two_to(4)) % 2 == 0);
    } else if n == 15 {
        assert(binary5(15) =~= seq!['0', '1', '1', '1', '1']);
        assert((15int / two_to(0)) % 2 == 1);
        assert((15int / two_to(1)) % 2 == 1);
        assert((15int / two_to(2)) % 2 == 1);
        assert((15int / two_to(3)) % 2 == 1);
        assert((15int / two_to(4)) % 2 == 0);
    }
}

#[verifier::spinoff_prover]
#[verifier::rlimit(30)]
proof fn lemma_binary5_digits_2(n: nat)
    requires
        16 <= n < 24,
    ensures
        binary5(n).len() == 5,
        binary5(n)[0] == bit_char(n as int, 4),
        binary5(n)[1] == bit_char(n as int, 3),
        binary5(n)[2] == bit_char(n as int, 2),
        binary5(n)[3] == bit_char(n as int, 1),
        binary5(n)[4] == bit_char(n as int, 0),
{
    reveal_with_fuel(binary, 6);
    assert(two_to(0) == 1);
    assert(two_to(1) == 2);
    assert(two_to(2) == 4);
    assert(two_to(3) == 8);
    assert(two_to(4) == 16);
    if n == 16 {
        assert(binary5(16) =~= seq!['1', '0', '0', '0', '0']);
        assert((16int / two_to(0)) % 2 == 0);
        assert((16int / two_to(1)) % 2 == 0);
        assert((16int / two_to(2)) % 2 == 0);
        assert((16int / two_to(3)) % 2 == 0);
        assert((16int / two_to(4)) % 2 == 1);
    } else if n == 17 {
        assert(binary5(17) =~= seq!['1', '0', '0', '0', '1']);
        assert((17int / two_to(0)) % 2 == 1);
        assert((17int / two_to(1)) % 2 == 0);
        assert((17int / two_to(2)) % 2 == 0);
        assert((17int / two_to(3)) % 2 == 0);
        assert((17int / two_to(4)) % 2 == 1);
    } else if n == 18 {
        assert(binary5(18) =~= seq!['1', '0', '0', '1', '0']);
        assert((18int / two_to(0)) % 2 == 0);
        assert((18int / two_to(1)) % 2 == 1);
        assert((18int / two_to(2)) % 2 == 0);
        assert((18int / two_to(3)) % 2 == 0);
        assert((18int / two_to(4)) % 2 == 1);
    } else if n == 19 {
        assert(binary5(19) =~= seq!['1', '0', '0', '1', '1']);
        assert((19int / two_to(0)) % 2 == 1);
        assert((19int / two_to(1)) % 2 == 1);
        assert((19int / two_to(2)) % 2 == 0);
        assert((19int / two_to(3)) % 2 == 0);
        assert((19int / two_to(4)) % 2 == 1);
    } else if n == 20 {
        assert(binary5(20) =~= seq!['1', '0', '1', '0', '0']);
        assert((20int / two_to(0)) % 2 == 0);
        assert((20int / two_to(1)) % 2 == 0);
        assert((20int / two_to(2)) % 2 == 1);
        assert((20int / two_to(3)) % 2 == 0);
        assert((20int / two_to(4)) % 2 == 1);
    } else if n == 21 {
        assert(binary5(21) =~= seq!['1', '0', '1', '0', '1']);
        assert((21int / two_to(0)) % 2 == 1);
        assert((21int / two_to(1)) % 2 == 0);
        assert((21int / two_to(2)) % 2 == 1);
        assert((21int / two_to(3)) % 2 == 0);
        assert((21int / two_to(4)) % 2 == 1);
    } else if n == 22 {
        assert(binary5(22) =~= seq!['1', '0', '1', '1', '0']);
        assert((22int / two_to(0)) % 2 == 0);
        assert((22int / two_to(1)) % 2 == 1);
        assert((22int / two_to(2)) % 2 == 1);
        assert((22int / two_to(3)) % 2 == 0);
        assert((22int / two_to(4)) % 2 == 1);
    } else if n == 23 {
        assert(binary5(23) =~= seq!['1', '0', '1', '1', '1']);
        assert((23int / two_to(0)) % 2 == 1);
        assert((23int / two_to(1)) % 2 == 1);
        assert((23int / two_to(2)) % 2 == 1);
        assert((23int / two_to(3)) % 2 == 0);
        assert((23int / two_to(4)) % 2 == 1);
    }
}

#[verifier::spinoff_prover]
#[verifier::rlimit(30)]
proof fn lemma_binary5_digits_3(n: nat)
    requires
        24 <= n < 32,
    ensures
        binary5(n).len() == 5,
        binary5(n)[0] == bit_char(n as int, 4),
        binary5(n)[1] == bit_char(n as int, 3),
        binary5(n)[2] == bit_char(n as int, 2),
        binary5(n)[3] == bit_char(n as int, 1),
        binary5(n)[4] == bit_char(n as int, 0),
{
    reveal_with_fuel(binary, 6);
    assert(two_to(0) == 1);
    assert(two_to(1) == 2);
    assert(two_to(2) == 4);
    assert(two_to(3) == 8);
    assert(two_to(4) == 16);
    if n == 24 {
        assert(binary5(24) =~= seq!['1', '1', '0', '0', '0']);
        assert((24int / two_to(0)) % 2 == 0);
        assert((24int / two_to(1)) % 2 == 0);
        assert((24int / two_to(2)) % 2 == 0);
        assert((24int / two_to(3)) % 2 == 1);
        assert((24int / two_to(4)) % 2 == 1);
    } else if n == 25 {
        assert(binary5(25) =~= seq!['1', '1', '0', '0', '1']);
        assert((25int / two_to(0)) % 2 == 1);
        assert((25int / two_to(1)) % 2 == 0);
        assert((25int / two_to(2)) % 2 == 0);
        assert((25int / two_to(3)) % 2 == 1);
        assert((25int / two_to(4)) % 2 == 1);
    } else if n == 26 {
        assert(binary5(26) =~= seq!['1', '1', '0', '1', '0']);
        assert((26int / two_to(0)) % 2 == 0);
        assert((26int / two_to(1)) % 2 == 1);
        assert((26int / two_to(2)) % 2 == 0);
        assert((26int / two_to(3)) % 2 == 1);
        assert((26int / two_to(4)) % 2 == 1);
    } else if n == 27 {
        assert(binary5(27) =~= seq!['1', '1', '0', '1', '1']);
        assert((27int / two_to(0)) % 2 == 1);
        assert((27int / two_to(1)) % 2 == 1);
        assert((27int / two_to(2)) % 2 == 0);
        assert((27int / two_to(3)) % 2 == 1);
        assert((27int / two_to(4)) % 2 == 1);
    } else if n == 28 {
        assert(binary5(28) =~= seq!['1', '1', '1', '0', '0']);
        assert((28int / two_to(0)) % 2 == 0);
        assert((28int / two_to(1)) % 2 == 0);
        assert((28int / two_to(2)) % 2 == 1);
        assert((28int / two_to(3)) % 2 == 1);
        assert((28int / two_to(4)) % 2 == 1);
    } else if n == 29 {
        assert(binary5(29) =~= seq!['1', '1', '1', '0', '1']);
        assert((29int / two_to(0)) % 2 == 1);
        assert((29int / two_to(1)) % 2 == 0);
        assert((29int / two_to(2)) % 2 == 1);
        assert((29int / two_to(3)) % 2 == 1);
        assert((29int / two_to(4)) % 2 == 1);
    } else if n == 30 {
        assert(binary5(30) =~= seq!['1', '1', '1', '1', '0']);
        assert((30int / two_to(0)) % 2 == 0);
        assert((30int / two_to(1)) % 2 == 1);
        assert((30int / two_to(2)) % 2 == 1);
        assert((30int / two_to(3)) % 2 == 1);
        assert((30int / two_to(4)) % 2 == 1);
    } else if n == 31 {
        assert(binary5(31) =~= seq!['1', '1', '1', '1', '1']);
        assert((31int / two_to(0)) % 2 == 1);
        assert((31int / two_to(1)) % 2 == 1);
        assert((31int / two_to(2)) % 2 == 1);
        assert((31int / two_to(3)) % 2 == 1);
        assert((31int / two_to(4)) % 2 == 1);
    }
}

/// A selection below 32 is written as its five bits, the highest first.
pub proof fn lemma_binary5_digits(n: nat)
    requires
        n < 32,
    ensures
        binary5(n).len() == 5,
        forall|i: int| 0 <= i < 5 ==> #[trigger] binary5(n)[i] == bit_char(n as int, 4 - i),
{
    if n < 8 {
        lemma_binary5_digits_0(n);
    } else if n < 16 {
        lemma_binary5_digits_1(n);
    } else if n < 24 {
        lemma_binary5_digits_2(n);
    } else {
        lemma_binary5_digits_3(n);
    }
    assert forall|i: int| 0 <= i < 5 implies #[trigger] binary5(n)[i] == bit_char(n as int, 4 - i) by {
        if i == 0 {
        } else if i == 1 {
        } else if i == 2 {
        } else if i == 3 {
        } else {
        }
    }
}

/// The decimal digits of a number are never empty.
proof fn lemma_decimal_nonempty(n: nat)
    ensures
        decimal(n).len() >= 1,
{
}

/// The kind of a line: it starts with 'S' exactly when no rolls remain (a
/// slot choice, written as the slot number) and with 'D' whenever one or
/// more rolls remain (a dice choice, written as the five bits of the
/// selection, die 4 first, each '1' for a rolled die).
pub proof fn lemma_choice_type(state: GameState, choice: u8, dice: Seq<u8>)
    ensures
        ({
            let line = state_choice_prefix_spec(state, choice, dice);
            &&& line[0] == 'S' <==> state.rolls_remaining == 0
            &&& line[0] == 'D' <==> state.rolls_remaining != 0
            &&& line[1] == ','
            &&& state.rolls_remaining == 0 ==> line.subrange(2, 2 + decimal(choice as nat).len() as int)
                == decimal(choice as nat) && line[2 + decimal(choice as nat).len() as int] == ','
            &&& state.rolls_remaining != 0 && choice < 32 ==> (forall|i: int|
                0 <= i < 5 ==> #[trigger] line[2 + i] == bit_char(choice as int, 4 - i)) && line[7] == ','
        }),
{
    let line = state_choice_prefix_spec(state, choice, dice);
    lemma_decimal_nonempty(choice as nat);
    if state.rolls_remaining == 0 {
        let a = seq!['S', ','] + decimal(choice as nat);
        assert(line.subrange(0, a.len() as int) =~= a);
        assert(line[a.len() as int] == ',');
        assert(line.subrange(2, 2 + decimal(choice as nat).len() as int) =~= decimal(choice as nat)) by {
            assert forall|i: int| 0 <= i < decimal(choice as nat).len() implies line[2 + i] == decimal(choice as nat)[i] by {
                assert(line[2 + i] == line.subrange(0, a.len() as int)[2 + i]);
            }
        }
    } else {
        let a = seq!['D', ','] + binary5(choice as nat);
        assert(line.subrange(0, a.len() as int) =~= a);
        if choice < 32 {
            lemma_binary5_digits(choice as nat);
            assert(line[a.len() as int] == ',');
            assert forall|i: int| 0 <= i < 5 implies #[trigger] line[2 + i] == bit_char(choice as int, 4 - i) by {
                assert(line[2 + i] == line.subrange(0, a.len() as int)[2 + i]);
                assert(a[2 + i] == binary5(choice as nat)[i]);
            }
        }
    }
}

/// The text of a state and its best choice, up to (not including) the
/// expected value.
pub fn state_choice_prefix(tables: &Tables, state: &GameState, choice: u8) -> (r: String)
    requires
        tables.wf(),
        state.sorted_dievals.data < 253,
    ensures
        r@ == state_choice_prefix_spec(*state, choice, tables.dievals_for_dievals_id@[state.sorted_dievals.data as int]@),
{
    let mut r = String::new();
    proof {
        reveal_strlit("S,");
        reveal_strlit("D,");
        reveal_strlit(",");
        reveal_strlit("Y");
    }
    if state.rolls_remaining == 0 {
        r.append("S,");
        push_decimal(&mut r, choice);
    } else {
        r.append("D,");
        push_binary5(&mut r, choice);
    }
    r.append(",");
    r.append(tables.dievals_id_to_string(state.sorted_dievals).as_str());
    r.append(",");
    push_decimal(&mut r, state.rolls_remaining);
    r.append(",");
    push_decimal(&mut r, state.upper_total);
    r.append(",");
    if state.yahtzee_bonus_avail {
        r.append("Y");
    }
    r.append(",");
    r.append(state.sorted_open_slots.to_string().as_str());
    r.append(",");
    assert(r@ =~= state_choice_prefix_spec(*state, choice, tables.dievals_for_dievals_id@[state.sorted_dievals.data as int]@));
    r
}

} // verus!
