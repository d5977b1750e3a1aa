use vstd::prelude::*;
use vstd::std_specs::bits::{u16_leading_zeros, axiom_u16_leading_zeros};

verus! {

/// A scorecard slot, numbered by its position on the card: 1 is ACES, 13 is
/// CHANCE.
pub type Slot = u8;

pub const STUB: Slot = 0;
pub const ACES: Slot = 1;
pub const TWOS: Slot = 2;
pub const THREES: Slot = 3;
pub const FOURS: Slot = 4;
pub const FIVES: Slot = 5;
pub const SIXES: Slot = 6;
pub const THREE_OF_A_KIND: Slot = 7;
pub const FOUR_OF_A_KIND: Slot = 8;
pub const FULL_HOUSE: Slot = 9;
pub const SM_STRAIGHT: Slot = 10;
pub const LG_STRAIGHT: Slot = 11;
pub const YAHTZEE: Slot = 12;
pub const CHANCE: Slot = 13;

/// Whether bit `v` of `data` is set.
pub open spec fn bit_set(data: u16, v: int) -> bool {
    0 <= v < 16 && (data >> (v as u16)) & 1u16 == 1u16
}

/// A set of slots, slot `v` held as bit `v` of `data`.
#[derive(Clone, Copy, Debug, PartialEq, Eq, Hash, PartialOrd, Ord, Default)]
pub struct SortedSlots {
    pub data: u16,
}

impl View for SortedSlots {
    type V = Set<u8>;

    open spec fn view(&self) -> Set<u8> {
        Set::new(|v: u8| bit_set(self.data, v as int))
    }
}

/// The members of `data` among the slots `lo ..= 13`, in increasing order.
pub open spec fn members_from(data: u16, lo: int) -> Seq<u8>
    decreases 14 - lo,
{
    if lo > 13 || lo < 0 {
        Seq::empty()
    } else if bit_set(data, lo) {
        seq![lo as u8] + members_from(data, lo + 1)
    } else {
        members_from(data, lo + 1)
    }
}

/// The ordinary slots (`1 ..= 13`) of `data`, in increasing order.
pub open spec fn slot_seq(data: u16) -> Seq<u8> {
    members_from(data, 1)
}

/// The bits of the slots listed in `s`.
pub open spec fn slots_mask(s: Seq<u8>) -> u16
    decreases s.len(),
{
    if s.len() == 0 {
        0
    } else {
        slots_mask(s.drop_last()) | (1u16 << (s.last() as u16))
    }
}

/// Sum of the members of `data` among the slots `1 ..= n`.
pub open spec fn upper_sum(data: u16, n: int) -> int
    decreases n,
{
    if n <= 0 {
        0
    } else {
        upper_sum(data, n - 1) + if bit_set(data, n) {
            n
        } else {
            0
        }
    }
}

/// Five times the sum of the open upper slots: what the upper section can
/// still add to the upper total at most.
pub open spec fn best_upper_total_spec(data: u16) -> int {
    5 * upper_sum(data, 6)
}

proof fn lemma_bit_insert(d: u16, v: u16, w: u16) by (bit_vector)
    requires
        v < 16,
        w < 16,
    ensures
        ((d | (1u16 << v)) >> w) & 1u16 == (if v == w {
            1u16
        } else {
            (d >> w) & 1u16
        }),
{
}

proof fn lemma_bit_remove(d: u16, v: u16, w: u16) by (bit_vector)
    requires
        v < 16,
        w < 16,
    ensures
        ((d & !(1u16 << v)) >> w) & 1u16 == (if v == w {
            0u16
        } else {
            (d >> w) & 1u16
        }),
{
}

proof fn lemma_bit_test(d: u16, v: u16) by (bit_vector)
    requires
        v < 16,
    ensures
        (d & (1u16 << v) > 0) == ((d >> v) & 1u16 == 1u16),
{
}

proof fn lemma_bit_complement_low(d: u16, w: u16) by (bit_vector)
    requires
        w < 16,
    ensures
        (((!d) & 127u16) >> w) & 1u16 == 1u16 <==> (w < 7 && (d >> w) & 1u16 != 1u16),
{
}

/// `members_from` lists exactly the members at or above `lo`, increasing.
pub proof fn lemma_members_from(data: u16, lo: int)
    requires
        1 <= lo <= 14,
    ensures
        forall|i: int|
            0 <= i < members_from(data, lo).len() ==> lo <= #[trigger] members_from(data, lo)[i]
                <= 13 && bit_set(data, members_from(data, lo)[i] as int),
        forall|i: int, j: int|
            0 <= i < j < members_from(data, lo).len() ==> #[trigger] members_from(data, lo)[i]
                < #[trigger] members_from(data, lo)[j],
        forall|v: int| lo <= v <= 13 && bit_set(data, v) ==> members_from(data, lo).contains(v as u8),
        members_from(data, lo).len() <= 14 - lo,
    decreases 14 - lo,
{
    if lo <= 13 {
        lemma_members_from(data, lo + 1);
        let rest = members_from(data, lo + 1);
        if bit_set(data, lo) {
            let s = seq![lo as u8] + rest;
            assert forall|i: int| 0 <= i < s.len() implies lo <= #[trigger] s[i] <= 13 && bit_set(
                data,
                s[i] as int,
            ) by {
                if i > 0 {
                    assert(s[i] == rest[i - 1]);
                }
            }
            assert forall|i: int, j: int| 0 <= i < j < s.len() implies #[trigger] s[i]
                < #[trigger] s[j] by {
                assert(s[j] == rest[j - 1]);
                if i > 0 {
                    assert(s[i] == rest[i - 1]);
                }
            }
            assert forall|v: int| lo <= v <= 13 && bit_set(data, v) implies s.contains(v as u8) by {
                if v == lo {
                    assert(s[0] == v as u8);
                } else {
                    let k = choose|k: int| 0 <= k < rest.len() && rest[k] == v as u8;
                    assert(s[k + 1] == v as u8);
                }
            }
        }
    }
}

impl SortedSlots {
    /// One more than the highest slot held, or 0 for the empty set.
    pub open spec fn len_spec(self) -> int {
        16 - u16_leading_zeros(self.data)
    }

    /// One more than the highest slot held, or 0 for the empty set.
    pub fn len(self) -> (r: u8)
        ensures
            r == self.len_spec(),
            r == 16 - u16_leading_zeros(self.data),
            r <= 16,
            self.data == 0 <==> r == 0,
            r > 0 ==> bit_set(self.data, r - 1),
            forall|v: int| r <= v < 16 ==> !bit_set(self.data, v),
    {
        proof {
            axiom_u16_leading_zeros(self.data);
        }
        let lz = self.data.leading_zeros();
        let r = (16 - lz) as u8;
        proof {
            let d = self.data;
            assert forall|v: int| r <= v < 16 implies !bit_set(self.data, v) by {
                let w = v as u16;
                assert(16 - u16_leading_zeros(d) <= w < 16 ==> #[trigger] (d >> w) & 1u16 == 0u16);
            }
            if r > 0 {
                assert((d >> ((r - 1) as u16)) & 1u16 != 0u16 ==> (d >> ((r - 1) as u16)) & 1u16
                    == 1u16) by (bit_vector);
            }
        }
        r
    }

    /// Adds slot `val`.
    pub fn insert(&mut self, val: Slot)
        requires
            val < 16,
        ensures
            final(self).data == old(self).data | (1u16 << val as u16),
            final(self)@ == old(self)@.insert(val),
    {
        let mask: u16 = 1 << val;
        self.data = self.data | mask;
        proof {
            assert forall|w: u8| #[trigger] self@.contains(w) == old(self)@.insert(val).contains(
                w,
            ) by {
                if w < 16 {
                    lemma_bit_insert(old(self).data, val as u16, w as u16);
                }
            }
            assert(self@ =~= old(self)@.insert(val));
        }
    }

    /// Takes slot `val` out.
    pub fn remove(&mut self, val: Slot)
        requires
            val < 16,
        ensures
            final(self).data == old(self).data & !(1u16 << val as u16),
            final(self)@ == old(self)@.remove(val),
    {
        let mask: u16 = !(1 << val);
        self.data = self.data & mask;
        proof {
            assert forall|w: u8| #[trigger] self@.contains(w) == old(self)@.remove(val).contains(
                w,
            ) by {
                if w < 16 {
                    lemma_bit_remove(old(self).data, val as u16, w as u16);
                }
            }
            assert(self@ =~= old(self)@.remove(val));
        }
    }

    /// A copy of this set without slot `val`.
    pub fn removed(self, val: Slot) -> (r: Self)
        requires
            val < 16,
        ensures
            r.data == self.data & !(1u16 << val as u16),
            r@ == self@.remove(val),
    {
        let mut out = self;
        out.remove(val);
        out
    }

    /// Whether slot `val` is held.
    pub fn has(self, val: Slot) -> (r: bool)
        requires
            val < 16,
        ensures
            r == self@.contains(val),
            r == bit_set(self.data, val as int),
    {
        proof {
            lemma_bit_test(self.data, val as u16);
        }
        self.data & (1 << val) > 0
    }

    /// The upper slots (and the stub) that are not held: those already used.
    pub fn previously_used_upper_slots(self) -> (r: Self)
        ensures
            r.data == (!self.data) & 127u16,
            forall|v: u8| #[trigger] r@.contains(v) <==> v < 7 && !self@.contains(v),
    {
        let mut out: Self = self;
        assert(1u16 << 7u16 == 128u16) by (bit_vector);
        out.data = (!out.data) & ((1 << 7) - 1);
        proof {
            assert forall|v: u8| #[trigger] out@.contains(v) <==> v < 7 && !self@.contains(v) by {
                if v < 16 {
                    lemma_bit_complement_low(self.data, v as u16);
                }
            }
        }
        out
    }

    /// The ordinary slots held (`1 ..= 13`), in increasing order.
    pub fn slots(self) -> (r: Vec<Slot>)
        ensures
            r@ == slot_seq(self.data),
    {
        let mut r: Vec<Slot> = Vec::new();
        let mut i: u8 = 1;
        while i <= 13
            invariant
                1 <= i <= 14,
                r@ + members_from(self.data, i as int) == slot_seq(self.data),
            decreases 14 - i,
        {
            if self.has(i) {
                assert(r@ + members_from(self.data, i as int) =~= r@.push(i) + members_from(
                    self.data,
                    i + 1,
                ));
                r.push(i);
            }
            i = i + 1;
        }
        assert(r@ =~= r@ + members_from(self.data, 14));
        r
    }

    /// Five times the sum of the open upper slots (ACES to SIXES).
    pub fn best_upper_total(self) -> (r: u8)
        ensures
            r == best_upper_total_spec(self.data),
            r <= 105,
    {
        let mut sum: u8 = 0;
        let mut x: u8 = 1;
        while x <= 6
            invariant
                1 <= x <= 7,
                sum == upper_sum(self.data, x - 1),
                sum <= (x - 1) * 6,
            decreases 7 - x,
        {
            if self.has(x) {
                sum = sum + x;
            }
            x = x + 1;
        }
        proof {
            reveal_with_fuel(upper_sum, 7);
        }
        sum * 5
    }

    /// `given_total`, or 0 when the upper bonus is out of its reach.
    pub fn relevant_total(self, given_total: u8) -> (r: u8)
        requires
            best_upper_total_spec(self.data) + given_total <= 255,
        ensures
            r == if best_upper_total_spec(self.data) + given_total >= 63 {
                given_total
            } else {
                0
            },
    {
        if self.best_upper_total() + given_total >= 63 {
            given_total
        } else {
            0
        }
    }

    /// The set holding exactly the slots of `a`.
    pub fn from_slots(a: &[Slot]) -> (r: Self)
        requires
            a@.len() <= 13,
            forall|i: int| 0 <= i < a@.len() ==> a@[i] < 16,
        ensures
            r@ == a@.to_set(),
            r.data == slots_mask(a@),
    {
        let mut r = SortedSlots { data: 0 };
        let mut i: usize = 0;
        proof {
            assert forall|w: u8| !(#[trigger] r@.contains(w)) by {
                assert((0u16 >> (w as u16)) & 1u16 == 0u16) by (bit_vector);
            }
            assert(r@ =~= a@.subrange(0, 0).to_set());
        }
        while i < a.len()
            invariant
                i <= a@.len(),
                forall|k: int| 0 <= k < a@.len() ==> a@[k] < 16,
                r@ == a@.subrange(0, i as int).to_set(),
                r.data == slots_mask(a@.subrange(0, i as int)),
            decreases a@.len() - i,
        {
            assert(a@.subrange(0, i + 1).drop_last() =~= a@.subrange(0, i as int));
            r.insert(a[i]);
            assert(a@.subrange(0, i + 1) =~= a@.subrange(0, i as int).push(a@[i as int]));
            proof {
                a@.subrange(0, i as int).lemma_push_to_set_commute(a@[i as int]);
            }
            i = i + 1;
        }
        assert(a@.subrange(0, a@.len() as int) =~= a@);
        r
    }
}

} // verus!
