use vstd::prelude::*;

verus! {

/// A single die value: 1 to 6, or 0 where the die is unselected.
pub type DieVal = u8;

/// The value packed in the 3-bit field `index` of `data`.
pub open spec fn field_at(data: u16, index: int) -> u8 {
    ((data >> ((3 * index) as u16)) & 7u16) as u8
}

/// Five die values packed in one `u16`, three bits each; die `i` occupies
/// bits `3*i .. 3*i+3`.
#[derive(Clone, Copy, Debug, PartialEq, Eq, Hash, PartialOrd, Ord)]
pub struct DieVals {
    pub data: u16,
}

impl View for DieVals {
    type V = Seq<u8>;

    open spec fn view(&self) -> Seq<u8> {
        Seq::new(5, |i: int| field_at(self.data, i))
    }
}

/// Replacing field `i` changes field `i` to the new value and no other field.
proof fn lemma_field_set(data: u16, i: u16, j: u16, val: u16) by (bit_vector)
    requires
        i < 5,
        j < 5,
        val < 8,
    ensures
        (((data & !(7u16 << (3 * i))) | (val << (3 * i))) >> (3 * j)) & 7u16 == (if i == j {
            val
        } else {
            (data >> (3 * j)) & 7u16
        }),
{
}

/// Field extraction distributes over `&` and `|`.
proof fn lemma_field_blit(a: u16, m: u16, f: u16, j: u16) by (bit_vector)
    requires
        j < 5,
    ensures
        ((((a & m) | f) >> (3 * j)) & 7u16) as u8 == ((((a >> (3 * j)) & 7u16) as u8) & (((m >> (3
            * j)) & 7u16) as u8)) | (((f >> (3 * j)) & 7u16) as u8),
{
}

/// Fields of a value packed from five 3-bit numbers read back as those numbers.
proof fn lemma_field_pack(a0: u16, a1: u16, a2: u16, a3: u16, a4: u16) by (bit_vector)
    requires
        a0 < 8,
        a1 < 8,
        a2 < 8,
        a3 < 8,
        a4 < 8,
    ensures
        ({
            let d = a4 << 12u16 | a3 << 9u16 | a2 << 6u16 | a1 << 3u16 | a0;
            &&& (d >> 0u16) & 7u16 == a0
            &&& (d >> 3u16) & 7u16 == a1
            &&& (d >> 6u16) & 7u16 == a2
            &&& (d >> 9u16) & 7u16 == a3
            &&& (d >> 12u16) & 7u16 == a4
        }),
{
}

/// The packed form of five die values, each taken as a `u16`.
pub open spec fn pack_spec(a: Seq<u8>) -> u16 {
    (a[4] as u16) << 12u16 | (a[3] as u16) << 9u16 | (a[2] as u16) << 6u16 | (a[1] as u16) << 3u16
        | (a[0] as u16)
}

/// A packed value below `2^15` is the packing of its own fields.
pub proof fn lemma_pack_view(dv: DieVals)
    requires
        dv.data < 32768,
    ensures
        pack_spec(dv@) == dv.data,
{
    let d = dv.data;
    assert(d < 32768 ==> d == (((((d >> 12u16) & 7u16) as u8) as u16) << 12u16 | ((((d >> 9u16)
        & 7u16) as u8) as u16) << 9u16 | ((((d >> 6u16) & 7u16) as u8) as u16) << 6u16 | ((((d
        >> 3u16) & 7u16) as u8) as u16) << 3u16 | ((((d >> 0u16) & 7u16) as u8) as u16)))
        by (bit_vector);
}

/// Unpacking dice to an array and packing the array again gives back the
/// same dice (for packed values below `2^15`, the only ones five 3-bit
/// fields can produce).
pub proof fn lemma_array_round_trip(dv: DieVals)
    requires
        dv.data < 32768,
    ensures
        pack_spec(dv@) == dv.data,
        forall|i: int| 0 <= i < 5 ==> #[trigger] dv@[i] < 8,
{
    lemma_pack_view(dv);
    lemma_view_small(dv);
}

/// Packing is one to one on values below 8, and packs of values 1 to 6 stay
/// below 28087.
pub proof fn lemma_pack_injective(a: Seq<u8>, b: Seq<u8>)
    requires
        a.len() == 5,
        b.len() == 5,
        forall|i: int| 0 <= i < 5 ==> a[i] < 8 && b[i] < 8,
        pack_spec(a) == pack_spec(b),
    ensures
        a == b,
{
    lemma_field_pack(a[0] as u16, a[1] as u16, a[2] as u16, a[3] as u16, a[4] as u16);
    lemma_field_pack(b[0] as u16, b[1] as u16, b[2] as u16, b[3] as u16, b[4] as u16);
    assert(((a[0] as u16) as u8) == a[0]);
    assert(a =~= b) by {
        assert(a[0] as u16 == b[0] as u16);
        assert(a[1] as u16 == b[1] as u16);
        assert(a[2] as u16 == b[2] as u16);
        assert(a[3] as u16 == b[3] as u16);
        assert(a[4] as u16 == b[4] as u16);
    }
}

/// Packs of five values from 1 to 6 stay below 28087.
pub proof fn lemma_pack_bound(a: Seq<u8>)
    requires
        a.len() == 5,
        forall|i: int| 0 <= i < 5 ==> a[i] <= 6,
    ensures
        pack_spec(a) <= 28086,
{
    let a0 = a[0] as u16;
    let a1 = a[1] as u16;
    let a2 = a[2] as u16;
    let a3 = a[3] as u16;
    let a4 = a[4] as u16;
    assert(a0 <= 6 && a1 <= 6 && a2 <= 6 && a3 <= 6 && a4 <= 6 ==> (a4 << 12u16 | a3 << 9u16 | a2
        << 6u16 | a1 << 3u16 | a0) <= 28086) by (bit_vector);
}

/// Every die field holds a value below 8.
pub proof fn lemma_view_small(dv: DieVals)
    ensures
        forall|i: int| 0 <= i < 5 ==> #[trigger] dv@[i] < 8,
{
    let d = dv.data;
    assert forall|i: int| 0 <= i < 5 implies #[trigger] dv@[i] < 8 by {
        let q = (3 * i) as u16;
        assert(((d >> q) & 7u16) < 8u16) by (bit_vector);
    }
}

impl DieVals {
    /// The die value at position `index`.
    pub fn get(&self, index: u8) -> (r: DieVal)
        requires
            index <= 5,
        ensures
            r == field_at(self.data, index as int),
            index < 5 ==> r == self@[index as int],
            r < 8,
    {
        let d = self.data;
        let r = ((d >> (index * 3)) & 0b111) as DieVal;
        assert(((d >> (index * 3) as u16) & 7u16) < 8) by (bit_vector);
        r
    }

    /// Overwrites the die value at position `index` with `val`.
    pub fn set(&mut self, index: u8, val: DieVal)
        requires
            index <= 5,
        ensures
            final(self).data == (old(self).data & !(7u16 << (3 * index) as u16)) | ((val as u16) << (3
                * index) as u16),
            index < 5 && val < 8 ==> final(self)@ == old(self)@.update(index as int, val),
            index < 5 && val < 8 && old(self).data < 32768 ==> final(self).data < 32768,
    {
        let bitpos = 3 * index;
        let mask = !(0b111_u16 << bitpos);
        self.data = (self.data & mask) | ((val as u16) << bitpos);
        proof {
            if index < 5 && val < 8 {
                let od = old(self).data;
                let v16 = val as u16;
                let b16 = (3 * index) as u16;
                assert(od < 32768 && v16 < 8 && b16 <= 12 ==> (od & !(7u16 << b16)) | (v16 << b16) < 32768)
                    by (bit_vector);
                let od = old(self).data;
                assert forall|j: int| 0 <= j < 5 implies #[trigger] self@[j] == old(
                    self,
                )@.update(index as int, val)[j] by {
                    lemma_field_set(od, index as u16, j as u16, val as u16);
                    assert((3 * j) as u16 == 3 * (j as u16));
                }
                assert(self@ =~= old(self)@.update(index as int, val));
            }
        }
    }

    /// Copies `from` over `self`, keeping only the bits of `self` that `mask`
    /// keeps.
    pub fn blit(&mut self, from: DieVals, mask: DieVals)
        ensures
            final(self).data == (old(self).data & mask.data) | from.data,
            forall|j: int|
                0 <= j < 5 ==> #[trigger] final(self)@[j] == (old(self)@[j] & mask@[j]) | from@[j],
    {
        self.data = (self.data & mask.data) | from.data;
        proof {
            assert forall|j: int| 0 <= j < 5 implies #[trigger] self@[j] == (old(self)@[j]
                & mask@[j]) | from@[j] by {
                lemma_field_blit(old(self).data, mask.data, from.data, j as u16);
                assert((3 * j) as u16 == 3 * (j as u16));
            }
        }
    }

    /// Packs five die values; value `a[0]` goes to the lowest field.
    pub fn from_array(a: [DieVal; 5]) -> (r: DieVals)
        ensures
            r.data == pack_spec(a@),
            (forall|i: int| 0 <= i < 5 ==> a@[i] < 8) ==> r@ == a@,
    {
        let r = DieVals {
            data: (a[4] as u16) << 12 | (a[3] as u16) << 9 | (a[2] as u16) << 6 | (a[1] as u16) << 3
                | (a[0] as u16),
        };
        proof {
            if forall|i: int| 0 <= i < 5 ==> a@[i] < 8 {
                assert(a@[0] < 8 && a@[1] < 8 && a@[2] < 8 && a@[3] < 8 && a@[4] < 8);
                lemma_field_pack(
                    a@[0] as u16,
                    a@[1] as u16,
                    a@[2] as u16,
                    a@[3] as u16,
                    a@[4] as u16,
                );
                assert(r@ =~= a@);
            }
        }
        r
    }

    /// Packs the first five die values of `v`.
    pub fn from_vec(v: &Vec<DieVal>) -> (r: DieVals)
        requires
            v.len() >= 5,
        ensures
            r.data == pack_spec(v@),
            (forall|i: int| 0 <= i < 5 ==> v@[i] < 8) ==> r@ =~= v@.subrange(0, 5),
    {
        let a: [DieVal; 5] = [v[0], v[1], v[2], v[3], v[4]];
        assert(a@ =~= v@.subrange(0, 5));
        DieVals::from_array(a)
    }

    /// The five die values, lowest field first.
    pub fn to_array(&self) -> (r: [DieVal; 5])
        ensures
            r@ == self@,
    {
        let r = [self.get(0), self.get(1), self.get(2), self.get(3), self.get(4)];
        assert(r@ =~= self@);
        r
    }

    /// The five die values in order, lowest field first.
    pub fn values(&self) -> (r: Vec<DieVal>)
        ensures
            r@ == self@,
    {
        let mut r: Vec<DieVal> = Vec::new();
        let mut i: u8 = 0;
        while i < 5
            invariant
                i <= 5,
                r@ == self@.subrange(0, i as int),
            decreases 5 - i,
        {
            r.push(self.get(i));
            assert(r@ =~= self@.subrange(0, i + 1));
            i = i + 1;
        }
        assert(r@ =~= self@);
        r
    }
}

impl Default for DieVals {
    fn default() -> (r: DieVals)
        ensures
            r.data == 0,
    {
        DieVals { data: 0 }
    }
}

/// The index of a sorted combination of five die values among all 252 such
/// combinations, plus one; 0 stands for the all-zero wildcard.
#[derive(Clone, Copy, Debug, PartialEq, Eq, Hash, PartialOrd, Ord, Default)]
pub struct DieValsID {
    pub data: u8,
}

} // verus!
