//! A packed bit array. Bit `i` lives in byte `i / 8` at position `i % 8`
//! (little-endian bit order). The abstract value is the sequence of bits.

use vstd::prelude::*;

verus! {

/// A packed array of `length` bits over byte storage.
pub struct Bitmap {
    length: usize,
    data: Vec<u8>,
}

/// Whether bit `k` of `byte` is set.
pub open spec fn nth_bit(byte: u8, k: u8) -> bool {
    (byte >> k) & 1 == 1
}

impl View for Bitmap {
    type V = Seq<bool>;

    closed spec fn view(&self) -> Seq<bool> {
        Seq::new(self.length as nat, |i: int| nth_bit(self.data[i / 8], (i % 8) as u8))
    }
}

impl Bitmap {
    /// The bytes of storage needed to hold `bits` bits.
    pub open spec fn spec_width(bits: nat) -> nat {
        bits / 8 + if bits % 8 == 0 { 0nat } else { 1nat }
    }

    /// The struct's storage is exactly wide enough for its bits.
    pub closed spec fn wf(&self) -> bool {
        self.data.len() == Self::spec_width(self.length as nat)
    }

    /// Returns byte-width of a `Bitmap` storing `bits` number of bits.
    pub fn width(bits: usize) -> (r: usize)
        ensures
            r == Self::spec_width(bits as nat),
    {
        bits / 8 + if bits % 8 == 0 { 0 } else { 1 }
    }

    /// A bitmap of `length` bits, all clear.
    pub fn new(length: usize) -> (r: Bitmap)
        ensures
            r.wf(),
            r@.len() == length,
            forall|i: int| 0 <= i < length ==> !r@[i],
    {
        let width = Self::width(length);
        let mut data: Vec<u8> = Vec::new();
        let mut j: usize = 0;
        while j < width
            invariant
                data.len() == j,
                j <= width,
                forall|b: int| 0 <= b < j ==> data[b] == 0u8,
            decreases width - j,
        {
            data.push(0u8);
            j = j + 1;
        }
        let r = Bitmap { length, data };
        proof {
            assert forall|i: int| 0 <= i < length implies !r@[i] by {
                assert(r.data[i / 8] == 0u8);
                let k = (i % 8) as u8;
                assert(!nth_bit(0u8, k)) by (bit_vector);
            }
        }
        r
    }

    /// The number of bits.
    pub fn length(&self) -> (r: usize)
        ensures
            r == self@.len(),
    {
        self.length
    }

    /// The number of bytes of storage.
    pub fn length_bytes(&self) -> (r: usize)
        requires
            self.wf(),
        ensures
            r == Self::spec_width(self@.len()),
    {
        self.length / 8 + if self.length % 8 == 0 { 0 } else { 1 }
    }

    /// Clears every bit.
    pub fn zero(&mut self)
        requires
            old(self).wf(),
        ensures
            final(self).wf(),
            final(self)@.len() == old(self)@.len(),
            forall|i: int| 0 <= i < final(self)@.len() ==> !final(self)@[i],
    {
        let width = self.data.len();
        let mut j: usize = 0;
        while j < width
            invariant
                self.data.len() == width,
                self.length == old(self).length,
                width == old(self).data.len(),
                j <= width,
                forall|b: int| 0 <= b < j ==> self.data[b] == 0u8,
            decreases width - j,
        {
            self.data.set(j, 0u8);
            j = j + 1;
        }
        proof {
            assert forall|i: int| 0 <= i < self@.len() implies !self@[i] by {
                assert(self.data[i / 8] == 0u8);
                let k = (i % 8) as u8;
                assert(!nth_bit(0u8, k)) by (bit_vector);
            }
        }
    }

    /// Whether bit `bit` is set.
    pub fn get_bit(&self, bit: usize) -> (r: bool)
        requires
            self.wf(),
            bit < self@.len(),
        ensures
            r == self@[bit as int],
    {
        proof {
            self.lemma_byte_index(bit as int);
        }
        let byte = self.data[bit / 8];
        let k = (bit % 8) as u8;
        (byte >> k) & 1 == 1
    }

    /// Clears bit `bit`.
    pub fn clear_bit(&mut self, bit: usize)
        requires
            old(self).wf(),
            bit < old(self)@.len(),
        ensures
            final(self).wf(),
            final(self)@ == old(self)@.update(bit as int, false),
    {
        proof {
            old(self).lemma_byte_index(bit as int);
        }
        let byte = self.data[bit / 8];
        let k = (bit % 8) as u8;
        let nb = byte & !(1u8 << k);
        self.data.set(bit / 8, nb);
        proof {
            assert(forall|j: u8| j < 8 ==> #[trigger] nth_bit(byte & !(1u8 << k), j)
                == if j == k { false } else { nth_bit(byte, j) }) by (bit_vector)
                requires k < 8;
            self.lemma_one_byte_update(*old(self), bit as int, false);
        }
    }

    /// Sets bit `bit`.
    pub fn set_bit(&mut self, bit: usize)
        requires
            old(self).wf(),
            bit < old(self)@.len(),
        ensures
            final(self).wf(),
            final(self)@ == old(self)@.update(bit as int, true),
    {
        proof {
            old(self).lemma_byte_index(bit as int);
        }
        let byte = self.data[bit / 8];
        let k = (bit % 8) as u8;
        let nb = byte | (1u8 << k);
        self.data.set(bit / 8, nb);
        proof {
            assert(forall|j: u8| j < 8 ==> #[trigger] nth_bit(byte | (1u8 << k), j)
                == if j == k { true } else { nth_bit(byte, j) }) by (bit_vector)
                requires k < 8;
            self.lemma_one_byte_update(*old(self), bit as int, true);
        }
    }

    /// Flips bit `bit`.
    pub fn toggle_bit(&mut self, bit: usize)
        requires
            old(self).wf(),
            bit < old(self)@.len(),
        ensures
            final(self).wf(),
            final(self)@ == old(self)@.update(bit as int, !old(self)@[bit as int]),
    {
        proof {
            old(self).lemma_byte_index(bit as int);
        }
        let byte = self.data[bit / 8];
        let k = (bit % 8) as u8;
        let nb = byte ^ (1u8 << k);
        self.data.set(bit / 8, nb);
        proof {
            assert(forall|j: u8| j < 8 ==> #[trigger] nth_bit(byte ^ (1u8 << k), j)
                == if j == k { !nth_bit(byte, j) } else { nth_bit(byte, j) }) by (bit_vector)
                requires k < 8;
            self.lemma_one_byte_update(*old(self), bit as int, !nth_bit(byte, k));
        }
    }

    /// An iterator over the bits, first to last.
    pub fn iter(&self) -> (r: BitmapIter<'_>)
        ensures
            r.map == self,
            r.current == 0,
    {
        BitmapIter { map: self, current: 0 }
    }

    /// Bit `bit` is stored inside the byte storage.
    proof fn lemma_byte_index(&self, bit: int)
        requires
            self.wf(),
            0 <= bit < self@.len(),
        ensures
            0 <= bit / 8 < self.data.len(),
            0 <= bit % 8 < 8,
    {
        assert(bit / 8 < Self::spec_width(self.length as nat));
    }

    /// Updating one byte at `bit`'s position, changing only bit `bit % 8` of
    /// it, updates exactly position `bit` of the bit view.
    proof fn lemma_one_byte_update(&self, prev: Bitmap, bit: int, v: bool)
        requires
            prev.wf(),
            0 <= bit < prev@.len(),
            self.length == prev.length,
            self.data.len() == prev.data.len(),
            self.data@ == prev.data@.update(bit / 8, self.data[bit / 8]),
            forall|j: u8| j < 8 ==> #[trigger] nth_bit(self.data[bit / 8], j)
                == if j == bit % 8 { v } else { nth_bit(prev.data[bit / 8], j) },
        ensures
            self@ == prev@.update(bit, v),
    {
        assert forall|i: int| 0 <= i < self@.len() implies
            self@[i] == prev@.update(bit, v)[i] by {
            if i / 8 == bit / 8 {
                if i == bit {
                    assert(nth_bit(self.data[bit / 8], (bit % 8) as u8) == v);
                } else {
                    assert(i % 8 != bit % 8) by {
                        vstd::arithmetic::div_mod::lemma_fundamental_div_mod(i, 8);
                        vstd::arithmetic::div_mod::lemma_fundamental_div_mod(bit, 8);
                    }
                }
            } else {
                assert(self.data[i / 8] == prev.data[i / 8]);
            }
        }
        assert(self@ =~= prev@.update(bit, v));
    }
}

/// An iterator over the bits of a [`Bitmap`].
pub struct BitmapIter<'a> {
    /// The bitmap being walked.
    pub map: &'a Bitmap,
    /// The next bit position to yield.
    pub current: usize,
}

impl<'a> BitmapIter<'a> {
    /// The next bit, if any bits remain.
    pub fn next(&mut self) -> (r: Option<bool>)
        requires
            old(self).map.wf(),
            old(self).current <= old(self).map@.len(),
        ensures
            final(self).map == old(self).map,
            match r {
                Some(b) => old(self).current < old(self).map@.len()
                    && b == old(self).map@[old(self).current as int]
                    && final(self).current == old(self).current + 1,
                None => old(self).current == old(self).map@.len()
                    && final(self).current == old(self).current,
            },
    {
        if self.current < self.map.length() {
            let ret = self.map.get_bit(self.current);
            self.current = self.current + 1;
            Some(ret)
        } else {
            None
        }
    }
}

} // verus!
