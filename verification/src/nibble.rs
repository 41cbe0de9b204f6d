//! Dense storage of 4-bit values ("nibbles"), two per byte.
//!
//! Used for the two per-section light channels. The low nibble of byte `j`
//! holds cell `2*j`, the high nibble holds cell `2*j + 1`, so a raw byte
//! stream from the wire is usable directly as an array's contents.

use vstd::prelude::*;

verus! {

/// The sequence of 4-bit values packed in a byte sequence, low nibble first.
pub open spec fn spec_nibbles(bytes: Seq<u8>) -> Seq<u8> {
    Seq::new(
        bytes.len() * 2,
        |i: int| if i % 2 == 0 { bytes[i / 2] & 0xF } else { (bytes[i / 2] >> 4) as u8 },
    )
}

/// A fixed-capacity array of 4-bit values packed two per byte.
pub struct NibbleArray {
    data: Vec<u8>,
}

impl NibbleArray {
    /// The packed values, as a sequence of bytes each below 16.
    pub closed spec fn view(&self) -> Seq<u8> {
        spec_nibbles(self.data@)
    }

    /// An array of `(len + 1) / 2 * 2` zero nibbles.
    pub fn new(len: usize) -> (r: NibbleArray)
        requires
            len < usize::MAX,
        ensures
            r@.len() == ((len + 1) / 2) * 2,
            r@.len() >= len,
            forall|i: int| 0 <= i < r@.len() ==> r@[i] == 0u8,
    {
        let bytes = (len + 1) / 2;
        let r = NibbleArray { data: vec![0u8; bytes] };
        assert forall|i: int| 0 <= i < r@.len() implies r@[i] == 0u8 by {
            assert(0u8 & 0xF == 0 && 0u8 >> 4 == 0) by (bit_vector);
        }
        r
    }

    /// Adopt a raw byte stream as the packed contents.
    pub fn from_raw(data: Vec<u8>) -> (r: NibbleArray)
        ensures
            r@ == spec_nibbles(data@),
    {
        NibbleArray { data }
    }

    /// Read the value of cell `i`.
    pub fn get(&self, i: usize) -> (r: u8)
        requires
            i < self@.len(),
        ensures
            r == self@[i as int],
            r <= 0xF,
    {
        let b = self.data[i / 2];
        let r = if i % 2 == 0 {
            b & 0xF
        } else {
            b >> 4
        };
        proof {
            assert(b & 0xF <= 0xF && b >> 4 <= 0xF) by (bit_vector);
        }
        r
    }

    /// Store the low four bits of `v` into cell `i`.
    pub fn set(&mut self, i: usize, v: u8)
        requires
            i < old(self)@.len(),
        ensures
            final(self)@ == old(self)@.update(i as int, v & 0xF),
    {
        let j = i / 2;
        let b = self.data[j];
        let nb = if i % 2 == 0 {
            (b & 0xF0) | (v & 0xF)
        } else {
            (b & 0x0F) | ((v & 0xF) << 4)
        };
        self.data.set(j, nb);
        proof {
            assert((((b & 0xF0) | (v & 0xF)) & 0xF) == (v & 0xF)) by (bit_vector);
            assert((((b & 0xF0) | (v & 0xF)) >> 4) == (b >> 4)) by (bit_vector);
            assert((((b & 0x0F) | ((v & 0xF) << 4)) >> 4) == (v & 0xF)) by (bit_vector);
            assert((((b & 0x0F) | ((v & 0xF) << 4)) & 0xF) == (b & 0xF)) by (bit_vector);
            assert(self@ =~= old(self)@.update(i as int, v & 0xF));
        }
    }
}

} // verus!
