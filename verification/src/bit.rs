//! Dense storage of fixed-width unsigned integers packed into a stream of
//! 64-bit words.
//!
//! Cell `i` occupies bits `[i*width, (i+1)*width)` of the stream, counted
//! from the least significant bit of word 0 upward, so a value may span two
//! adjacent words. The width only ever grows: `resize` reallocates at a wider
//! width and re-encodes every value. An array can also be adopted from a raw
//! pre-packed word sequence, which is how wire payloads are decoded.

use vstd::prelude::*;

verus! {

/// The all-ones mask of the low `w` bits.
pub open spec fn mask_of(w: u64) -> u64
    recommends
        1 <= w < 64,
{
    ((1u64 << w) - 1) as u64
}

/// The value of cell `i` in a packed word stream of width `w`: the unsigned
/// number formed by bits `[i*w, i*w + w)` of the stream.
pub open spec fn spec_cell(words: Seq<u64>, w: u64, i: int) -> u64
    recommends
        1 <= w < 64,
        0 <= i,
        i * w + w <= words.len() * 64,
{
    let pos = (i * w) / 64;
    let off = ((i * w) % 64) as u64;
    if off + w <= 64 {
        (words[pos] >> off) & mask_of(w)
    } else {
        ((words[pos] >> off) | (words[pos + 1] << ((64 - off) as u64))) & mask_of(w)
    }
}

/// A growable-width packed array of `len` unsigned integers of `bit_size`
/// bits each.
pub struct BitArray {
    words: Vec<u64>,
    bit_size: usize,
    len: usize,
}

/// The mask expression does not underflow, so the spec-level cast in
/// `mask_of` is lossless.
pub proof fn lemma_mask(w: u64)
    requires
        w < 64,
    ensures
        1u64 << w >= 1,
        mask_of(w) == (1u64 << w) - 1,
{
    assert(1u64 << w >= 1) by (bit_vector)
        requires
            w < 64,
    ;
}

/// Bits `[s, s+w)` of the word are overwritten; a read of `[t, t+w)` in the
/// same word, disjoint from the written range, sees the old bits.
proof fn lemma_write_low_read(y: u64, v: u64, m: u64, w: u64, s: u64, t: u64)
    requires
        1 <= w < 64,
        s < 64,
        t < 64,
        t + w <= 64,
        t + w <= s || s + w <= t,
        m == (1u64 << w) - 1,
        v <= m,
    ensures
        (((y & !(m << s)) | (v << s)) >> t) & m == (y >> t) & m,
{
    assert((((y & !(m << s)) | (v << s)) >> t) & m == (y >> t) & m) by (bit_vector)
        requires
            1 <= w < 64,
            s < 64,
            t < 64,
            t + w <= 64,
            t + w <= s || s + w <= t,
            m == (1u64 << w) - 1,
            v <= m,
    ;
}

/// The spill write into the following word touches only bits `[0, s+w-64)`;
/// a read of `[t, t+w)` within that word starting at or above that bound
/// sees the old bits.
proof fn lemma_write_high_read(y: u64, v: u64, m: u64, w: u64, s: u64, t: u64)
    requires
        1 <= w < 64,
        s < 64,
        t < 64,
        64 < s + w,
        t + w <= 64,
        s + w <= 64 + t,
        m == (1u64 << w) - 1,
        v <= m,
    ensures
        (((y & !(m >> ((64 - s) as u64))) | (v >> ((64 - s) as u64))) >> t) & m == (y >> t) & m,
{
    assert((((y & !(m >> ((64 - s) as u64))) | (v >> ((64 - s) as u64))) >> t) & m == (y >> t)
        & m) by (bit_vector)
        requires
            1 <= w < 64,
            s < 64,
            t < 64,
            64 < s + w,
            t + w <= 64,
            s + w <= 64 + t,
            m == (1u64 << w) - 1,
            v <= m,
    ;
}

/// A spanning read whose first word was overwritten at `[s, ...)`, with the
/// read's part of that word ending at or below `s`, sees the old bits.
proof fn lemma_write_low_read_span_first(y: u64, b: u64, v: u64, m: u64, w: u64, s: u64, t: u64)
    requires
        1 <= w < 64,
        s < 64,
        t < 64,
        64 < t + w,
        s + w <= t,
        m == (1u64 << w) - 1,
        v <= m,
    ensures
        ((((y & !(m << s)) | (v << s)) >> t) | (b << ((64 - t) as u64))) & m == ((y >> t) | (b
            << ((64 - t) as u64))) & m,
{
    assert(((((y & !(m << s)) | (v << s)) >> t) | (b << ((64 - t) as u64))) & m == ((y >> t) | (b
        << ((64 - t) as u64))) & m) by (bit_vector)
        requires
            1 <= w < 64,
            s < 64,
            t < 64,
            64 < t + w,
            s + w <= t,
            m == (1u64 << w) - 1,
            v <= m,
    ;
}

/// A spanning read whose second word was overwritten at `[s, ...)`, with the
/// read's part of that word ending at or below `s`, sees the old bits.
proof fn lemma_write_low_read_span_second(a: u64, y: u64, v: u64, m: u64, w: u64, s: u64, t: u64)
    requires
        1 <= w < 64,
        s < 64,
        t < 64,
        64 < t + w,
        t + w <= 64 + s,
        m == (1u64 << w) - 1,
        v <= m,
    ensures
        ((a >> t) | (((y & !(m << s)) | (v << s)) << ((64 - t) as u64))) & m == ((a >> t) | (y
            << ((64 - t) as u64))) & m,
{
    assert(((a >> t) | (((y & !(m << s)) | (v << s)) << ((64 - t) as u64))) & m == ((a >> t) | (y
        << ((64 - t) as u64))) & m) by (bit_vector)
        requires
            1 <= w < 64,
            s < 64,
            t < 64,
            64 < t + w,
            t + w <= 64 + s,
            m == (1u64 << w) - 1,
            v <= m,
    ;
}

/// A spanning read whose first word took the spill write `[0, s+w-64)`, with
/// the read starting at or above that bound, sees the old bits.
proof fn lemma_write_high_read_span_first(y: u64, b: u64, v: u64, m: u64, w: u64, s: u64, t: u64)
    requires
        1 <= w < 64,
        s < 64,
        t < 64,
        64 < s + w,
        64 < t + w,
        s + w <= 64 + t,
        m == (1u64 << w) - 1,
        v <= m,
    ensures
        ((((y & !(m >> ((64 - s) as u64))) | (v >> ((64 - s) as u64))) >> t) | (b << ((64
            - t) as u64))) & m == ((y >> t) | (b << ((64 - t) as u64))) & m,
{
    assert(((((y & !(m >> ((64 - s) as u64))) | (v >> ((64 - s) as u64))) >> t) | (b << ((64
        - t) as u64))) & m == ((y >> t) | (b << ((64 - t) as u64))) & m) by (bit_vector)
        requires
            1 <= w < 64,
            s < 64,
            t < 64,
            64 < s + w,
            64 < t + w,
            s + w <= 64 + t,
            m == (1u64 << w) - 1,
            v <= m,
    ;
}

/// Reading back a value written without spanning.
proof fn lemma_write_read_back(y: u64, v: u64, m: u64, w: u64, s: u64)
    requires
        1 <= w < 64,
        s < 64,
        s + w <= 64,
        m == (1u64 << w) - 1,
        v <= m,
    ensures
        (((y & !(m << s)) | (v << s)) >> s) & m == v,
{
    assert((((y & !(m << s)) | (v << s)) >> s) & m == v) by (bit_vector)
        requires
            1 <= w < 64,
            s < 64,
            s + w <= 64,
            m == (1u64 << w) - 1,
            v <= m,
    ;
}

/// Reading back a value written across a word boundary.
proof fn lemma_write_read_back_span(y0: u64, y1: u64, v: u64, m: u64, w: u64, s: u64)
    requires
        1 <= w < 64,
        s < 64,
        64 < s + w,
        m == (1u64 << w) - 1,
        v <= m,
    ensures
        ((((y0 & !(m << s)) | (v << s)) >> s) | (((y1 & !(m >> ((64 - s) as u64))) | (v >> ((64
            - s) as u64))) << ((64 - s) as u64))) & m == v,
{
    assert(((((y0 & !(m << s)) | (v << s)) >> s) | (((y1 & !(m >> ((64 - s) as u64))) | (v >> ((64
        - s) as u64))) << ((64 - s) as u64))) & m == v) by (bit_vector)
        requires
            1 <= w < 64,
            s < 64,
            64 < s + w,
            m == (1u64 << w) - 1,
            v <= m,
    ;
}

/// Any cell of an all-zero word stream reads zero.
proof fn lemma_zero_cell(y0: u64, y1: u64, m: u64, w: u64, s: u64)
    requires
        s < 64,
        y0 == 0,
        y1 == 0,
    ensures
        (y0 >> s) & m == 0,
        ((y0 >> s) | (y1 << ((64 - s) as u64))) & m == 0,
{
    assert((0u64 >> s) & m == 0 && ((0u64 >> s) | (0u64 << ((64 - s) as u64))) & m == 0)
        by (bit_vector);
}

/// A packed cell value never exceeds the width's mask.
proof fn lemma_cell_bounded(y0: u64, y1: u64, m: u64, s: u64)
    ensures
        (y0 >> s) & m <= m,
        ((y0 >> s) | (y1 << ((64 - s) as u64))) & m <= m,
{
    assert((y0 >> s) & m <= m && ((y0 >> s) | (y1 << ((64 - s) as u64))) & m <= m) by (bit_vector);
}

/// Word-index bounds for the bits of cell `i`: the cell's first word is in
/// range, and so is the second when the cell spans a boundary.
proof fn lemma_cell_words_in_range(words_len: int, len: int, w: int, i: int)
    requires
        1 <= w < 64,
        0 <= i < len,
        len * w <= words_len * 64,
    ensures
        0 <= (i * w) / 64 < words_len,
        (i * w) % 64 + w > 64 ==> (i * w) / 64 + 1 < words_len,
        i * w + w <= len * w,
        0 <= (i * w) % 64 < 64,
        i * w == 64 * ((i * w) / 64) + (i * w) % 64,
{
    let bit = i * w;
    assert(0 <= bit && bit + w <= len * w) by (nonlinear_arith)
        requires
            0 <= i < len,
            1 <= w,
            bit == i * w,
    ;
    vstd::arithmetic::div_mod::lemma_fundamental_div_mod(bit, 64);
    assert(0 <= bit % 64 < 64) by {
        vstd::arithmetic::div_mod::lemma_mod_bound(bit, 64);
    }
    let pos = bit / 64;
    assert(64 * pos <= bit);
    assert(pos < words_len) by (nonlinear_arith)
        requires
            64 * pos <= bit,
            bit < bit + w,
            bit + w <= words_len * 64,
    ;
    if bit % 64 + w > 64 {
        assert(64 * (pos + 1) == 64 * pos + 64);
        assert(64 * (pos + 1) < bit + w);
        assert(pos + 1 < words_len) by (nonlinear_arith)
            requires
                64 * (pos + 1) < bit + w,
                bit + w <= words_len * 64,
        ;
    }
}

impl BitArray {
    /// Structural soundness: a sane width, and enough words to hold every
    /// cell's bits.
    pub closed spec fn wf(&self) -> bool {
        &&& 1 <= self.bit_size < 64
        &&& self.len * self.bit_size <= self.words@.len() * 64
        &&& self.words@.len() <= 0x0200_0000
        &&& self.len <= 0x0100_0000
    }

    /// The width in bits of each cell.
    pub closed spec fn spec_width(&self) -> u64 {
        self.bit_size as u64
    }

    /// The logical contents: the decoded value of every cell.
    pub closed spec fn view(&self) -> Seq<u64> {
        Seq::new(self.len as nat, |i: int| spec_cell(self.words@, self.bit_size as u64, i))
    }

    /// A fresh array of `len` zero cells of `width` bits each.
    pub fn new(len: usize, width: usize) -> (r: BitArray)
        requires
            1 <= width < 64,
            len <= 0x0100_0000,
        ensures
            r.wf(),
            r.spec_width() == width as u64,
            r@.len() == len,
            forall|i: int| 0 <= i < len ==> r@[i] == 0u64,
    {
        proof {
            assert(len * width <= 0x0100_0000 * 64) by (nonlinear_arith)
                requires
                    len <= 0x0100_0000,
                    width < 64,
                    0 <= len,
                    0 <= width,
            ;
        }
        let nwords = (len * width + 63) / 64;
        let r = BitArray { words: vec![0u64; nwords], bit_size: width, len };
        proof {
            assert(len * width <= r.words@.len() * 64);
            assert forall|i: int| 0 <= i < len implies r@[i] == 0u64 by {
                lemma_cell_words_in_range(
                    r.words@.len() as int,
                    len as int,
                    width as int,
                    i,
                );
                let pos = (i * width) / 64;
                let off = ((i * width) % 64) as u64;
                lemma_zero_cell(
                    r.words@[pos],
                    if pos + 1 < r.words@.len() {
                        r.words@[pos + 1]
                    } else {
                        0u64
                    },
                    mask_of(width as u64),
                    width as u64,
                    off,
                );
                if off + width > 64 {
                    assert(r.words@[pos + 1] == 0u64);
                }
            }
        }
        r
    }

    /// Adopt a raw pre-packed word stream, as read from the wire.
    pub fn from_raw(words: Vec<u64>, width: usize, len: usize) -> (r: BitArray)
        requires
            1 <= width < 64,
            len <= 0x0100_0000,
            words@.len() <= 0x0200_0000,
            len * width <= words@.len() * 64,
        ensures
            r.wf(),
            r.spec_width() == width as u64,
            r@.len() == len,
            forall|i: int|
                0 <= i < len ==> r@[i] == spec_cell(words@, width as u64, i),
    {
        BitArray { words, bit_size: width, len }
    }

    /// The number of cells.
    pub fn len(&self) -> (r: usize)
        ensures
            r == self@.len(),
    {
        self.len
    }

    /// The current width in bits of each cell.
    pub fn width(&self) -> (r: usize)
        requires
            self.wf(),
        ensures
            r as u64 == self.spec_width(),
            1 <= r < 64,
    {
        self.bit_size
    }

    /// Decode the value of cell `i`.
    pub fn get(&self, i: usize) -> (r: u64)
        requires
            self.wf(),
            i < self@.len(),
        ensures
            r == self@[i as int],
            r <= mask_of(self.spec_width()),
    {
        proof {
            lemma_cell_words_in_range(
                self.words@.len() as int,
                self.len as int,
                self.bit_size as int,
                i as int,
            );
            lemma_mask(self.bit_size as u64);
        }
        let bit = i * self.bit_size;
        let pos = bit / 64;
        let off = (bit % 64) as u64;
        let m = (1u64 << (self.bit_size as u64)) - 1;
        let r = if (off as usize) + self.bit_size <= 64 {
            (self.words[pos] >> off) & m
        } else {
            ((self.words[pos] >> off) | (self.words[pos + 1] << (64 - off))) & m
        };
        proof {
            let pos2 = if pos as int + 1 < self.words@.len() {
                self.words@[pos as int + 1]
            } else {
                0u64
            };
            lemma_cell_bounded(self.words@[pos as int], pos2, m, off);
        }
        r
    }

    /// Overwrite the value of cell `i`. The value must fit the current
    /// width; callers grow the width with `resize` first when it does not.
    pub fn set(&mut self, i: usize, v: u64)
        requires
            old(self).wf(),
            i < old(self)@.len(),
            v <= mask_of(old(self).spec_width()),
        ensures
            final(self).wf(),
            final(self).spec_width() == old(self).spec_width(),
            final(self)@ == old(self)@.update(i as int, v),
    {
        proof {
            lemma_cell_words_in_range(
                self.words@.len() as int,
                self.len as int,
                self.bit_size as int,
                i as int,
            );
            lemma_mask(self.bit_size as u64);
        }
        let w = self.bit_size;
        let bit = i * w;
        let pos = bit / 64;
        let off = (bit % 64) as u64;
        let m = (1u64 << (w as u64)) - 1;
        let ghost old_words = self.words@;
        let w0 = self.words[pos];
        self.words.set(pos, (w0 & !(m << off)) | (v << off));
        if (off as usize) + w > 64 {
            let w1 = self.words[pos + 1];
            self.words.set(pos + 1, (w1 & !(m >> (64 - off))) | (v >> (64 - off)));
        }
        proof {
            self.lemma_set_view(old_words, i as int, v, w0);
        }
    }

    /// The view after `set`: cell `i` reads back the written value and every
    /// other cell is untouched.
    proof fn lemma_set_view(&self, old_words: Seq<u64>, i: int, v: u64, w0: u64)
        requires
            1 <= self.bit_size < 64,
            self.len <= 0x0100_0000,
            0 <= i < self.len,
            self.len * self.bit_size <= old_words.len() * 64,
            old_words.len() <= 0x0200_0000,
            v <= mask_of(self.bit_size as u64),
            w0 == old_words[(i * self.bit_size) / 64],
            ({
                let w = self.bit_size as u64;
                let pos = (i * self.bit_size) / 64;
                let off = ((i * self.bit_size) % 64) as u64;
                let m = mask_of(w);
                let first = old_words.update(pos, (w0 & !(m << off)) | (v << off));
                if off + w > 64 {
                    self.words@ == first.update(
                        pos + 1,
                        (first[pos + 1] & !(m >> ((64 - off) as u64))) | (v >> ((64
                            - off) as u64)),
                    )
                } else {
                    self.words@ == first
                }
            }),
        ensures
            self.wf(),
            self@ == Seq::new(self.len as nat, |k: int| spec_cell(old_words, self.bit_size as u64, k))
                .update(i, v),
    {
        let w = self.bit_size as u64;
        let wi = self.bit_size as int;
        let m = mask_of(w);
        lemma_mask(w);
        let pos = (i * wi) / 64;
        let off = ((i * wi) % 64) as u64;
        lemma_cell_words_in_range(old_words.len() as int, self.len as int, wi, i);
        assert(self.words@.len() == old_words.len());

        // The written cell reads back `v`.
        assert(spec_cell(self.words@, w, i) == v) by {
            if off + w <= 64 {
                lemma_write_read_back(w0, v, m, w, off);
            } else {
                lemma_write_read_back_span(w0, old_words[pos + 1], v, m, w, off);
            }
        }

        // Every other cell is untouched.
        assert forall|j: int| 0 <= j < self.len && j != i implies spec_cell(self.words@, w, j)
            == spec_cell(old_words, w, j) by {
            lemma_cell_words_in_range(old_words.len() as int, self.len as int, wi, j);
            let pj = (j * wi) / 64;
            let oj = ((j * wi) % 64) as u64;
            // Distinct cells occupy disjoint bit ranges.
            if j < i {
                assert(j * wi + wi <= i * wi) by (nonlinear_arith)
                    requires
                        j + 1 <= i,
                        1 <= wi,
                ;
            } else {
                assert(i * wi + wi <= j * wi) by (nonlinear_arith)
                    requires
                        i + 1 <= j,
                        1 <= wi,
                ;
            }
            if oj + w <= 64 {
                // `j` reads only word `pj`.
                if pj == pos {
                    lemma_write_low_read(w0, v, m, w, off, oj);
                } else if off + w > 64 && pj == pos + 1 {
                    lemma_write_high_read(old_words[pj], v, m, w, off, oj);
                } else {
                    assert(self.words@[pj] == old_words[pj]);
                }
            } else {
                // `j` reads words `pj` and `pj + 1`.
                if pj == pos {
                    assert(off + w <= 64);  // both spanning would make the ranges overlap
                    lemma_write_low_read_span_first(
                        w0,
                        old_words[pj + 1],
                        v,
                        m,
                        w,
                        off,
                        oj,
                    );
                } else if pj + 1 == pos {
                    lemma_write_low_read_span_second(
                        old_words[pj],
                        w0,
                        v,
                        m,
                        w,
                        off,
                        oj,
                    );
                } else if off + w > 64 && pj == pos + 1 {
                    lemma_write_high_read_span_first(
                        old_words[pj],
                        old_words[pj + 1],
                        v,
                        m,
                        w,
                        off,
                        oj,
                    );
                } else {
                    assert(self.words@[pj] == old_words[pj]);
                    assert(self.words@[pj + 1] == old_words[pj + 1]);
                }
            }
        }
        assert(self@ =~= Seq::new(
            self.len as nat,
            |k: int| spec_cell(old_words, self.bit_size as u64, k),
        ).update(i, v));
    }

    /// Reallocate at a strictly larger width, preserving every cell's value.
    pub fn resize(&self, new_width: usize) -> (r: BitArray)
        requires
            self.wf(),
            self.spec_width() < new_width < 64,
        ensures
            r.wf(),
            r.spec_width() == new_width as u64,
            r@ == self@,
    {
        let mut r = BitArray::new(self.len, new_width);
        proof {
            assert(mask_of(self.spec_width()) <= mask_of(new_width as u64)) by {
                let w1 = self.spec_width();
                let w2 = new_width as u64;
                lemma_mask(w1);
                lemma_mask(w2);
                assert((1u64 << w1) - 1 <= (1u64 << w2) - 1) by (bit_vector)
                    requires
                        1 <= w1 < 64,
                        w1 < w2 < 64,
                ;
            }
        }
        let n = self.len;
        let mut i: usize = 0;
        while i < n
            invariant
                self.wf(),
                r.wf(),
                n == self@.len(),
                r@.len() == n,
                i <= n,
                r.spec_width() == new_width as u64,
                self.spec_width() < new_width < 64,
                mask_of(self.spec_width()) <= mask_of(new_width as u64),
                forall|k: int| 0 <= k < i ==> r@[k] == self@[k],
            decreases n - i,
        {
            let v = self.get(i);
            r.set(i, v);
            i += 1;
        }
        proof {
            assert(r@ =~= self@);
        }
        r
    }
}

} // verus!
