//! One 16x16x16 sub-volume: a palette-compressed block grid, two light
//! channels, and invalidation flags.
//!
//! The grid stores, per cell, a small index into a palette of
//! `(block value, reference count)` entries. The reference count of an entry
//! is exactly the number of cells holding its index, so the counts always sum
//! to 4096; an entry whose count reaches zero keeps its stale value but is
//! free for reuse. The index array starts 4 bits wide and doubles whenever a
//! new distinct value is needed, no free slot exists, and the palette has
//! outgrown the width.

use vstd::prelude::*;

use crate::bit::BitArray;
use crate::bit::mask_of;
use crate::block::Block;
use crate::nibble::NibbleArray;
use crate::nibble::spec_nibbles;

verus! {

/// Stable identity handle for a section, usable as a dirty-queue
/// correlation key independent of the section's place in memory.
#[derive(PartialEq, Eq, Structural, Clone, Copy, Hash, Debug)]
pub struct SectionKey {
    /// The column x coordinate.
    pub x: i32,
    /// The vertical slot.
    pub y: u8,
    /// The column z coordinate.
    pub z: i32,
}

/// The linear cell index of local coordinates, `(y << 8) | (z << 4) | x`.
pub open spec fn lin_index(x: int, y: int, z: int) -> int {
    y * 256 + z * 16 + x
}

/// How many cells hold palette index `p`.
pub open spec fn count_idx(cells: Seq<u64>, p: u64) -> nat
    decreases cells.len(),
{
    if cells.len() == 0 {
        0
    } else {
        count_idx(cells.drop_last(), p) + (if cells.last() == p {
            1nat
        } else {
            0nat
        })
    }
}

/// The sum of all palette reference counts.
pub open spec fn sum_refs(palette: Seq<(Block, u32)>) -> int
    decreases palette.len(),
{
    if palette.len() == 0 {
        0
    } else {
        sum_refs(palette.drop_last()) + palette.last().1
    }
}

/// Updating one cell moves one unit of count from the old index to the new.
proof fn lemma_count_update(cells: Seq<u64>, i: int, q: u64, p: u64)
    requires
        0 <= i < cells.len(),
    ensures
        count_idx(cells.update(i, q), p) == count_idx(cells, p) - (if cells[i] == p {
            1int
        } else {
            0int
        }) + (if q == p {
            1int
        } else {
            0int
        }),
    decreases cells.len(),
{
    if i == cells.len() - 1 {
        assert(cells.update(i, q).drop_last() =~= cells.drop_last());
    } else {
        assert(cells.update(i, q).drop_last() =~= cells.drop_last().update(i, q));
        lemma_count_update(cells.drop_last(), i, q, p);
    }
}

/// An index held by no cell has count zero.
proof fn lemma_count_zero(cells: Seq<u64>, p: u64)
    requires
        forall|k: int| 0 <= k < cells.len() ==> cells[k] != p,
    ensures
        count_idx(cells, p) == 0,
    decreases cells.len(),
{
    if cells.len() > 0 {
        lemma_count_zero(cells.drop_last(), p);
    }
}

/// An index held by every cell has the full count.
proof fn lemma_count_all(cells: Seq<u64>, p: u64)
    requires
        forall|k: int| 0 <= k < cells.len() ==> cells[k] == p,
    ensures
        count_idx(cells, p) == cells.len(),
    decreases cells.len(),
{
    if cells.len() > 0 {
        lemma_count_all(cells.drop_last(), p);
    }
}

/// The index held by a cell has a positive count.
proof fn lemma_count_nonzero(cells: Seq<u64>, i: int)
    requires
        0 <= i < cells.len(),
    ensures
        count_idx(cells, cells[i]) >= 1,
    decreases cells.len(),
{
    if i == cells.len() - 1 {
    } else {
        lemma_count_nonzero(cells.drop_last(), i);
    }
}

/// Two distinct cells holding the same index push its count to two.
proof fn lemma_count_two(cells: Seq<u64>, i: int, j: int)
    requires
        0 <= i < cells.len(),
        0 <= j < cells.len(),
        i != j,
        cells[i] == cells[j],
    ensures
        count_idx(cells, cells[i]) >= 2,
    decreases cells.len(),
{
    if i == cells.len() - 1 {
        lemma_count_nonzero(cells.drop_last(), j);
    } else if j == cells.len() - 1 {
        lemma_count_nonzero(cells.drop_last(), i);
    } else {
        lemma_count_two(cells.drop_last(), i, j);
    }
}

/// No count exceeds the number of cells.
proof fn lemma_count_bound(cells: Seq<u64>, p: u64)
    ensures
        count_idx(cells, p) <= cells.len(),
    decreases cells.len(),
{
    if cells.len() > 0 {
        lemma_count_bound(cells.drop_last(), p);
    }
}

/// Replacing one palette entry shifts the count sum by the difference.
proof fn lemma_sum_update(palette: Seq<(Block, u32)>, i: int, e: (Block, u32))
    requires
        0 <= i < palette.len(),
    ensures
        sum_refs(palette.update(i, e)) == sum_refs(palette) - palette[i].1 + e.1,
    decreases palette.len(),
{
    if i == palette.len() - 1 {
        assert(palette.update(i, e).drop_last() =~= palette.drop_last());
    } else {
        assert(palette.update(i, e).drop_last() =~= palette.drop_last().update(i, e));
        lemma_sum_update(palette.drop_last(), i, e);
    }
}

/// Appending a palette entry adds its count to the sum.
proof fn lemma_sum_push(palette: Seq<(Block, u32)>, e: (Block, u32))
    ensures
        sum_refs(palette.push(e)) == sum_refs(palette) + e.1,
{
    assert(palette.push(e).drop_last() =~= palette);
}

/// When every entry is live the sum bounds the palette length.
proof fn lemma_sum_lower_bound(palette: Seq<(Block, u32)>)
    requires
        forall|p: int| 0 <= p < palette.len() ==> palette[p].1 >= 1,
    ensures
        sum_refs(palette) >= palette.len(),
    decreases palette.len(),
{
    if palette.len() > 0 {
        lemma_sum_lower_bound(palette.drop_last());
    }
}

/// One 16x16x16 palette-compressed sub-volume.
pub struct Section {
    key: SectionKey,
    blocks: BitArray,
    block_map: Vec<(Block, u32)>,
    block_light: NibbleArray,
    sky_light: NibbleArray,
    dirty: bool,
    building: bool,
}

impl Section {
    /// The block value of every cell, by linear index.
    pub closed spec fn view(&self) -> Seq<Block> {
        Seq::new(4096, |i: int| self.block_map@[self.blocks@[i] as int].0)
    }

    /// The palette: block values with their reference counts.
    pub closed spec fn palette(&self) -> Seq<(Block, u32)> {
        self.block_map@
    }

    /// The block light channel, one value below 16 per cell.
    pub closed spec fn light_block(&self) -> Seq<u8> {
        self.block_light@
    }

    /// The sky light channel, one value below 16 per cell.
    pub closed spec fn light_sky(&self) -> Seq<u8> {
        self.sky_light@
    }

    /// The current width in bits of the packed index array.
    pub closed spec fn spec_width(&self) -> u64 {
        self.blocks.spec_width()
    }

    /// The section's stable identity handle.
    pub closed spec fn spec_key(&self) -> SectionKey {
        self.key
    }

    /// Whether the section has mutations not yet reflected downstream.
    pub closed spec fn is_dirty(&self) -> bool {
        self.dirty
    }

    /// Whether a derived-output rebuild is in flight for the section.
    pub closed spec fn is_building(&self) -> bool {
        self.building
    }

    /// Whether two section values hold the same grid, palette, lights,
    /// identity and width (the invalidation flags may differ).
    pub open spec fn same_contents(&self, other: &Section) -> bool {
        &&& self@ == other@
        &&& self.palette() == other.palette()
        &&& self.light_block() == other.light_block()
        &&& self.light_sky() == other.light_sky()
        &&& self.spec_key() == other.spec_key()
        &&& self.spec_width() == other.spec_width()
    }

    /// Structural soundness: valid width, every cell index inside the
    /// palette, reference counts exactly the cells' index multiplicities and
    /// summing to 4096, and no block value living in two slots at once.
    pub closed spec fn wf(&self) -> bool {
        &&& self.blocks.wf()
        &&& self.blocks@.len() == 4096
        &&& (self.spec_width() == 4 || self.spec_width() == 8 || self.spec_width() == 16
            || self.spec_width() == 32)
        &&& 1 <= self.block_map@.len()
        &&& self.block_map@.len() <= (1u64 << self.spec_width())
        &&& forall|i: int| 0 <= i < 4096 ==> (self.blocks@[i] as int) < self.block_map@.len()
        &&& forall|p: int|
            0 <= p < self.block_map@.len() ==> self.block_map@[p].1 == count_idx(
                self.blocks@,
                p as u64,
            )
        &&& sum_refs(self.block_map@) == 4096
        &&& forall|p: int, q: int|
            0 <= p < q < self.block_map@.len() && self.block_map@[p].1 > 0
                && self.block_map@[q].1 > 0 ==> self.block_map@[p].0 != self.block_map@[q].0
        &&& self.block_light@.len() == 4096
        &&& self.sky_light@.len() == 4096
    }

    /// A fresh all-air section: one palette entry holding every cell, zero
    /// block light, full sky light, clean flags.
    pub fn new(x: i32, y: u8, z: i32) -> (r: Section)
        ensures
            r.wf(),
            r.spec_key() == (SectionKey { x, y, z }),
            r@ == Seq::new(4096, |i: int| Block::Air),
            r.light_block() == Seq::new(4096, |i: int| 0u8),
            r.light_sky() == Seq::new(4096, |i: int| 0xFu8),
            !r.is_dirty(),
            !r.is_building(),
            r.spec_width() == 4,
            r.palette() == seq![(Block::Air, 4096u32)],
    {
        let blocks = BitArray::new(4096, 4);
        let block_light = NibbleArray::new(4096);
        let sky_light = NibbleArray::from_raw(vec![0xFFu8; 2048]);
        let mut block_map: Vec<(Block, u32)> = Vec::new();
        block_map.push((Block::Air, 4096u32));
        let r = Section {
            key: SectionKey { x, y, z },
            blocks,
            block_map,
            block_light,
            sky_light,
            dirty: false,
            building: false,
        };
        proof {
            lemma_count_all(r.blocks@, 0u64);
            assert forall|p: int|
                0 <= p < r.block_map@.len() implies r.block_map@[p].1 == count_idx(
                r.blocks@,
                p as u64,
            ) by {
                assert(p == 0);
            }
            assert((1u64 << 4u64) == 16) by (bit_vector);
            assert(sum_refs(r.block_map@) == 4096) by {
                assert(sum_refs(Seq::<(Block, u32)>::empty()) == 0);
                assert(r.block_map@.drop_last() =~= Seq::<(Block, u32)>::empty());
            }
            assert(r@ =~= Seq::new(4096, |i: int| Block::Air));
            assert(r.block_map@ =~= seq![(Block::Air, 4096u32)]);
            assert forall|i: int| 0 <= i < 4096 implies r.light_sky()[i] == 0xFu8 by {
                assert(0xFFu8 & 0xF == 0xF && 0xFFu8 >> 4 == 0xF) by (bit_vector);
            }
            assert(r.light_sky() =~= Seq::new(4096, |i: int| 0xFu8));
            assert(r.light_block() =~= Seq::new(4096, |i: int| 0u8));
        }
        r
    }

    /// The block value at local coordinates, each in `[0, 16)`.
    pub fn get_block(&self, x: usize, y: usize, z: usize) -> (r: Block)
        requires
            self.wf(),
            x < 16,
            y < 16,
            z < 16,
        ensures
            r == self@[lin_index(x as int, y as int, z as int)],
    {
        let idx = self.blocks.get(y * 256 + z * 16 + x);
        proof {
            assert((self.blocks@[lin_index(x as int, y as int, z as int)] as int)
                < self.block_map@.len());
            assert((1u64 << 4u64) == 0x10 && (1u64 << 8u64) == 0x100 && (1u64 << 16u64) == 0x10000
                && (1u64 << 32u64) == 0x100000000) by (bit_vector);
            assert(idx <= 0xFFFFFFFFu64);
        }
        self.block_map[idx as usize].0
    }

    /// Write a block value at local coordinates. A write that changes the
    /// cell marks the section dirty; writing the value already present is a
    /// no-op. The palette is re-counted, grown, or widened as needed.
    #[verifier::rlimit(60)]
    #[verifier::spinoff_prover]
    pub fn set_block(&mut self, x: usize, y: usize, z: usize, b: Block)
        requires
            old(self).wf(),
            x < 16,
            y < 16,
            z < 16,
        ensures
            final(self).wf(),
            final(self)@ == old(self)@.update(lin_index(x as int, y as int, z as int), b),
            final(self).light_block() == old(self).light_block(),
            final(self).light_sky() == old(self).light_sky(),
            final(self).spec_key() == old(self).spec_key(),
            final(self).is_building() == old(self).is_building(),
            old(self)@[lin_index(x as int, y as int, z as int)] == b ==> final(self).is_dirty()
                == old(self).is_dirty(),
            old(self)@[lin_index(x as int, y as int, z as int)] != b ==> final(self).is_dirty(),
            old(self)@[lin_index(x as int, y as int, z as int)] == b ==> final(self).palette()
                == old(self).palette(),
            // The packed width only ever grows, by doubling, and stays inside
            // its ladder; the palette never outgrows the width and gains at
            // most one entry per write.
            final(self).spec_width() >= old(self).spec_width(),
            final(self).spec_width() == old(self).spec_width() || final(self).spec_width() == 2
                * old(self).spec_width(),
            final(self).spec_width() == 4 || final(self).spec_width() == 8 || final(self).spec_width() == 16 || final(self).spec_width() == 32,
            final(self).palette().len() <= (1u64 << final(self).spec_width()),
            old(self).palette().len() <= final(self).palette().len(),
            final(self).palette().len() <= old(self).palette().len() + 1,
            // The width is untouched unless the write needed a fresh palette
            // slot while none was free and the palette was full at the old
            // width.
            old(self).palette().len() < (1u64 << old(self).spec_width()) ==> final(self).spec_width() == old(self).spec_width(),
            (exists|p: int|
                0 <= p < old(self).palette().len() && (#[trigger] old(self).palette()[p]).1 == 0)
                ==> final(self).spec_width() == old(self).spec_width(),
            (exists|p: int|
                0 <= p < old(self).palette().len() && (#[trigger] old(self).palette()[p]).1 > 0
                    && old(self).palette()[p].0 == b) ==> final(self).spec_width() == old(self).spec_width(),
    {
        let lin = y * 256 + z * 16 + x;
        let ghost lini = lin_index(x as int, y as int, z as int);
        let old_b = self.get_block(x, y, z);
        if old_b == b {
            proof {
                assert(self@ =~= old(self)@.update(lini, b));
            }
            return ;
        }
        let ghost cells0 = self.blocks@;
        let ghost pal0 = self.block_map@;
        let old_idx64 = self.blocks.get(lin);
        proof {
            assert((cells0[lini] as int) < pal0.len());
            assert((1u64 << 4u64) == 0x10 && (1u64 << 8u64) == 0x100 && (1u64 << 16u64) == 0x10000
                && (1u64 << 32u64) == 0x100000000) by (bit_vector);
            assert(old_idx64 <= 0xFFFFFFFFu64);
            lemma_count_nonzero(cells0, lini);
        }
        let old_idx = old_idx64 as usize;
        proof {
            assert(cells0[lini] == old_idx as u64);
            assert(pal0[old_idx as int].1 == count_idx(cells0, old_idx as u64));
        }
        // Release the old value's reference; a count of zero leaves the slot
        // stale but reusable.
        let old_entry = self.block_map[old_idx];
        self.block_map.set(old_idx, (old_entry.0, old_entry.1 - 1));
        proof {
            lemma_sum_update(pal0, old_idx as int, (old_entry.0, (old_entry.1 - 1) as u32));
        }
        let ghost pal1 = self.block_map@;

        // Find a live slot already holding the new value.
        let n = self.block_map.len();
        let mut idx: usize = 0;
        let mut found_live = false;
        let mut i: usize = 0;
        while i < n && !found_live
            invariant
                n == self.block_map@.len(),
                i <= n,
                !found_live ==> forall|k: int|
                    0 <= k < i ==> !(self.block_map@[k].1 > 0 && self.block_map@[k].0 == b),
                found_live ==> idx < n && self.block_map@[idx as int].1 > 0
                    && self.block_map@[idx as int].0 == b,
            decreases n - i,
        {
            let e = self.block_map[i];
            if e.1 > 0 && e.0 == b {
                idx = i;
                found_live = true;
            }
            i += 1;
        }

        let ghost mut resized = false;
        let mut j: usize = 0;
        let mut found_free = false;
        let mut free_at: usize = 0;
        if !found_live {
            // Reuse the first free slot, or append, widening the packed
            // array when the palette has outgrown the current width.
            while j < n && !found_free
                invariant
                    n == self.block_map@.len(),
                    j <= n,
                    !found_free ==> forall|k: int| 0 <= k < j ==> self.block_map@[k].1 != 0,
                    found_free ==> free_at < n && self.block_map@[free_at as int].1 == 0,
                decreases n - j,
            {
                let e = self.block_map[j];
                if e.1 == 0 {
                    found_free = true;
                    free_at = j;
                }
                j += 1;
            }
            if found_free {
                idx = free_at;
                self.block_map.set(free_at, (b, 0u32));
                proof {
                    lemma_sum_update(pal1, free_at as int, (b, 0u32));
                }
            } else {
                proof {
                    lemma_sum_lower_bound(pal1);
                }
                let wdt = self.blocks.width();
                if self.block_map.len() as u64 >= (1u64 << (wdt as u64)) {
                    proof {
                        let w = self.spec_width();
                        assert((1u64 << 16u64) == 0x10000 && (1u64 << 32u64) == 0x100000000)
                            by (bit_vector);
                        resized = true;
                    }
                    let widened = self.blocks.resize(wdt * 2);
                    self.blocks = widened;
                }
                idx = self.block_map.len();
                self.block_map.push((b, 0u32));
                proof {
                    lemma_sum_push(pal1, (b, 0u32));
                    let w2 = self.spec_width();
                    assert((1u64 << 4u64) == 16 && (1u64 << 8u64) == 256 && (1u64 << 16u64)
                        == 0x10000 && (1u64 << 32u64) == 0x100000000) by (bit_vector);
                }
            }
        }
        let ghost pal2 = self.block_map@;

        // Take the new reference and store the index at the cell.
        proof {
            lemma_count_bound(cells0, idx as u64);
        }
        let e = self.block_map[idx];
        self.block_map.set(idx, (e.0, e.1 + 1));
        proof {
            lemma_sum_update(pal2, idx as int, (e.0, (e.1 + 1) as u32));
            let w = self.spec_width();
            crate::bit::lemma_mask(w);
            assert((1u64 << 4u64) == 16 && (1u64 << 8u64) == 256 && (1u64 << 16u64) == 0x10000 && (
            1u64 << 32u64) == 0x100000000) by (bit_vector);
        }
        self.blocks.set(lin, idx as u64);
        self.dirty = true;

        proof {
            let palf = self.block_map@;
            let cellsf = self.blocks@;
            assert(cellsf =~= cells0.update(lini, idx as u64));
            assert forall|p: int| 0 <= p < palf.len() implies palf[p].1 == count_idx(
                cellsf,
                p as u64,
            ) by {
                lemma_count_update(cells0, lini, idx as u64, p as u64);
                if p >= pal0.len() {
                    lemma_count_zero(cells0, p as u64);
                }
            }
            assert forall|k: int| 0 <= k < 4096 && k != lini implies palf[cellsf[k] as int].0
                == pal0[cells0[k] as int].0 by {
                let ck = cells0[k] as int;
                assert(ck < pal0.len());
                lemma_count_nonzero(cells0, k);
                if ck == idx as int && !found_live {
                    // A reused slot was free, so no cell other than the one
                    // being written could still reference it.
                    if idx == old_idx {
                        lemma_count_two(cells0, k, lini);
                    }
                    assert(false);
                }
            }
            assert(self@ =~= old(self)@.update(lini, b));

            // The width clauses: a resize happened only because the palette
            // was full at the old width, with no free slot and no live entry
            // already holding the new value.
            assert(self.spec_width() != old(self).spec_width() ==> resized);
            if resized {
                assert(!found_live && !found_free);
                assert forall|p: int| 0 <= p < pal0.len() implies (#[trigger] pal0[p]).1
                    != 0 by {
                    if p != old_idx as int {
                        assert(pal1[p] == pal0[p]);
                        assert(pal1[p].1 != 0);
                    }
                }
                assert forall|p: int|
                    0 <= p < pal0.len() && (#[trigger] pal0[p]).1 > 0 implies pal0[p].0 != b by {
                    if p != old_idx as int {
                        assert(pal1[p] == pal0[p]);
                        assert(!(pal1[p].1 > 0 && pal1[p].0 == b));
                    } else {
                        assert(pal0[old_idx as int].0 == old_b);
                    }
                }
            }
        }
    }

    /// The block light value at local coordinates, below 16.
    pub fn get_block_light(&self, x: usize, y: usize, z: usize) -> (r: u8)
        requires
            self.wf(),
            x < 16,
            y < 16,
            z < 16,
        ensures
            r == self.light_block()[lin_index(x as int, y as int, z as int)],
            r <= 0xF,
    {
        self.block_light.get(y * 256 + z * 16 + x)
    }

    /// Store the low four bits of `l` as the block light at local
    /// coordinates.
    pub fn set_block_light(&mut self, x: usize, y: usize, z: usize, l: u8)
        requires
            old(self).wf(),
            x < 16,
            y < 16,
            z < 16,
        ensures
            final(self).wf(),
            final(self).light_block() == old(self).light_block().update(
                lin_index(x as int, y as int, z as int),
                l & 0xF,
            ),
            final(self)@ == old(self)@,
            final(self).palette() == old(self).palette(),
            final(self).light_sky() == old(self).light_sky(),
            final(self).spec_key() == old(self).spec_key(),
            final(self).spec_width() == old(self).spec_width(),
            final(self).is_dirty() == old(self).is_dirty(),
            final(self).is_building() == old(self).is_building(),
    {
        self.block_light.set(y * 256 + z * 16 + x, l);
        proof {
            assert(self@ =~= old(self)@);
        }
    }

    /// The sky light value at local coordinates, below 16.
    pub fn get_sky_light(&self, x: usize, y: usize, z: usize) -> (r: u8)
        requires
            self.wf(),
            x < 16,
            y < 16,
            z < 16,
        ensures
            r == self.light_sky()[lin_index(x as int, y as int, z as int)],
            r <= 0xF,
    {
        self.sky_light.get(y * 256 + z * 16 + x)
    }

    /// Store the low four bits of `l` as the sky light at local coordinates.
    pub fn set_sky_light(&mut self, x: usize, y: usize, z: usize, l: u8)
        requires
            old(self).wf(),
            x < 16,
            y < 16,
            z < 16,
        ensures
            final(self).wf(),
            final(self).light_sky() == old(self).light_sky().update(
                lin_index(x as int, y as int, z as int),
                l & 0xF,
            ),
            final(self)@ == old(self)@,
            final(self).palette() == old(self).palette(),
            final(self).light_block() == old(self).light_block(),
            final(self).spec_key() == old(self).spec_key(),
            final(self).spec_width() == old(self).spec_width(),
            final(self).is_dirty() == old(self).is_dirty(),
            final(self).is_building() == old(self).is_building(),
    {
        self.sky_light.set(y * 256 + z * 16 + x, l);
        proof {
            assert(self@ =~= old(self)@);
        }
    }

    /// Replace the block light channel with raw wire bytes.
    pub fn load_block_light(&mut self, bytes: Vec<u8>)
        requires
            old(self).wf(),
            bytes@.len() == 2048,
        ensures
            final(self).wf(),
            final(self).light_block() == spec_nibbles(bytes@),
            final(self)@ == old(self)@,
            final(self).palette() == old(self).palette(),
            final(self).light_sky() == old(self).light_sky(),
            final(self).spec_key() == old(self).spec_key(),
            final(self).spec_width() == old(self).spec_width(),
            final(self).is_dirty() == old(self).is_dirty(),
            final(self).is_building() == old(self).is_building(),
    {
        self.block_light = NibbleArray::from_raw(bytes);
        proof {
            assert(self@ =~= old(self)@);
        }
    }

    /// Replace the sky light channel with raw wire bytes.
    pub fn load_sky_light(&mut self, bytes: Vec<u8>)
        requires
            old(self).wf(),
            bytes@.len() == 2048,
        ensures
            final(self).wf(),
            final(self).light_sky() == spec_nibbles(bytes@),
            final(self)@ == old(self)@,
            final(self).palette() == old(self).palette(),
            final(self).light_block() == old(self).light_block(),
            final(self).spec_key() == old(self).spec_key(),
            final(self).spec_width() == old(self).spec_width(),
            final(self).is_dirty() == old(self).is_dirty(),
            final(self).is_building() == old(self).is_building(),
    {
        self.sky_light = NibbleArray::from_raw(bytes);
        proof {
            assert(self@ =~= old(self)@);
        }
    }

    /// Read the dirty flag.
    pub fn dirty(&self) -> (r: bool)
        ensures
            r == self.is_dirty(),
    {
        self.dirty
    }

    /// Read the building flag.
    pub fn building(&self) -> (r: bool)
        ensures
            r == self.is_building(),
    {
        self.building
    }

    /// The stable identity handle.
    pub fn key(&self) -> (r: SectionKey)
        ensures
            r == self.spec_key(),
    {
        self.key
    }

    /// The current packed-index width in bits.
    pub fn width(&self) -> (r: usize)
        requires
            self.wf(),
        ensures
            r as u64 == self.spec_width(),
    {
        self.blocks.width()
    }

    /// The number of palette entries, live or stale.
    pub fn palette_len(&self) -> (r: usize)
        ensures
            r == self.palette().len(),
    {
        self.block_map.len()
    }

    /// Mark the section as having mutations not yet consumed downstream.
    pub fn mark_dirty(&mut self)
        ensures
            final(self).same_contents(old(self)),
            final(self).wf() == old(self).wf(),
            final(self).is_dirty(),
            final(self).is_building() == old(self).is_building(),
    {
        self.dirty = true;
        proof {
            assert(self@ =~= old(self)@);
        }
    }

    /// Enter a build: the consumer takes the current contents, so the
    /// section reads clean while the build is in flight.
    pub fn enter_build(&mut self)
        ensures
            final(self).same_contents(old(self)),
            final(self).wf() == old(self).wf(),
            !final(self).is_dirty(),
            final(self).is_building(),
    {
        self.building = true;
        self.dirty = false;
        proof {
            assert(self@ =~= old(self)@);
        }
    }

    /// Exit a build. The dirty flag is left alone, so an edit made during
    /// the build re-arms collection.
    pub fn exit_build(&mut self)
        ensures
            final(self).same_contents(old(self)),
            final(self).wf() == old(self).wf(),
            final(self).is_dirty() == old(self).is_dirty(),
            !final(self).is_building(),
    {
        self.building = false;
        proof {
            assert(self@ =~= old(self)@);
        }
    }
}

/// A section's grid always holds exactly 4096 cells, and so do the light
/// channels of a well-formed section.
pub broadcast proof fn lemma_section_lens(s: Section)
    ensures
        (#[trigger] s@).len() == 4096,
        s.wf() ==> (#[trigger] s.light_block()).len() == 4096,
        s.wf() ==> (#[trigger] s.light_sky()).len() == 4096,
{
}

/// Law: in a well-formed section the palette reference counts sum to 4096,
/// the cell count, at every observation point.
pub proof fn lemma_refcount_sum(s: &Section)
    requires
        s.wf(),
    ensures
        sum_refs(s.palette()) == 4096,
{
}

/// Law: no two distinct live palette slots hold the same block value.
pub proof fn lemma_no_live_duplicates(s: &Section, p: int, q: int)
    requires
        s.wf(),
        0 <= p < s.palette().len(),
        0 <= q < s.palette().len(),
        p != q,
        s.palette()[p].1 > 0,
        s.palette()[q].1 > 0,
    ensures
        s.palette()[p].0 != s.palette()[q].0,
{
}

} // verus!
