//! A detached, flattened read view over an axis-aligned cuboid.
//!
//! A snapshot owns dense copies of block ids and both light channels (plus a
//! flat biome layer) and never observes later store mutations. The stored
//! origin only parameterises the index mapping: `make_relative` re-bases the
//! coordinate system without touching any buffer.

use vstd::prelude::*;

use crate::block::Block;
use crate::nibble::NibbleArray;

verus! {

/// A dense origin-relative cuboid of blocks, lights and biomes.
pub struct Snapshot {
    blocks: Vec<Block>,
    block_light: NibbleArray,
    sky_light: NibbleArray,
    biomes: Vec<u8>,
    x: i32,
    y: i32,
    z: i32,
    w: i32,
    h: i32,
    d: i32,
}

impl Snapshot {
    /// The snapshot's origin: the world position of its first cell.
    pub closed spec fn origin(&self) -> (int, int, int) {
        (self.x as int, self.y as int, self.z as int)
    }

    /// The snapshot's extent: width, height, depth.
    pub closed spec fn dims(&self) -> (int, int, int) {
        (self.w as int, self.h as int, self.d as int)
    }

    /// The stored blocks, in index order.
    pub closed spec fn spec_blocks(&self) -> Seq<Block> {
        self.blocks@
    }

    /// The stored block light values.
    pub closed spec fn spec_block_light(&self) -> Seq<u8> {
        self.block_light@
    }

    /// The stored sky light values.
    pub closed spec fn spec_sky_light(&self) -> Seq<u8> {
        self.sky_light@
    }

    /// The linear index of a world position under the current origin.
    pub open spec fn spec_index(&self, x: int, y: int, z: int) -> int {
        (x - self.origin().0) + (z - self.origin().2) * self.dims().0 + (y - self.origin().1)
            * self.dims().0 * self.dims().2
    }

    /// Whether a world position falls inside the cuboid.
    pub open spec fn in_bounds(&self, x: int, y: int, z: int) -> bool {
        &&& self.origin().0 <= x < self.origin().0 + self.dims().0
        &&& self.origin().1 <= y < self.origin().1 + self.dims().1
        &&& self.origin().2 <= z < self.origin().2 + self.dims().2
    }

    /// Structural soundness: non-negative bounded extent and buffers sized
    /// to it.
    pub open spec fn wf(&self) -> bool {
        &&& 0 <= self.dims().0
        &&& 0 <= self.dims().1
        &&& 0 <= self.dims().2
        &&& self.dims().0 * self.dims().1 * self.dims().2 <= 0x4000_0000
        &&& self.spec_blocks().len() == self.dims().0 * self.dims().1 * self.dims().2
        &&& self.spec_block_light().len() >= self.dims().0 * self.dims().1 * self.dims().2
        &&& self.spec_sky_light().len() >= self.dims().0 * self.dims().1 * self.dims().2
        &&& self.origin().0 + self.dims().0 <= i32::MAX
        &&& self.origin().1 + self.dims().1 <= i32::MAX
        &&& self.origin().2 + self.dims().2 <= i32::MAX
    }

    /// An in-bounds position maps to an index inside the buffers.
    pub proof fn lemma_index_bounds(&self, x: int, y: int, z: int)
        requires
            self.wf(),
            self.in_bounds(x, y, z),
        ensures
            0 <= self.spec_index(x, y, z) < self.spec_blocks().len(),
    {
        let w = self.dims().0;
        let h = self.dims().1;
        let d = self.dims().2;
        let dx = x - self.origin().0;
        let dy = y - self.origin().1;
        let dz = z - self.origin().2;
        assert(0 <= dx + dz * w + dy * w * d < w * h * d) by (nonlinear_arith)
            requires
                0 <= dx < w,
                0 <= dy < h,
                0 <= dz < d,
        ;
    }

    /// A fresh snapshot of the given origin and extent, filled with the
    /// `Missing` sentinel, zero block light, full sky light and zero biomes.
    pub fn new(x: i32, y: i32, z: i32, w: i32, h: i32, d: i32) -> (r: Snapshot)
        requires
            0 <= w,
            0 <= h,
            0 <= d,
            w * h * d <= 0x4000_0000,
            w * d <= 0x4000_0000,
            x + w <= i32::MAX,
            y + h <= i32::MAX,
            z + d <= i32::MAX,
        ensures
            r.wf(),
            r.origin() == (x as int, y as int, z as int),
            r.dims() == (w as int, h as int, d as int),
            forall|i: int| 0 <= i < r.spec_blocks().len() ==> r.spec_blocks()[i] == Block::Missing,
            forall|i: int|
                0 <= i < r.spec_blocks().len() ==> r.spec_block_light()[i] == 0
                    && r.spec_sky_light()[i] == 0xF,
    {
        proof {
            assert(w * h * d >= 0 && (w * d) * h == w * h * d && w * d >= 0) by (nonlinear_arith)
                requires
                    0 <= w,
                    0 <= h,
                    0 <= d,
            ;
        }
        let n = (w as usize) * (d as usize) * (h as usize);
        proof {
            assert((w as usize) * (d as usize) * (h as usize) == (w * d) * h) by (nonlinear_arith)
                requires
                    0 <= w,
                    0 <= h,
                    0 <= d,
            ;
        }
        let blocks = vec![Block::Missing; n];
        let block_light = NibbleArray::new(n);
        let mut sky_light = NibbleArray::new(n);
        let mut i: usize = 0;
        while i < n
            invariant
                i <= n,
                sky_light@.len() >= n,
                sky_light@.len() == ((n + 1) / 2) * 2,
                forall|k: int| 0 <= k < i ==> sky_light@[k] == 0xFu8,
            decreases n - i,
        {
            sky_light.set(i, 0xF);
            proof {
                assert(0xFu8 & 0xF == 0xF) by (bit_vector);
            }
            i += 1;
        }
        let r = Snapshot {
            blocks,
            block_light,
            sky_light,
            biomes: vec![0u8; (w as usize) * (d as usize)],
            x,
            y,
            z,
            w,
            h,
            d,
        };
        r
    }

    /// Re-base the coordinate system the accessors expect; no data moves.
    pub fn make_relative(&mut self, x: i32, y: i32, z: i32)
        requires
            old(self).wf(),
            x as int + old(self).dims().0 <= i32::MAX,
            y as int + old(self).dims().1 <= i32::MAX,
            z as int + old(self).dims().2 <= i32::MAX,
        ensures
            final(self).wf(),
            final(self).origin() == (x as int, y as int, z as int),
            final(self).dims() == old(self).dims(),
            final(self).spec_blocks() == old(self).spec_blocks(),
            final(self).spec_block_light() == old(self).spec_block_light(),
            final(self).spec_sky_light() == old(self).spec_sky_light(),
    {
        self.x = x;
        self.y = y;
        self.z = z;
    }

    /// The linear buffer index of an in-bounds world position.
    fn index(&self, x: i32, y: i32, z: i32) -> (r: usize)
        requires
            self.wf(),
            self.in_bounds(x as int, y as int, z as int),
        ensures
            r == self.spec_index(x as int, y as int, z as int),
            r < self.spec_blocks().len(),
    {
        proof {
            self.lemma_index_bounds(x as int, y as int, z as int);
            let w = self.dims().0;
            let d = self.dims().2;
            let dx = x - self.origin().0;
            let dy = y as int - self.origin().1;
            let dz = z as int - self.origin().2;
            assert(dz * w <= dx + dz * w + dy * w * d && dy * (w * d) == dy * w * d && dy * w <= dy
                * (w * d) && (dy * w) * d == dy * (w * d) && dy * (w * d) <= dx + dz * w + dy * w
                * d) by (nonlinear_arith)
                requires
                    0 <= dx,
                    0 <= dy,
                    0 <= dz < d,
                    0 <= w,
            ;
        }
        (x - self.x) as usize + (z - self.z) as usize * (self.w as usize) + (y - self.y) as usize
            * (self.w as usize) * (self.d as usize)
    }

    /// Read the block at an in-bounds world position.
    pub fn get_block(&self, x: i32, y: i32, z: i32) -> (r: Block)
        requires
            self.wf(),
            self.in_bounds(x as int, y as int, z as int),
        ensures
            r == self.spec_blocks()[self.spec_index(x as int, y as int, z as int)],
    {
        self.blocks[self.index(x, y, z)]
    }

    /// Write the block at an in-bounds world position.
    pub fn set_block(&mut self, x: i32, y: i32, z: i32, b: Block)
        requires
            old(self).wf(),
            old(self).in_bounds(x as int, y as int, z as int),
        ensures
            final(self).wf(),
            final(self).spec_blocks() == old(self).spec_blocks().update(
                old(self).spec_index(x as int, y as int, z as int),
                b,
            ),
            final(self).origin() == old(self).origin(),
            final(self).dims() == old(self).dims(),
            final(self).spec_block_light() == old(self).spec_block_light(),
            final(self).spec_sky_light() == old(self).spec_sky_light(),
    {
        let idx = self.index(x, y, z);
        self.blocks.set(idx, b);
    }

    /// Read the block light at an in-bounds world position.
    pub fn get_block_light(&self, x: i32, y: i32, z: i32) -> (r: u8)
        requires
            self.wf(),
            self.in_bounds(x as int, y as int, z as int),
        ensures
            r == self.spec_block_light()[self.spec_index(x as int, y as int, z as int)],
            r <= 0xF,
    {
        proof {
            self.lemma_index_bounds(x as int, y as int, z as int);
        }
        self.block_light.get(self.index(x, y, z))
    }

    /// Store the low four bits of `l` as the block light at an in-bounds
    /// world position.
    pub fn set_block_light(&mut self, x: i32, y: i32, z: i32, l: u8)
        requires
            old(self).wf(),
            old(self).in_bounds(x as int, y as int, z as int),
        ensures
            final(self).wf(),
            final(self).spec_block_light() == old(self).spec_block_light().update(
                old(self).spec_index(x as int, y as int, z as int),
                l & 0xF,
            ),
            final(self).origin() == old(self).origin(),
            final(self).dims() == old(self).dims(),
            final(self).spec_blocks() == old(self).spec_blocks(),
            final(self).spec_sky_light() == old(self).spec_sky_light(),
    {
        proof {
            self.lemma_index_bounds(x as int, y as int, z as int);
        }
        let idx = self.index(x, y, z);
        self.block_light.set(idx, l);
    }

    /// Read the sky light at an in-bounds world position.
    pub fn get_sky_light(&self, x: i32, y: i32, z: i32) -> (r: u8)
        requires
            self.wf(),
            self.in_bounds(x as int, y as int, z as int),
        ensures
            r == self.spec_sky_light()[self.spec_index(x as int, y as int, z as int)],
            r <= 0xF,
    {
        proof {
            self.lemma_index_bounds(x as int, y as int, z as int);
        }
        self.sky_light.get(self.index(x, y, z))
    }

    /// Store the low four bits of `l` as the sky light at an in-bounds world
    /// position.
    pub fn set_sky_light(&mut self, x: i32, y: i32, z: i32, l: u8)
        requires
            old(self).wf(),
            old(self).in_bounds(x as int, y as int, z as int),
        ensures
            final(self).wf(),
            final(self).spec_sky_light() == old(self).spec_sky_light().update(
                old(self).spec_index(x as int, y as int, z as int),
                l & 0xF,
            ),
            final(self).origin() == old(self).origin(),
            final(self).dims() == old(self).dims(),
            final(self).spec_blocks() == old(self).spec_blocks(),
            final(self).spec_block_light() == old(self).spec_block_light(),
    {
        proof {
            self.lemma_index_bounds(x as int, y as int, z as int);
        }
        let idx = self.index(x, y, z);
        self.sky_light.set(idx, l);
    }
}

} // verus!
