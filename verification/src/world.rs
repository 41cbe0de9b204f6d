//! The top-level store: a mapping from 2D column positions to columns, with
//! point read/write, invalidation collection, build-flag control, and column
//! load/unload.

use vstd::prelude::*;

use crate::block::Block;
use crate::chunk::CPos;
use crate::chunk::Chunk;
use crate::codec::DecodeError;
use crate::codec::SlotPayload;
use crate::codec::lemma_load_split;
use crate::codec::lemma_load_upto_extend;
use crate::codec::mask_bit;
use crate::codec::spec_decoded_blocks;
use crate::codec::spec_load;
use crate::codec::spec_load_upto;
use crate::codec::spec_slot;
use crate::nibble::spec_nibbles;
use crate::section::Section;
use crate::section::SectionKey;
use crate::snapshot::Snapshot;

verus! {

broadcast use crate::section::lemma_section_lens;

/// Whether a column sits at the given grid position.
pub open spec fn pos_is(c: Chunk, cx: int, cz: int) -> bool {
    c.spec_pos().0 == cx && c.spec_pos().1 == cz
}

/// Split a coordinate into its column index (floor division by 16) and its
/// local offset within the column.
pub fn floor16(v: i32) -> (r: (i32, usize))
    ensures
        r.0 as int == (v as int) / 16,
        r.1 as int == (v as int) % 16,
        r.1 < 16,
{
    let shifted = ((v as i64) + 0x8000_0000) as u64;
    let q = shifted / 16;
    let m = shifted % 16;
    proof {
        vstd::arithmetic::div_mod::lemma_fundamental_div_mod(shifted as int, 16);
        vstd::arithmetic::div_mod::lemma_fundamental_div_mod_converse(
            v as int,
            16,
            q as int - 0x0800_0000,
            m as int,
        );
    }
    ((q as i64 - 0x0800_0000) as i32, m as usize)
}

/// The world: every loaded column, uniquely keyed by position.
pub struct World {
    chunks: Vec<Chunk>,
}

impl World {
    /// The loaded columns, in storage order. Order carries no meaning; the
    /// positions are pairwise distinct.
    pub closed spec fn spec_chunks(&self) -> Seq<Chunk> {
        self.chunks@
    }

    /// Whether a column is loaded at grid position `(cx, cz)`.
    pub open spec fn spec_loaded(&self, cx: int, cz: int) -> bool {
        exists|k: int|
            0 <= k < self.spec_chunks().len() && pos_is(#[trigger] self.spec_chunks()[k], cx, cz)
    }

    /// The column at `(cx, cz)`; meaningful only when loaded.
    pub open spec fn chunk_at(&self, cx: int, cz: int) -> Chunk {
        self.spec_chunks()[choose|k: int|
            0 <= k < self.spec_chunks().len() && pos_is(#[trigger] self.spec_chunks()[k], cx, cz)]
    }

    /// Structural soundness: every column well formed and no two columns at
    /// the same position.
    pub open spec fn wf(&self) -> bool {
        &&& forall|k: int|
            0 <= k < self.spec_chunks().len() ==> (#[trigger] self.spec_chunks()[k]).wf()
        &&& forall|k1: int, k2: int|
            #![trigger self.spec_chunks()[k1], self.spec_chunks()[k2]]
            0 <= k1 < self.spec_chunks().len() && 0 <= k2 < self.spec_chunks().len() && k1 != k2
                ==> !(pos_is(self.spec_chunks()[k1], self.spec_chunks()[k2].spec_pos().0 as int,
            self.spec_chunks()[k2].spec_pos().1 as int))
    }

    /// The block at a global position: `Missing` when the column is not
    /// loaded, otherwise the column's reading.
    pub open spec fn block_at(&self, x: int, y: int, z: int) -> Block {
        if self.spec_loaded(x / 16, z / 16) {
            self.chunk_at(x / 16, z / 16).block_at(x % 16, y, z % 16)
        } else {
            Block::Missing
        }
    }

    /// The block light at a global position; zero where nothing stores one.
    pub open spec fn block_light_at(&self, x: int, y: int, z: int) -> u8 {
        if self.spec_loaded(x / 16, z / 16) {
            self.chunk_at(x / 16, z / 16).block_light_at(x % 16, y, z % 16)
        } else {
            0u8
        }
    }

    /// The sky light at a global position; full where nothing stores one.
    pub open spec fn sky_light_at(&self, x: int, y: int, z: int) -> u8 {
        if self.spec_loaded(x / 16, z / 16) {
            self.chunk_at(x / 16, z / 16).sky_light_at(x % 16, y, z % 16)
        } else {
            0xFu8
        }
    }

    /// The section in vertical slot `sy` of the column at `(cx, cz)`, if any.
    pub open spec fn section_at(&self, cx: int, sy: int, cz: int) -> Option<Section> {
        if self.spec_loaded(cx, cz) && 0 <= sy < 16 {
            self.chunk_at(cx, cz).slots()[sy]
        } else {
            Option::None
        }
    }

    /// Whether a section exists in the given slot.
    pub open spec fn section_present(&self, cx: int, sy: int, cz: int) -> bool {
        self.section_at(cx, sy, cz) is Some
    }

    /// The dirty flag of the section in the given slot; absent reads clean.
    pub open spec fn section_dirty(&self, cx: int, sy: int, cz: int) -> bool {
        match self.section_at(cx, sy, cz) {
            Option::Some(s) => s.is_dirty(),
            Option::None => false,
        }
    }

    /// The building flag of the section in the given slot.
    pub open spec fn section_building(&self, cx: int, sy: int, cz: int) -> bool {
        match self.section_at(cx, sy, cz) {
            Option::Some(s) => s.is_building(),
            Option::None => false,
        }
    }

    /// An empty world: nothing loaded.
    pub fn new() -> (r: World)
        ensures
            r.wf(),
            r.spec_chunks().len() == 0,
            forall|cx: int, cz: int| !r.spec_loaded(cx, cz),
    {
        World { chunks: Vec::new() }
    }

    /// The index of the column at `(cx, cz)`, if one is loaded.
    fn find_chunk(&self, cx: i32, cz: i32) -> (r: Option<usize>)
        requires
            self.wf(),
        ensures
            match r {
                Option::Some(i) => i < self.spec_chunks().len() && pos_is(
                    self.spec_chunks()[i as int],
                    cx as int,
                    cz as int,
                ) && self.spec_loaded(cx as int, cz as int) && self.chunk_at(cx as int, cz as int)
                    == self.spec_chunks()[i as int],
                Option::None => !self.spec_loaded(cx as int, cz as int),
            },
    {
        let n = self.chunks.len();
        let mut i: usize = 0;
        while i < n
            invariant
                self.wf(),
                n == self.spec_chunks().len(),
                i <= n,
                forall|k: int| 0 <= k < i ==> !pos_is(#[trigger] self.spec_chunks()[k], cx as int, cz as int),
            decreases n - i,
        {
            let c = &self.chunks[i];
            if c.pos().0 == cx && c.pos().1 == cz {
                proof {
                    assert(pos_is(self.spec_chunks()[i as int], cx as int, cz as int));
                    let k = choose|k: int|
                        0 <= k < self.spec_chunks().len() && pos_is(
                            #[trigger] self.spec_chunks()[k],
                            cx as int,
                            cz as int,
                        );
                    assert(k == i as int);
                }
                return Option::Some(i);
            }
            i += 1;
        }
        Option::None
    }

    /// Whether a column is loaded at grid position `(x, z)`.
    pub fn is_chunk_loaded(&self, x: i32, z: i32) -> (r: bool)
        requires
            self.wf(),
        ensures
            r == self.spec_loaded(x as int, z as int),
    {
        self.find_chunk(x, z).is_some()
    }

    /// Read the block at a global position.
    pub fn get_block(&self, x: i32, y: i32, z: i32) -> (r: Block)
        requires
            self.wf(),
        ensures
            r == self.block_at(x as int, y as int, z as int),
    {
        let (cx, lx) = floor16(x);
        let (cz, lz) = floor16(z);
        match self.find_chunk(cx, cz) {
            Option::Some(i) => self.chunks[i].get_block(lx, y, lz),
            Option::None => Block::Missing,
        }
    }

    /// Write the block at a global position, creating the column on demand.
    /// A vertical coordinate outside the sixteen slots changes no cell.
    pub fn set_block(&mut self, x: i32, y: i32, z: i32, b: Block)
        requires
            old(self).wf(),
        ensures
            final(self).wf(),
            final(self).block_at(x as int, y as int, z as int) == (if 0 <= y <= 255 {
                b
            } else {
                Block::Missing
            }),
            forall|cx: int, cz: int|
                #![trigger final(self).spec_loaded(cx, cz)]
                final(self).spec_loaded(cx, cz) == (old(self).spec_loaded(cx, cz) || (cx == x as int
                    / 16 && cz == z as int / 16)),
            forall|x2: int, y2: int, z2: int|
                #![trigger final(self).block_at(x2, y2, z2)]
                !(x2 / 16 == x as int / 16 && z2 / 16 == z as int / 16) ==> final(self).block_at(
                    x2,
                    y2,
                    z2,
                ) == old(self).block_at(x2, y2, z2),
            old(self).spec_loaded(x as int / 16, z as int / 16) ==> forall|x2: int, y2: int, z2: int|
                #![trigger final(self).block_at(x2, y2, z2)]
                !(x2 == x as int && y2 == y as int && z2 == z as int) ==> final(self).block_at(
                    x2,
                    y2,
                    z2,
                ) == old(self).block_at(x2, y2, z2),
            !old(self).spec_loaded(x as int / 16, z as int / 16) ==> forall|x2: int, y2: int, z2: int|
                #![trigger final(self).block_at(x2, y2, z2)]
                x2 / 16 == x as int / 16 && z2 / 16 == z as int / 16 && !(x2 == x as int && y2
                    == y as int && z2 == z as int) ==> final(self).block_at(x2, y2, z2) == (if 0
                    <= y2 <= 255 {
                    Block::Air
                } else {
                    Block::Missing
                }),
            forall|x2: int, y2: int, z2: int|
                #![trigger final(self).block_light_at(x2, y2, z2)]
                final(self).block_light_at(x2, y2, z2) == old(self).block_light_at(x2, y2, z2),
            forall|x2: int, y2: int, z2: int|
                #![trigger final(self).sky_light_at(x2, y2, z2)]
                final(self).sky_light_at(x2, y2, z2) == old(self).sky_light_at(x2, y2, z2),
            forall|cx: int, sy: int, cz: int|
                #![trigger final(self).section_at(cx, sy, cz)]
                !(cx == x as int / 16 && sy == y as int / 16 && cz == z as int / 16) ==> final(self).section_at(cx, sy, cz) == old(self).section_at(cx, sy, cz),
            final(self).section_building(x as int / 16, y as int / 16, z as int / 16) == old(self).section_building(x as int / 16, y as int / 16, z as int / 16),
            ({
                let prev = if old(self).spec_loaded(x as int / 16, z as int / 16) {
                    old(self).block_at(x as int, y as int, z as int)
                } else if 0 <= y <= 255 {
                    Block::Air
                } else {
                    Block::Missing
                };
                &&& (0 <= y <= 255 && prev != b ==> final(self).section_dirty(
                    x as int / 16,
                    y as int / 16,
                    z as int / 16,
                ))
                &&& (!(0 <= y <= 255 && prev != b) ==> final(self).section_dirty(
                    x as int / 16,
                    y as int / 16,
                    z as int / 16,
                ) == old(self).section_dirty(x as int / 16, y as int / 16, z as int / 16))
            }),
    {
        let (cx, lx) = floor16(x);
        let (cz, lz) = floor16(z);
        let found = self.find_chunk(cx, cz);
        let i = match found {
            Option::Some(i) => i,
            Option::None => {
                let n = self.chunks.len();
                self.chunks.push(Chunk::new(CPos(cx, cz)));
                n
            },
        };
        let ghost mid = *self;
        proof {
            if found is None {
                lemma_chunk_pushed(*old(self), mid, i as int, cx as int, cz as int);
            }
            assert(pos_is(mid.spec_chunks()[i as int], cx as int, cz as int));
            assert(mid.chunk_at(cx as int, cz as int) == mid.spec_chunks()[i as int]) by {
                let k = choose|k: int|
                    0 <= k < mid.spec_chunks().len() && pos_is(
                        #[trigger] mid.spec_chunks()[k],
                        cx as int,
                        cz as int,
                    );
                assert(k == i as int);
            }
        }
        let c = &mut self.chunks[i];
        c.set_block(lx, y, lz, b);
        proof {
            lemma_one_chunk_updated(mid, *self, i as int, cx as int, cz as int);
            let cxi = x as int / 16;
            let czi = z as int / 16;
            let cpre = mid.spec_chunks()[i as int];
            let cpost = self.spec_chunks()[i as int];
            assert(self.chunk_at(cxi, czi) == cpost);
            // Cells of other columns are untouched.
            assert forall|x2: int, y2: int, z2: int|
                !(x2 / 16 == cxi && z2 / 16 == czi) implies #[trigger] self.block_at(x2, y2, z2)
                == old(self).block_at(x2, y2, z2) by {
                assert(self.spec_loaded(x2 / 16, z2 / 16) == old(self).spec_loaded(
                    x2 / 16,
                    z2 / 16,
                ));
            }
            // Other cells of the written column read as before (or as a
            // fresh column, when one was created).
            assert forall|x2: int, y2: int, z2: int|
                x2 / 16 == cxi && z2 / 16 == czi && !(x2 == x as int && y2 == y as int && z2
                    == z as int) implies #[trigger] self.block_at(x2, y2, z2) == cpre.block_at(
                x2 % 16,
                y2,
                z2 % 16,
            ) by {
                if x2 % 16 == x as int % 16 && z2 % 16 == z as int % 16 && y2 == y as int {
                    lemma_divmod16_unique(x2, x as int);
                    lemma_divmod16_unique(z2, z as int);
                }
            }
            assert forall|x2: int, y2: int, z2: int|
                #![trigger self.block_light_at(x2, y2, z2)]
                #![trigger self.sky_light_at(x2, y2, z2)]
                true implies self.block_light_at(x2, y2, z2) == old(self).block_light_at(
                x2,
                y2,
                z2,
            ) && self.sky_light_at(x2, y2, z2) == old(self).sky_light_at(x2, y2, z2) by {
                vstd::arithmetic::div_mod::lemma_mod_bound(x2, 16);
                vstd::arithmetic::div_mod::lemma_mod_bound(z2, 16);
                if !(x2 / 16 == cxi && z2 / 16 == czi) {
                    assert(self.spec_loaded(x2 / 16, z2 / 16) == old(self).spec_loaded(
                        x2 / 16,
                        z2 / 16,
                    ));
                }
            }
            assert forall|y2: int|
                0 <= y2 <= 255 && #[trigger] (y2 / 16) == y as int / 16 && y2 % 16 == y as int
                    % 16 implies y2 == y as int by {
                lemma_divmod16_unique(y2, y as int);
            }
        }
    }

    /// Drop the column at `(x, z)` and all its sections.
    pub fn unload_chunk(&mut self, x: i32, z: i32)
        requires
            old(self).wf(),
        ensures
            final(self).wf(),
            !final(self).spec_loaded(x as int, z as int),
            forall|cx: int, cz: int|
                #![trigger final(self).spec_loaded(cx, cz)]
                !(cx == x as int && cz == z as int) ==> final(self).spec_loaded(cx, cz) == old(self).spec_loaded(cx, cz) && (old(self).spec_loaded(cx, cz) ==> final(self).chunk_at(
                    cx,
                    cz,
                ) == old(self).chunk_at(cx, cz)),
    {
        match self.find_chunk(x, z) {
            Option::Some(i) => {
                self.chunks.remove(i);
                proof {
                    lemma_chunk_removed(*old(self), *self, i as int, x as int, z as int);
                }
            },
            Option::None => {},
        }
    }

    /// Begin a derived-data build for the section at `(pos.0, pos.1, pos.2)`
    /// (column x, vertical slot, column z): the building flag is set and the
    /// dirty flag cleared, so the section is excluded from collection while
    /// the build is in flight. A no-op when the target does not exist.
    pub fn set_building_flag(&mut self, pos: (i32, i32, i32))
        requires
            old(self).wf(),
        ensures
            final(self).wf(),
            forall|cx: int, sy: int, cz: int|
                #![trigger final(self).section_at(cx, sy, cz)]
                !(cx == pos.0 as int && sy == pos.1 as int && cz == pos.2 as int) ==> final(self).section_at(cx, sy, cz) == old(self).section_at(cx, sy, cz),
            forall|cx: int, cz: int|
                #![trigger final(self).spec_loaded(cx, cz)]
                final(self).spec_loaded(cx, cz) == old(self).spec_loaded(cx, cz),
            match old(self).section_at(pos.0 as int, pos.1 as int, pos.2 as int) {
                Option::Some(s) => match final(self).section_at(
                    pos.0 as int,
                    pos.1 as int,
                    pos.2 as int,
                ) {
                    Option::Some(s2) => s2.same_contents(&s) && !s2.is_dirty()
                        && s2.is_building(),
                    Option::None => false,
                },
                Option::None => final(self).section_at(
                    pos.0 as int,
                    pos.1 as int,
                    pos.2 as int,
                ) is None,
            },
            forall|x2: int, y2: int, z2: int|
                #![trigger final(self).block_at(x2, y2, z2)]
                final(self).block_at(x2, y2, z2) == old(self).block_at(x2, y2, z2),
    {
        if pos.1 < 0 || pos.1 > 15 {
            return ;
        }
        match self.find_chunk(pos.0, pos.2) {
            Option::Some(i) => {
                let ghost mid = *self;
                proof {
                    lemma_chunk_at_index(mid, i as int);
                }
                let c = &mut self.chunks[i];
                c.enter_build_slot(pos.1 as usize);
                proof {
                    lemma_one_chunk_updated(mid, *self, i as int, pos.0 as int, pos.2 as int);
                    lemma_contents_same_blocks(mid, *self, pos.0 as int, pos.2 as int);
                }
            },
            Option::None => {},
        }
    }

    /// End a derived-data build for the section at `(pos.0, pos.1, pos.2)`.
    /// The dirty flag is left alone, so an edit made during the build re-arms
    /// collection. A no-op when the target does not exist.
    pub fn reset_building_flag(&mut self, pos: (i32, i32, i32))
        requires
            old(self).wf(),
        ensures
            final(self).wf(),
            forall|cx: int, sy: int, cz: int|
                #![trigger final(self).section_at(cx, sy, cz)]
                !(cx == pos.0 as int && sy == pos.1 as int && cz == pos.2 as int) ==> final(self).section_at(cx, sy, cz) == old(self).section_at(cx, sy, cz),
            forall|cx: int, cz: int|
                #![trigger final(self).spec_loaded(cx, cz)]
                final(self).spec_loaded(cx, cz) == old(self).spec_loaded(cx, cz),
            match old(self).section_at(pos.0 as int, pos.1 as int, pos.2 as int) {
                Option::Some(s) => match final(self).section_at(
                    pos.0 as int,
                    pos.1 as int,
                    pos.2 as int,
                ) {
                    Option::Some(s2) => s2.same_contents(&s) && s2.is_dirty() == s.is_dirty()
                        && !s2.is_building(),
                    Option::None => false,
                },
                Option::None => final(self).section_at(
                    pos.0 as int,
                    pos.1 as int,
                    pos.2 as int,
                ) is None,
            },
            forall|x2: int, y2: int, z2: int|
                #![trigger final(self).block_at(x2, y2, z2)]
                final(self).block_at(x2, y2, z2) == old(self).block_at(x2, y2, z2),
    {
        if pos.1 < 0 || pos.1 > 15 {
            return ;
        }
        match self.find_chunk(pos.0, pos.2) {
            Option::Some(i) => {
                let ghost mid = *self;
                proof {
                    lemma_chunk_at_index(mid, i as int);
                }
                let c = &mut self.chunks[i];
                c.exit_build_slot(pos.1 as usize);
                proof {
                    lemma_one_chunk_updated(mid, *self, i as int, pos.0 as int, pos.2 as int);
                    lemma_contents_same_blocks(mid, *self, pos.0 as int, pos.2 as int);
                }
            },
            Option::None => {},
        }
    }

    /// Mark the section in a slot dirty, if it exists. Used to re-flag the
    /// face-adjacent neighbours of freshly loaded sections.
    fn flag_section_dirty(&mut self, x: i32, y: i32, z: i32)
        requires
            old(self).wf(),
        ensures
            final(self).wf(),
            forall|cx: int, sy: int, cz: int|
                #![trigger final(self).section_at(cx, sy, cz)]
                !(cx == x as int && sy == y as int && cz == z as int) ==> final(self).section_at(
                    cx,
                    sy,
                    cz,
                ) == old(self).section_at(cx, sy, cz),
            forall|cx: int, cz: int|
                #![trigger final(self).spec_loaded(cx, cz)]
                final(self).spec_loaded(cx, cz) == old(self).spec_loaded(cx, cz),
            match old(self).section_at(x as int, y as int, z as int) {
                Option::Some(s) => match final(self).section_at(x as int, y as int, z as int) {
                    Option::Some(s2) => s2.same_contents(&s) && s2.is_dirty() && s2.is_building()
                        == s.is_building(),
                    Option::None => false,
                },
                Option::None => final(self).section_at(x as int, y as int, z as int) is None,
            },
            forall|x2: int, y2: int, z2: int|
                #![trigger final(self).block_at(x2, y2, z2)]
                final(self).block_at(x2, y2, z2) == old(self).block_at(x2, y2, z2),
    {
        if y < 0 || y > 15 {
            return ;
        }
        match self.find_chunk(x, z) {
            Option::Some(i) => {
                let ghost mid = *self;
                proof {
                    lemma_chunk_at_index(mid, i as int);
                }
                let c = &mut self.chunks[i];
                c.flag_slot_dirty(y as usize);
                proof {
                    lemma_one_chunk_updated(mid, *self, i as int, x as int, z as int);
                    lemma_contents_same_blocks(mid, *self, x as int, z as int);
                }
            },
            Option::None => {},
        }
    }

    /// Flag the six face-adjacent neighbours of the section in slot `yi` at
    /// `(x, z)` dirty, where they exist.
    #[verifier::rlimit(100)]
    #[verifier::spinoff_prover]
    fn flag_neighbours(&mut self, x: i32, yi: i32, z: i32)
        requires
            old(self).wf(),
            i32::MIN < x < i32::MAX,
            i32::MIN < z < i32::MAX,
            0 <= yi <= 15,
        ensures
            final(self).wf(),
            forall|cx: int, cz: int|
                #![trigger final(self).spec_loaded(cx, cz)]
                final(self).spec_loaded(cx, cz) == old(self).spec_loaded(cx, cz),
            forall|x2: int, y2: int, z2: int|
                #![trigger final(self).block_at(x2, y2, z2)]
                final(self).block_at(x2, y2, z2) == old(self).block_at(x2, y2, z2),
            forall|cx: int, sy: int, cz: int|
                #![trigger final(self).section_at(cx, sy, cz)]
                section_kept(
                    old(self).section_at(cx, sy, cz),
                    final(self).section_at(cx, sy, cz),
                ),
            forall|cx: int, sy: int, cz: int|
                #![trigger final(self).section_dirty(cx, sy, cz)]
                old(self).section_dirty(cx, sy, cz) ==> final(self).section_dirty(cx, sy, cz),
            neighbours_dirty(final(self), x as int, z as int, yi as int),
    {
        self.flag_section_dirty(x - 1, yi, z);
        self.flag_section_dirty(x + 1, yi, z);
        self.flag_section_dirty(x, yi - 1, z);
        self.flag_section_dirty(x, yi + 1, z);
        self.flag_section_dirty(x, yi, z - 1);
        self.flag_section_dirty(x, yi, z + 1);
    }

    /// Force every existing section dirty, for global invalidation.
    pub fn flag_dirty_all(&mut self)
        requires
            old(self).wf(),
        ensures
            final(self).wf(),
            forall|cx: int, cz: int|
                #![trigger final(self).spec_loaded(cx, cz)]
                final(self).spec_loaded(cx, cz) == old(self).spec_loaded(cx, cz),
            forall|cx: int, sy: int, cz: int|
                #![trigger final(self).section_at(cx, sy, cz)]
                match old(self).section_at(cx, sy, cz) {
                    Option::Some(s) => match final(self).section_at(cx, sy, cz) {
                        Option::Some(s2) => s2.same_contents(&s) && s2.is_dirty()
                            && s2.is_building() == s.is_building(),
                        Option::None => false,
                    },
                    Option::None => final(self).section_at(cx, sy, cz) is None,
                },
            forall|x2: int, y2: int, z2: int|
                #![trigger final(self).block_at(x2, y2, z2)]
                final(self).block_at(x2, y2, z2) == old(self).block_at(x2, y2, z2),
    {
        let n = self.chunks.len();
        let mut i: usize = 0;
        while i < n
            invariant
                self.wf(),
                n == self.spec_chunks().len(),
                n == old(self).spec_chunks().len(),
                i <= n,
                forall|k: int|
                    i as int <= k < n ==> #[trigger] self.spec_chunks()[k] == old(self).spec_chunks()[k],
                forall|k: int|
                    0 <= k < i as int ==> chunk_flagged(
                        old(self).spec_chunks()[k],
                        #[trigger] self.spec_chunks()[k],
                    ),
            decreases n - i,
        {
            let ghost mid = *self;
            let c = &mut self.chunks[i];
            c.flag_all_dirty();
            proof {
                assert forall|k: int|
                    0 <= k < i as int implies chunk_flagged(
                    old(self).spec_chunks()[k],
                    #[trigger] self.spec_chunks()[k],
                ) by {
                    assert(self.spec_chunks()[k] == mid.spec_chunks()[k]);
                }
                assert(chunk_flagged(old(self).spec_chunks()[i as int], self.spec_chunks()[i as int]));
                assert forall|k1: int, k2: int|
                    #![trigger self.spec_chunks()[k1], self.spec_chunks()[k2]]
                    0 <= k1 < self.spec_chunks().len() && 0 <= k2 < self.spec_chunks().len() && k1
                        != k2 implies !(pos_is(
                    self.spec_chunks()[k1],
                    self.spec_chunks()[k2].spec_pos().0 as int,
                    self.spec_chunks()[k2].spec_pos().1 as int,
                )) by {
                    assert(self.spec_chunks()[k1].spec_pos() == mid.spec_chunks()[k1].spec_pos());
                    assert(self.spec_chunks()[k2].spec_pos() == mid.spec_chunks()[k2].spec_pos());
                }
            }
            i += 1;
        }
        proof {
            lemma_positions_preserved(*old(self), *self);
            assert forall|cx: int, sy: int, cz: int| #[trigger]
                self.section_at(cx, sy, cz) == self.section_at(cx, sy, cz) && (match old(
                self,
            ).section_at(cx, sy, cz) {
                Option::Some(s) => match self.section_at(cx, sy, cz) {
                    Option::Some(s2) => s2.same_contents(&s) && s2.is_dirty() && s2.is_building()
                        == s.is_building(),
                    Option::None => false,
                },
                Option::None => self.section_at(cx, sy, cz) is None,
            }) by {
                if old(self).spec_loaded(cx, cz) && 0 <= sy < 16 {
                    let k = choose|k: int|
                        0 <= k < old(self).spec_chunks().len() && old(self).chunk_at(cx, cz)
                            == old(self).spec_chunks()[k] && self.chunk_at(cx, cz)
                            == #[trigger] self.spec_chunks()[k];
                    assert(chunk_flagged(old(self).spec_chunks()[k], self.spec_chunks()[k]));
                }
            }
        }
    }

    /// Collect, in unspecified order, the column coordinates, vertical slot
    /// and identity key of every section that is dirty and not building.
    pub fn get_dirty_chunk_sections(&self) -> (r: Vec<(i32, i32, i32, SectionKey)>)
        requires
            self.wf(),
        ensures
            forall|j: int|
                0 <= j < r@.len() ==> {
                    let t = #[trigger] r@[j];
                    &&& 0 <= t.1 < 16
                    &&& self.section_dirty(t.0 as int, t.1 as int, t.2 as int)
                    &&& !self.section_building(t.0 as int, t.1 as int, t.2 as int)
                    &&& t.3 == (SectionKey { x: t.0, y: t.1 as u8, z: t.2 })
                },
            forall|cx: i32, sy: i32, cz: i32|
                #![trigger self.section_dirty(cx as int, sy as int, cz as int)]
                0 <= sy < 16 && self.section_dirty(cx as int, sy as int, cz as int)
                    && !self.section_building(cx as int, sy as int, cz as int) ==> r@.contains(
                    (cx, sy, cz, SectionKey { x: cx, y: sy as u8, z: cz }),
                ),
            forall|j1: int, j2: int|
                #![trigger r@[j1], r@[j2]]
                0 <= j1 < r@.len() && 0 <= j2 < r@.len() && j1 != j2 ==> r@[j1] != r@[j2],
    {
        let mut out: Vec<(i32, i32, i32, SectionKey)> = Vec::new();
        let n = self.chunks.len();
        let mut i: usize = 0;
        while i < n
            invariant
                self.wf(),
                n == self.spec_chunks().len(),
                i <= n,
                forall|j: int|
                    0 <= j < out@.len() ==> {
                        let t = #[trigger] out@[j];
                        &&& 0 <= t.1 < 16
                        &&& self.section_dirty(t.0 as int, t.1 as int, t.2 as int)
                        &&& !self.section_building(t.0 as int, t.1 as int, t.2 as int)
                        &&& t.3 == (SectionKey { x: t.0, y: t.1 as u8, z: t.2 })
                    },
                forall|k: int, s: int|
                    0 <= k < i as int && 0 <= s < 16 ==> slot_covered(
                        self.spec_chunks()[k],
                        out@,
                        s,
                    ),
                forall|j: int|
                    0 <= j < out@.len() ==> tuple_at_chunk(
                        #[trigger] out@[j],
                        self.spec_chunks(),
                        i as int,
                    ),
                forall|j1: int, j2: int|
                    #![trigger out@[j1], out@[j2]]
                    0 <= j1 < out@.len() && 0 <= j2 < out@.len() && j1 != j2 ==> out@[j1]
                        != out@[j2],
            decreases n - i,
        {
            let c = &self.chunks[i];
            proof {
                lemma_chunk_at_index(*self, i as int);
            }
            let mut sy: usize = 0;
            while sy < 16
                invariant
                    self.wf(),
                    n == self.spec_chunks().len(),
                    i < n,
                    sy <= 16,
                    c == &self.spec_chunks()[i as int],
                    self.chunk_at(c.spec_pos().0 as int, c.spec_pos().1 as int) == *c,
                    self.spec_loaded(c.spec_pos().0 as int, c.spec_pos().1 as int),
                    forall|j: int|
                        0 <= j < out@.len() ==> {
                            let t = #[trigger] out@[j];
                            &&& 0 <= t.1 < 16
                            &&& self.section_dirty(t.0 as int, t.1 as int, t.2 as int)
                            &&& !self.section_building(t.0 as int, t.1 as int, t.2 as int)
                            &&& t.3 == (SectionKey { x: t.0, y: t.1 as u8, z: t.2 })
                        },
                    forall|k: int, s: int|
                        0 <= k < i as int && 0 <= s < 16 ==> slot_covered(
                            self.spec_chunks()[k],
                            out@,
                            s,
                        ),
                    forall|s: int|
                        0 <= s < sy as int ==> slot_covered(self.spec_chunks()[i as int], out@, s),
                    forall|j: int|
                        0 <= j < out@.len() ==> tuple_at_chunk(
                            #[trigger] out@[j],
                            self.spec_chunks(),
                            i as int,
                        ) || (out@[j].0 == c.spec_pos().0 && out@[j].2 == c.spec_pos().1
                            && out@[j].1 < sy as i32),
                    forall|j1: int, j2: int|
                        #![trigger out@[j1], out@[j2]]
                        0 <= j1 < out@.len() && 0 <= j2 < out@.len() && j1 != j2 ==> out@[j1]
                            != out@[j2],
                decreases 16 - sy,
            {
                let ghost out0 = out@;
                match c.section_ref(sy) {
                    Option::Some(sec) => {
                        if sec.dirty() && !sec.building() {
                            out.push((c.pos().0, sy as i32, c.pos().1, sec.key()));
                            proof {
                                assert(out@[out@.len() - 1] == (
                                    c.spec_pos().0,
                                    sy as i32,
                                    c.spec_pos().1,
                                    SectionKey {
                                        x: c.spec_pos().0,
                                        y: sy as u8,
                                        z: c.spec_pos().1,
                                    },
                                ));
                                assert forall|j: int|
                                    0 <= j < out@.len() - 1 implies #[trigger] out@[j]
                                    != out@[out@.len() - 1] by {
                                    assert(out@[j] == out0[j]);
                                    if tuple_at_chunk(out0[j], self.spec_chunks(), i as int) {
                                        let k = choose|k: int|
                                            0 <= k < i as int && pos_is(
                                                #[trigger] self.spec_chunks()[k],
                                                out0[j].0 as int,
                                                out0[j].2 as int,
                                            );
                                        assert(!pos_is(
                                            self.spec_chunks()[k],
                                            self.spec_chunks()[i as int].spec_pos().0 as int,
                                            self.spec_chunks()[i as int].spec_pos().1 as int,
                                        ));
                                    }
                                }
                            }
                        }
                    },
                    Option::None => {},
                }
                proof {
                    assert(out0.is_prefix_of(out@));
                    assert forall|j: int|
                        0 <= j < out@.len() implies tuple_at_chunk(
                        #[trigger] out@[j],
                        self.spec_chunks(),
                        i as int,
                    ) || (out@[j].0 == c.spec_pos().0 && out@[j].2 == c.spec_pos().1 && out@[j].1
                        < sy as i32 + 1) by {
                        if j < out0.len() {
                            assert(out@[j] == out0[j]);
                        }
                    }
                    assert forall|k: int, s: int|
                        0 <= k < i as int && 0 <= s < 16 implies slot_covered(
                        self.spec_chunks()[k],
                        out@,
                        s,
                    ) by {
                        lemma_covered_push(self.spec_chunks()[k], out0, out@, s);
                    }
                    assert forall|s: int|
                        0 <= s < sy as int + 1 implies slot_covered(
                        self.spec_chunks()[i as int],
                        out@,
                        s,
                    ) by {
                        if s < sy as int {
                            lemma_covered_push(self.spec_chunks()[i as int], out0, out@, s);
                        } else {
                            assert(s == sy as int);
                        }
                    }
                }
                sy += 1;
            }
            i += 1;
        }
        proof {
            assert forall|cx: i32, sy: i32, cz: i32|
                0 <= sy < 16 && #[trigger] self.section_dirty(cx as int, sy as int, cz as int)
                    && !self.section_building(cx as int, sy as int, cz as int) implies out@.contains(
                (cx, sy, cz, SectionKey { x: cx, y: sy as u8, z: cz }),
            ) by {
                let k = choose|k: int|
                    0 <= k < self.spec_chunks().len() && pos_is(
                        #[trigger] self.spec_chunks()[k],
                        cx as int,
                        cz as int,
                    );
                lemma_chunk_at_index(*self, k);
                assert(self.chunk_at(cx as int, cz as int) == self.spec_chunks()[k]);
                assert(slot_covered(self.spec_chunks()[k], out@, sy as int));
            }
        }
        out
    }

    /// Reconstruct a column's sections from a wire payload. With `new` the
    /// column is replaced wholesale; otherwise a missing column means there
    /// is nothing to update and the call succeeds without effect. Each slot
    /// selected by the mask is created if absent, filled from its payload
    /// and marked dirty; a malformed payload aborts the remainder of the
    /// load, leaving earlier slots populated. After a successful load the
    /// six face-adjacent sections of every loaded slot are flagged dirty.
    #[verifier::loop_isolation(false)]
    #[verifier::rlimit(100)]
    #[verifier::spinoff_prover]
    pub fn load_chunk(&mut self, x: i32, z: i32, new: bool, mask: u16, data: Vec<u8>) -> (r: Result<
        (),
        DecodeError,
    >)
        requires
            old(self).wf(),
            i32::MIN < x < i32::MAX,
            i32::MIN < z < i32::MAX,
        ensures
            final(self).wf(),
            r is Ok <==> ((!new && !old(self).spec_loaded(x as int, z as int)) || spec_load(
                data@,
                0,
                mask,
                0,
            ) is Some),
            (!new && !old(self).spec_loaded(x as int, z as int)) ==> *final(self) == *old(self),
            forall|cx: int, cz: int|
                #![trigger final(self).spec_loaded(cx, cz)]
                final(self).spec_loaded(cx, cz) == (old(self).spec_loaded(cx, cz) || (new && cx
                    == x as int && cz == z as int)),
            forall|x2: int, y2: int, z2: int|
                #![trigger final(self).block_at(x2, y2, z2)]
                !(x2 / 16 == x as int && z2 / 16 == z as int) ==> final(self).block_at(x2, y2, z2)
                    == old(self).block_at(x2, y2, z2),
            forall|cx: int, sy: int, cz: int|
                #![trigger final(self).section_at(cx, sy, cz)]
                !(cx == x as int && cz == z as int) ==> section_kept(
                    old(self).section_at(cx, sy, cz),
                    final(self).section_at(cx, sy, cz),
                ),
            (r is Ok && (new || old(self).spec_loaded(x as int, z as int))) ==> ({
                let mf = spec_load(data@, 0, mask, 0)->Some_0;
                forall|i: int|
                    0 <= i < 16 ==> {
                        if mask_bit(mask, i) {
                            decoded_slot_ok(final(self), x as int, z as int, i, mf[i])
                        } else if new {
                            final(self).section_at(x as int, i, z as int) is None
                        } else {
                            section_kept(
                                old(self).section_at(x as int, i, z as int),
                                final(self).section_at(x as int, i, z as int),
                            )
                        }
                    }
            }),
            (r is Ok && (new || old(self).spec_loaded(x as int, z as int))) ==> forall|i: int|
                0 <= i < 16 && #[trigger] mask_bit(mask, i) ==> neighbours_dirty(
                    final(self),
                    x as int,
                    z as int,
                    i,
                ),
            // Partial application on failure: unselected slots are exactly as
            // the (possibly replaced) column had them, selected slots below
            // the failing one hold their decoded payloads, the failing slot
            // exists and is dirty, and selected slots above it are untouched.
            (r is Err && (new || old(self).spec_loaded(x as int, z as int))) ==> forall|i: int|
                #![trigger mask_bit(mask, i)]
                0 <= i < 16 && !mask_bit(mask, i) ==> (if new {
                    final(self).section_at(x as int, i, z as int) is None
                } else {
                    final(self).section_at(x as int, i, z as int) == old(self).section_at(
                        x as int,
                        i,
                        z as int,
                    )
                }),
            (r is Err && (new || old(self).spec_loaded(x as int, z as int))) ==> exists|j: int|
                #![trigger mask_bit(mask, j)]
                0 <= j < 16 && mask_bit(mask, j) && match spec_load_upto(data@, 0, mask, 0, j) {
                    Option::Some((m, e)) => {
                        &&& spec_slot(data@, e) is None
                        &&& forall|i: int|
                            0 <= i < j && #[trigger] mask_bit(mask, i) ==> decoded_slot_ok(
                                final(self),
                                x as int,
                                z as int,
                                i,
                                m[i],
                            )
                        &&& final(self).section_present(x as int, j, z as int)
                        &&& final(self).section_dirty(x as int, j, z as int)
                        &&& forall|i: int|
                            j < i < 16 && #[trigger] mask_bit(mask, i) ==> (if new {
                                final(self).section_at(x as int, i, z as int) is None
                            } else {
                                final(self).section_at(x as int, i, z as int) == old(
                                    self,
                                ).section_at(x as int, i, z as int)
                            })
                    },
                    Option::None => false,
                },
    {
        let found = self.find_chunk(x, z);
        let ci = if new {
            match found {
                Option::Some(i) => {
                    let ghost pre = *self;
                    self.chunks.set(i, Chunk::new(CPos(x, z)));
                    proof {
                        lemma_one_chunk_updated(pre, *self, i as int, x as int, z as int);
                    }
                    i
                },
                Option::None => {
                    let n = self.chunks.len();
                    let ghost pre = *self;
                    self.chunks.push(Chunk::new(CPos(x, z)));
                    proof {
                        lemma_chunk_pushed(pre, *self, n as int, x as int, z as int);
                    }
                    n
                },
            }
        } else {
            match found {
                Option::Some(i) => i,
                Option::None => {
                    return Result::Ok(());
                },
            }
        };
        let ghost base = *self;
        proof {
            lemma_chunk_at_index(base, ci as int);
        }
        let ghost chunk0 = self.spec_chunks()[ci as int];
        let ghost mut mp: Map<int, SlotPayload> = Map::empty();
        let mut pos: usize = 0;
        let mut i: usize = 0;
        while i < 16
            invariant
                self.wf(),
                ci < self.spec_chunks().len(),
                i <= 16,
                self.spec_chunks().len() == base.spec_chunks().len(),
                forall|k: int|
                    0 <= k < self.spec_chunks().len() && k != ci as int
                        ==> #[trigger] self.spec_chunks()[k] == base.spec_chunks()[k],
                pos_is(self.spec_chunks()[ci as int], x as int, z as int),
                self.spec_chunks()[ci as int].spec_biomes() == chunk0.spec_biomes(),
                spec_load_upto(data@, 0, mask, 0, i as int) == Option::Some((mp, pos as int)),
                forall|j: int|
                    0 <= j < 16 && j >= i as int ==> #[trigger] self.spec_chunks()[ci as int].slots()[j]
                        == chunk0.slots()[j],
                forall|j: int|
                    #![trigger mask_bit(mask, j)]
                    0 <= j < i as int ==> {
                        if mask_bit(mask, j) {
                            decoded_chunk_slot_ok(self.spec_chunks()[ci as int], j, mp[j])
                        } else {
                            self.spec_chunks()[ci as int].slots()[j] == chunk0.slots()[j]
                        }
                    },
            decreases 16 - i,
        {
            let selected = mask & (1u16 << (i as u16)) != 0;
            proof {
                let j = i as u16;
                assert((mask & (1u16 << j) != 0) == ((mask >> j) & 1 == 1)) by (bit_vector)
                    requires
                        j < 16,
                ;
            }
            if selected {
                let c = &mut self.chunks[ci];
                let step = c.load_slot(i, &data, pos);
                match step {
                    Option::Some(p2) => {
                        proof {
                            lemma_load_upto_extend(data@, 0, mask, 0, i as int);
                            mp = mp.insert(i as int, spec_slot(data@, pos as int)->Some_0.0);
                        }
                        pos = p2;
                    },
                    Option::None => {
                        proof {
                            lemma_wf_after_update(base, *self, ci as int);
                            assert(self.spec_chunks() =~= base.spec_chunks().update(
                                ci as int,
                                self.spec_chunks()[ci as int],
                            ));
                            lemma_one_chunk_updated(base, *self, ci as int, x as int, z as int);
                            lemma_load_split(data@, 0, mask, 0, i as int);
                            assert(spec_load(data@, pos as int, mask, i as int) is None);
                            assert(spec_load(data@, 0, mask, 0) is None);
                            // witness for the partial-application clause
                            assert(self.chunk_at(x as int, z as int)
                                == self.spec_chunks()[ci as int]);
                            if !new {
                                assert(base == *old(self));
                                assert(old(self).chunk_at(x as int, z as int) == chunk0);
                            }
                            assert(match spec_load_upto(data@, 0, mask, 0, i as int) {
                                Option::Some((m, e)) => {
                                    &&& spec_slot(data@, e) is None
                                    &&& forall|i2: int|
                                        0 <= i2 < i as int && #[trigger] mask_bit(mask, i2)
                                            ==> decoded_slot_ok(self, x as int, z as int, i2, m[i2])
                                    &&& self.section_present(x as int, i as int, z as int)
                                    &&& self.section_dirty(x as int, i as int, z as int)
                                    &&& forall|i2: int|
                                        (i as int) < i2 < 16 && #[trigger] mask_bit(mask, i2)
                                            ==> (
                                        if new {
                                            self.section_at(x as int, i2, z as int) is None
                                        } else {
                                            self.section_at(x as int, i2, z as int) == old(
                                                self,
                                            ).section_at(x as int, i2, z as int)
                                        })
                                },
                                Option::None => false,
                            });
                        }
                        return Result::Err(DecodeError::Malformed);
                    },
                }
                proof {
                    lemma_wf_after_update(base, *self, ci as int);
                }
            } else {
                proof {
                    lemma_load_upto_extend(data@, 0, mask, 0, i as int);
                }
            }
            i += 1;
        }
        proof {
            lemma_wf_after_update(base, *self, ci as int);
            assert(self.spec_chunks() =~= base.spec_chunks().update(
                ci as int,
                self.spec_chunks()[ci as int],
            ));
            lemma_one_chunk_updated(base, *self, ci as int, x as int, z as int);
            lemma_load_split(data@, 0, mask, 0, 16);
            assert(spec_load(data@, pos as int, mask, 16) == Option::Some(
                Map::<int, SlotPayload>::empty(),
            ));
            assert(spec_load(data@, 0, mask, 0) is Some);
        }
        // Re-flag the face-adjacent sections of every loaded slot, so
        // seam-dependent derived data is recomputed at the boundaries.
        let ghost loaded_state = *self;
        let mut i2: usize = 0;
        while i2 < 16
            invariant
                self.wf(),
                i2 <= 16,
                forall|cx: int, cz: int|
                    #![trigger self.spec_loaded(cx, cz)]
                    self.spec_loaded(cx, cz) == loaded_state.spec_loaded(cx, cz),
                forall|x2: int, y2: int, z2: int|
                    #![trigger self.block_at(x2, y2, z2)]
                    self.block_at(x2, y2, z2) == loaded_state.block_at(x2, y2, z2),
                forall|cx: int, sy: int, cz: int|
                    #![trigger self.section_at(cx, sy, cz)]
                    section_kept(
                        loaded_state.section_at(cx, sy, cz),
                        self.section_at(cx, sy, cz),
                    ),
                forall|cx: int, sy: int, cz: int|
                    #![trigger self.section_dirty(cx, sy, cz)]
                    loaded_state.section_dirty(cx, sy, cz) ==> self.section_dirty(cx, sy, cz),
                forall|j: int|
                    0 <= j < i2 as int && #[trigger] mask_bit(mask, j) ==> neighbours_dirty(
                        self,
                        x as int,
                        z as int,
                        j,
                    ),
            decreases 16 - i2,
        {
            let selected = mask & (1u16 << (i2 as u16)) != 0;
            proof {
                let j = i2 as u16;
                assert((mask & (1u16 << j) != 0) == ((mask >> j) & 1 == 1)) by (bit_vector)
                    requires
                        j < 16,
                ;
            }
            if selected {
                self.flag_neighbours(x, i2 as i32, z);
            }
            i2 += 1;
        }
        proof {
            if spec_load(data@, 0, mask, 0) is Some {
                let mf = spec_load(data@, 0, mask, 0)->Some_0;
                assert forall|i: int| 0 <= i < 16 implies ({
                    if mask_bit(mask, i) {
                        decoded_slot_ok(self, x as int, z as int, i, mf[i])
                    } else if new {
                        self.section_at(x as int, i, z as int) is None
                    } else {
                        section_kept(
                            old(self).section_at(x as int, i, z as int),
                            self.section_at(x as int, i, z as int),
                        )
                    }
                }) by {
                    assert(loaded_state.spec_loaded(x as int, z as int));
                    assert(loaded_state.section_at(x as int, i, z as int)
                        == loaded_state.chunk_at(x as int, z as int).slots()[i]);
                    assert(section_kept(
                        loaded_state.section_at(x as int, i, z as int),
                        self.section_at(x as int, i, z as int),
                    ));
                    if mask_bit(mask, i) {
                        assert(decoded_chunk_slot_ok(
                            loaded_state.chunk_at(x as int, z as int),
                            i,
                            mf[i],
                        ));
                        assert(loaded_state.section_dirty(x as int, i, z as int));
                        assert(self.section_dirty(x as int, i, z as int));
                        assert(self.section_at(x as int, i, z as int) == self.chunk_at(
                            x as int,
                            z as int,
                        ).slots()[i]);
                        assert(decoded_chunk_slot_ok(self.chunk_at(x as int, z as int), i, mf[i]));
                    } else if new {
                        assert(loaded_state.chunk_at(x as int, z as int).slots()[i]
                            == chunk0.slots()[i]);
                        assert(chunk0.slots()[i] is None);
                    } else {
                        assert(base == *old(self));
                        assert(loaded_state.chunk_at(x as int, z as int).slots()[i]
                            == chunk0.slots()[i]);
                    }
                }
            }
        }
        Result::Ok(())
    }

    /// Read the block light at a global position.
    fn light_block(&self, x: i32, y: i32, z: i32) -> (r: u8)
        requires
            self.wf(),
        ensures
            r == self.block_light_at(x as int, y as int, z as int),
            r <= 0xF,
    {
        let (cx, lx) = floor16(x);
        let (cz, lz) = floor16(z);
        match self.find_chunk(cx, cz) {
            Option::Some(i) => self.chunks[i].get_block_light(lx, y, lz),
            Option::None => 0,
        }
    }

    /// Read the sky light at a global position.
    fn light_sky(&self, x: i32, y: i32, z: i32) -> (r: u8)
        requires
            self.wf(),
        ensures
            r == self.sky_light_at(x as int, y as int, z as int),
            r <= 0xF,
    {
        let (cx, lx) = floor16(x);
        let (cz, lz) = floor16(z);
        match self.find_chunk(cx, cz) {
            Option::Some(i) => self.chunks[i].get_sky_light(lx, y, lz),
            Option::None => 0xF,
        }
    }

    /// Copy an axis-aligned cuboid out of the store into a detached
    /// snapshot: for every covered cell, the block and both light channels
    /// read exactly as a direct point read would, with the `Missing`
    /// sentinel where the column is not loaded and the `Air` sentinel (under
    /// default light) where only the section is absent.
    pub fn capture_snapshot(&self, x: i32, y: i32, z: i32, w: i32, h: i32, d: i32) -> (r: Snapshot)
        requires
            self.wf(),
            0 <= w,
            0 <= h,
            0 <= d,
            w * h * d <= 0x4000_0000,
            w * d <= 0x4000_0000,
            x + w <= i32::MAX,
            y + h <= i32::MAX,
            z + d <= i32::MAX,
        ensures
            r.wf(),
            r.origin() == (x as int, y as int, z as int),
            r.dims() == (w as int, h as int, d as int),
            forall|gx: int, gy: int, gz: int|
                #![trigger r.spec_index(gx, gy, gz)]
                r.in_bounds(gx, gy, gz) ==> r.spec_blocks()[r.spec_index(gx, gy, gz)]
                    == self.block_at(gx, gy, gz) && r.spec_block_light()[r.spec_index(gx, gy, gz)]
                    == self.block_light_at(gx, gy, gz) && r.spec_sky_light()[r.spec_index(
                    gx,
                    gy,
                    gz,
                )] == self.sky_light_at(gx, gy, gz),
    {
        let mut snap = Snapshot::new(x, y, z, w, h, d);
        let mut dy: i32 = 0;
        while dy < h
            invariant
                self.wf(),
                snap.wf(),
                snap.origin() == (x as int, y as int, z as int),
                snap.dims() == (w as int, h as int, d as int),
                0 <= dy <= h,
                x + w <= i32::MAX,
                y + h <= i32::MAX,
                z + d <= i32::MAX,
                forall|gx: int, gy: int, gz: int|
                    #![trigger snap.spec_index(gx, gy, gz)]
                    snap.in_bounds(gx, gy, gz) && gy < y + dy ==> cell_captured(
                        self,
                        &snap,
                        gx,
                        gy,
                        gz,
                    ),
            decreases h - dy,
        {
            let mut dz: i32 = 0;
            while dz < d
                invariant
                    self.wf(),
                    snap.wf(),
                    snap.origin() == (x as int, y as int, z as int),
                    snap.dims() == (w as int, h as int, d as int),
                    0 <= dy < h,
                    0 <= dz <= d,
                    x + w <= i32::MAX,
                    y + h <= i32::MAX,
                    z + d <= i32::MAX,
                    forall|gx: int, gy: int, gz: int|
                        #![trigger snap.spec_index(gx, gy, gz)]
                        snap.in_bounds(gx, gy, gz) && (gy < y + dy || (gy == y + dy && gz < z
                            + dz)) ==> cell_captured(self, &snap, gx, gy, gz),
                decreases d - dz,
            {
                let mut dx: i32 = 0;
                while dx < w
                    invariant
                        self.wf(),
                        snap.wf(),
                        snap.origin() == (x as int, y as int, z as int),
                        snap.dims() == (w as int, h as int, d as int),
                        0 <= dy < h,
                        0 <= dz < d,
                        0 <= dx <= w,
                        x + w <= i32::MAX,
                        y + h <= i32::MAX,
                        z + d <= i32::MAX,
                        forall|gx: int, gy: int, gz: int|
                            #![trigger snap.spec_index(gx, gy, gz)]
                            snap.in_bounds(gx, gy, gz) && (gy < y + dy || (gy == y + dy && (gz < z
                                + dz || (gz == z + dz && gx < x + dx)))) ==> cell_captured(
                                self,
                                &snap,
                                gx,
                                gy,
                                gz,
                            ),
                    decreases w - dx,
                {
                    let gx = x + dx;
                    let gy = y + dy;
                    let gz = z + dz;
                    let ghost snap0 = snap;
                    let b = self.get_block(gx, gy, gz);
                    let bl = self.light_block(gx, gy, gz);
                    let sl = self.light_sky(gx, gy, gz);
                    snap.set_block(gx, gy, gz, b);
                    snap.set_block_light(gx, gy, gz, bl);
                    snap.set_sky_light(gx, gy, gz, sl);
                    proof {
                        assert(bl & 0xF == bl && sl & 0xF == sl) by (bit_vector)
                            requires
                                bl <= 0xF,
                                sl <= 0xF,
                        ;
                        assert forall|gx2: int, gy2: int, gz2: int|
                            #![trigger snap.spec_index(gx2, gy2, gz2)]
                            snap.in_bounds(gx2, gy2, gz2) && (gy2 < y + dy || (gy2 == y + dy && (
                            gz2 < z + dz || (gz2 == z + dz && gx2 < x + dx
                                + 1)))) implies cell_captured(self, &snap, gx2, gy2, gz2) by {
                            assert(snap0.spec_index(gx2, gy2, gz2) == snap.spec_index(
                                gx2,
                                gy2,
                                gz2,
                            ));
                            assert(snap0.in_bounds(gx2, gy2, gz2));
                            snap0.lemma_index_bounds(gx2, gy2, gz2);
                            snap0.lemma_index_bounds(gx as int, gy as int, gz as int);
                            if !(gx2 == gx as int && gy2 == gy as int && gz2 == gz as int) {
                                lemma_snap_index_injective(
                                    &snap0,
                                    gx2,
                                    gy2,
                                    gz2,
                                    gx as int,
                                    gy as int,
                                    gz as int,
                                );
                                assert(cell_captured(self, &snap0, gx2, gy2, gz2));
                            }
                        }
                    }
                    dx += 1;
                }
                dz += 1;
            }
            dy += 1;
        }
        snap
    }
}

/// Whether the snapshot cell at a world position holds exactly the store's
/// point readings.
spec fn cell_captured(w: &World, s: &Snapshot, gx: int, gy: int, gz: int) -> bool {
    &&& s.spec_blocks()[s.spec_index(gx, gy, gz)] == w.block_at(gx, gy, gz)
    &&& s.spec_block_light()[s.spec_index(gx, gy, gz)] == w.block_light_at(gx, gy, gz)
    &&& s.spec_sky_light()[s.spec_index(gx, gy, gz)] == w.sky_light_at(gx, gy, gz)
}

/// Distinct in-bounds positions map to distinct snapshot indices.
proof fn lemma_snap_index_injective(
    s: &Snapshot,
    ax: int,
    ay: int,
    az: int,
    bx: int,
    by: int,
    bz: int,
)
    requires
        s.wf(),
        s.in_bounds(ax, ay, az),
        s.in_bounds(bx, by, bz),
        !(ax == bx && ay == by && az == bz),
    ensures
        s.spec_index(ax, ay, az) != s.spec_index(bx, by, bz),
{
    let w = s.dims().0;
    let d = s.dims().2;
    let dax = ax - s.origin().0;
    let day = ay - s.origin().1;
    let daz = az - s.origin().2;
    let dbx = bx - s.origin().0;
    let dby = by - s.origin().1;
    let dbz = bz - s.origin().2;
    let ia = s.spec_index(ax, ay, az);
    let ib = s.spec_index(bx, by, bz);
    if ia == ib {
        assert(ia == dax + w * (daz + d * day) && ib == dbx + w * (dbz + d * dby) && 0 <= daz + d
            * day && daz + d * day < d * s.dims().1 && 0 <= dbz + d * dby) by (nonlinear_arith)
            requires
                0 <= dax < w,
                0 <= day < s.dims().1,
                0 <= daz < d,
                0 <= dbx < w,
                0 <= dby < s.dims().1,
                0 <= dbz < d,
                ia == dax + daz * w + day * w * d,
                ib == dbx + dbz * w + dby * w * d,
        ;
        vstd::arithmetic::div_mod::lemma_fundamental_div_mod_converse(
            ia,
            w,
            daz + d * day,
            dax,
        );
        vstd::arithmetic::div_mod::lemma_fundamental_div_mod_converse(
            ib,
            w,
            dbz + d * dby,
            dbx,
        );
        assert(dax == dbx && daz + d * day == dbz + d * dby);
        vstd::arithmetic::div_mod::lemma_fundamental_div_mod_converse(
            daz + d * day,
            d,
            day,
            daz,
        );
        vstd::arithmetic::div_mod::lemma_fundamental_div_mod_converse(
            dbz + d * dby,
            d,
            dby,
            dbz,
        );
        assert(daz == dbz && day == dby);
        assert(false);
    }
}

/// Whether a slot kept its contents, presence and building flag across an
/// operation; the dirty flag is free to have been re-armed.
pub open spec fn section_kept(pre: Option<Section>, post: Option<Section>) -> bool {
    match pre {
        Option::Some(s) => match post {
            Option::Some(s2) => s2.same_contents(&s) && s2.is_building() == s.is_building(),
            Option::None => false,
        },
        Option::None => post is None,
    }
}

/// Whether slot `i` of a column holds exactly a decoded slot payload.
pub open spec fn decoded_chunk_slot_ok(c: Chunk, i: int, p: SlotPayload) -> bool {
    match c.slots()[i] {
        Option::Some(s2) => s2@ == spec_decoded_blocks(p) && s2.light_block() == spec_nibbles(
            p.block_light,
        ) && s2.light_sky() == spec_nibbles(p.sky_light) && s2.is_dirty(),
        Option::None => false,
    }
}

/// Whether the section in slot `i` at `(x, z)` holds exactly a decoded slot
/// payload and is flagged dirty.
pub open spec fn decoded_slot_ok(w: &World, x: int, z: int, i: int, p: SlotPayload) -> bool {
    &&& w.spec_loaded(x, z)
    &&& 0 <= i < 16
    &&& decoded_chunk_slot_ok(w.chunk_at(x, z), i, p)
}

/// Whether every present face-adjacent neighbour of the section in slot `i`
/// at `(x, z)` is flagged dirty.
pub open spec fn neighbours_dirty(w: &World, x: int, z: int, i: int) -> bool {
    &&& (w.section_present(x - 1, i, z) ==> w.section_dirty(x - 1, i, z))
    &&& (w.section_present(x + 1, i, z) ==> w.section_dirty(x + 1, i, z))
    &&& (w.section_present(x, i - 1, z) ==> w.section_dirty(x, i - 1, z))
    &&& (w.section_present(x, i + 1, z) ==> w.section_dirty(x, i + 1, z))
    &&& (w.section_present(x, i, z - 1) ==> w.section_dirty(x, i, z - 1))
    &&& (w.section_present(x, i, z + 1) ==> w.section_dirty(x, i, z + 1))
}

/// Replacing one column by another at the same position keeps the world
/// well formed.
proof fn lemma_wf_after_update(base: World, cur: World, ci: int)
    requires
        base.wf(),
        0 <= ci < base.spec_chunks().len(),
        cur.spec_chunks().len() == base.spec_chunks().len(),
        forall|k: int|
            0 <= k < cur.spec_chunks().len() && k != ci ==> #[trigger] cur.spec_chunks()[k]
                == base.spec_chunks()[k],
        cur.spec_chunks()[ci].wf(),
        cur.spec_chunks()[ci].spec_pos() == base.spec_chunks()[ci].spec_pos(),
    ensures
        cur.wf(),
{
    assert forall|k1: int, k2: int|
        #![trigger cur.spec_chunks()[k1], cur.spec_chunks()[k2]]
        0 <= k1 < cur.spec_chunks().len() && 0 <= k2 < cur.spec_chunks().len() && k1
            != k2 implies !(pos_is(
        cur.spec_chunks()[k1],
        cur.spec_chunks()[k2].spec_pos().0 as int,
        cur.spec_chunks()[k2].spec_pos().1 as int,
    )) by {
        assert(cur.spec_chunks()[k1].spec_pos() == base.spec_chunks()[k1].spec_pos());
        assert(cur.spec_chunks()[k2].spec_pos() == base.spec_chunks()[k2].spec_pos());
    }
}

/// Whether the tuple names the position of one of the first `upto` columns.
spec fn tuple_at_chunk(t: (i32, i32, i32, SectionKey), chunks: Seq<Chunk>, upto: int) -> bool {
    exists|k: int| 0 <= k < upto && pos_is(#[trigger] chunks[k], t.0 as int, t.2 as int)
}

/// Whether the dirty-and-collectable section in slot `s` of `c`, if any, is
/// represented in the collection output.
spec fn slot_covered(c: Chunk, out: Seq<(i32, i32, i32, SectionKey)>, s: int) -> bool {
    match c.slots()[s] {
        Option::Some(sec) => sec.is_dirty() && !sec.is_building() ==> out.contains(
            (c.spec_pos().0, s as i32, c.spec_pos().1, SectionKey {
                x: c.spec_pos().0,
                y: s as u8,
                z: c.spec_pos().1,
            }),
        ),
        Option::None => true,
    }
}

/// Coverage is stable under appending to the output.
proof fn lemma_covered_push(
    c: Chunk,
    pre: Seq<(i32, i32, i32, SectionKey)>,
    post: Seq<(i32, i32, i32, SectionKey)>,
    s: int,
)
    requires
        slot_covered(c, pre, s),
        pre.is_prefix_of(post),
    ensures
        slot_covered(c, post, s),
{
    match c.slots()[s] {
        Option::Some(sec) => {
            if sec.is_dirty() && !sec.is_building() {
                let t = (c.spec_pos().0, s as i32, c.spec_pos().1, SectionKey {
                    x: c.spec_pos().0,
                    y: s as u8,
                    z: c.spec_pos().1,
                });
                let j = choose|j: int| 0 <= j < pre.len() && pre[j] == t;
                assert(post[j] == t);
            }
        },
        Option::None => {},
    }
}

/// The column at index `k` is the column its position resolves to.
proof fn lemma_chunk_at_index(w: World, k: int)
    requires
        w.wf(),
        0 <= k < w.spec_chunks().len(),
    ensures
        w.spec_loaded(w.spec_chunks()[k].spec_pos().0 as int, w.spec_chunks()[k].spec_pos().1 as int),
        w.chunk_at(w.spec_chunks()[k].spec_pos().0 as int, w.spec_chunks()[k].spec_pos().1 as int)
            == w.spec_chunks()[k],
{
    let cx = w.spec_chunks()[k].spec_pos().0 as int;
    let cz = w.spec_chunks()[k].spec_pos().1 as int;
    assert(pos_is(w.spec_chunks()[k], cx, cz));
    let k2 = choose|j: int|
        0 <= j < w.spec_chunks().len() && pos_is(#[trigger] w.spec_chunks()[j], cx, cz);
    assert(k2 == k);
}

/// Whether `post` is `pre` with every present section marked dirty and
/// nothing else changed.
spec fn chunk_flagged(pre: Chunk, post: Chunk) -> bool {
    &&& post.wf()
    &&& post.spec_pos() == pre.spec_pos()
    &&& post.spec_biomes() == pre.spec_biomes()
    &&& forall|k: int|
        0 <= k < 16 ==> match pre.slots()[k] {
            Option::Some(s) => match #[trigger] post.slots()[k] {
                Option::Some(s2) => s2.same_contents(&s) && s2.is_dirty() && s2.is_building()
                    == s.is_building(),
                Option::None => false,
            },
            Option::None => post.slots()[k] is None,
        }
}

/// When every column keeps its position and index, the loaded positions and
/// the index resolution are preserved.
proof fn lemma_positions_preserved(pre: World, post: World)
    requires
        pre.wf(),
        post.wf(),
        pre.spec_chunks().len() == post.spec_chunks().len(),
        forall|k: int|
            0 <= k < pre.spec_chunks().len() ==> (#[trigger] post.spec_chunks()[k]).spec_pos()
                == pre.spec_chunks()[k].spec_pos(),
    ensures
        forall|cx: int, cz: int|
            #![trigger post.spec_loaded(cx, cz)]
            post.spec_loaded(cx, cz) == pre.spec_loaded(cx, cz),
        forall|cx: int, cz: int|
            #![trigger pre.spec_loaded(cx, cz)]
            pre.spec_loaded(cx, cz) ==> exists|k: int|
                0 <= k < pre.spec_chunks().len() && pre.chunk_at(cx, cz) == pre.spec_chunks()[k]
                    && post.chunk_at(cx, cz) == #[trigger] post.spec_chunks()[k],
{
    assert forall|cx: int, cz: int| #[trigger]
        post.spec_loaded(cx, cz) == pre.spec_loaded(cx, cz) by {
        if pre.spec_loaded(cx, cz) {
            let k = choose|k: int|
                0 <= k < pre.spec_chunks().len() && pos_is(
                    #[trigger] pre.spec_chunks()[k],
                    cx,
                    cz,
                );
            assert(pos_is(post.spec_chunks()[k], cx, cz));
        }
        if post.spec_loaded(cx, cz) {
            let k = choose|k: int|
                0 <= k < post.spec_chunks().len() && pos_is(
                    #[trigger] post.spec_chunks()[k],
                    cx,
                    cz,
                );
            assert(pos_is(pre.spec_chunks()[k], cx, cz));
        }
    }
    assert forall|cx: int, cz: int| #[trigger]
        pre.spec_loaded(cx, cz) implies exists|k: int|
        0 <= k < pre.spec_chunks().len() && pre.chunk_at(cx, cz) == pre.spec_chunks()[k]
            && post.chunk_at(cx, cz) == #[trigger] post.spec_chunks()[k] by {
        let k1 = choose|k: int|
            0 <= k < pre.spec_chunks().len() && pos_is(#[trigger] pre.spec_chunks()[k], cx, cz);
        lemma_chunk_at_index(pre, k1);
        assert(post.spec_loaded(cx, cz));
        let k2 = choose|k: int|
            0 <= k < post.spec_chunks().len() && pos_is(#[trigger] post.spec_chunks()[k], cx, cz);
        assert(pos_is(pre.spec_chunks()[k2], cx, cz));
        assert(k2 == k1);
        lemma_chunk_at_index(post, k1);
        assert(0 <= k1 < pre.spec_chunks().len() && pre.chunk_at(cx, cz) == pre.spec_chunks()[k1]
            && post.chunk_at(cx, cz) == post.spec_chunks()[k1]);
    }
}

/// When a column is replaced by one with the same grid of blocks, the
/// world-level block reading is unchanged everywhere.
proof fn lemma_contents_same_blocks(pre: World, post: World, cx: int, cz: int)
    requires
        pre.wf(),
        post.wf(),
        forall|cx2: int, cz2: int|
            #![trigger post.spec_loaded(cx2, cz2)]
            post.spec_loaded(cx2, cz2) == pre.spec_loaded(cx2, cz2),
        forall|cx2: int, cz2: int|
            #![trigger post.chunk_at(cx2, cz2)]
            pre.spec_loaded(cx2, cz2) && !(cx2 == cx && cz2 == cz) ==> post.chunk_at(cx2, cz2)
                == pre.chunk_at(cx2, cz2),
        pre.spec_loaded(cx, cz) ==> forall|k: int|
            0 <= k < 16 ==> match pre.chunk_at(cx, cz).slots()[k] {
                Option::Some(s) => match #[trigger] post.chunk_at(cx, cz).slots()[k] {
                    Option::Some(s2) => s2.same_contents(&s),
                    Option::None => false,
                },
                Option::None => post.chunk_at(cx, cz).slots()[k] is None,
            },
    ensures
        forall|x2: int, y2: int, z2: int|
            #![trigger post.block_at(x2, y2, z2)]
            post.block_at(x2, y2, z2) == pre.block_at(x2, y2, z2),
{
    assert forall|x2: int, y2: int, z2: int| #[trigger]
        post.block_at(x2, y2, z2) == pre.block_at(x2, y2, z2) by {
        if post.spec_loaded(x2 / 16, z2 / 16) {
            if x2 / 16 == cx && z2 / 16 == cz {
                if 0 <= y2 <= 255 {
                    assert(0 <= y2 / 16 < 16);
                }
            }
        }
    }
}

/// Two coordinates with the same floor quotient and remainder by 16 are
/// equal.
proof fn lemma_divmod16_unique(a: int, b: int)
    requires
        a / 16 == b / 16,
        a % 16 == b % 16,
    ensures
        a == b,
{
    vstd::arithmetic::div_mod::lemma_fundamental_div_mod(a, 16);
    vstd::arithmetic::div_mod::lemma_fundamental_div_mod(b, 16);
}

/// After pushing a fresh column at an unloaded position, that position is
/// loaded and every other position reads as before.
proof fn lemma_chunk_pushed(pre: World, post: World, i: int, cx: int, cz: int)
    requires
        pre.wf(),
        i == pre.spec_chunks().len(),
        post.spec_chunks() == pre.spec_chunks().push(post.spec_chunks()[i]),
        pos_is(post.spec_chunks()[i], cx, cz),
        post.spec_chunks()[i].wf(),
        !pre.spec_loaded(cx, cz),
    ensures
        post.wf(),
        forall|cx2: int, cz2: int|
            #![trigger post.spec_loaded(cx2, cz2)]
            post.spec_loaded(cx2, cz2) == (pre.spec_loaded(cx2, cz2) || (cx2 == cx && cz2 == cz)),
        forall|cx2: int, cz2: int|
            #![trigger post.chunk_at(cx2, cz2)]
            pre.spec_loaded(cx2, cz2) && !(cx2 == cx && cz2 == cz) ==> post.chunk_at(cx2, cz2)
                == pre.chunk_at(cx2, cz2),
        post.spec_loaded(cx, cz),
        post.chunk_at(cx, cz) == post.spec_chunks()[i],
{
    assert forall|k1: int, k2: int|
        #![trigger post.spec_chunks()[k1], post.spec_chunks()[k2]]
        0 <= k1 < post.spec_chunks().len() && 0 <= k2 < post.spec_chunks().len() && k1
            != k2 implies !(pos_is(
        post.spec_chunks()[k1],
        post.spec_chunks()[k2].spec_pos().0 as int,
        post.spec_chunks()[k2].spec_pos().1 as int,
    )) by {
        if k1 == i {
            assert(!pos_is(pre.spec_chunks()[k2], cx, cz));
        } else if k2 == i {
            assert(!pos_is(pre.spec_chunks()[k1], cx, cz));
        }
    }
    assert forall|cx2: int, cz2: int| #[trigger]
        post.spec_loaded(cx2, cz2) == (pre.spec_loaded(cx2, cz2) || (cx2 == cx && cz2
            == cz)) by {
        if pre.spec_loaded(cx2, cz2) {
            let k = choose|k: int|
                0 <= k < pre.spec_chunks().len() && pos_is(
                    #[trigger] pre.spec_chunks()[k],
                    cx2,
                    cz2,
                );
            assert(pos_is(post.spec_chunks()[k], cx2, cz2));
        }
        if cx2 == cx && cz2 == cz {
            assert(pos_is(post.spec_chunks()[i], cx2, cz2));
        }
        if post.spec_loaded(cx2, cz2) && !(cx2 == cx && cz2 == cz) {
            let k = choose|k: int|
                0 <= k < post.spec_chunks().len() && pos_is(
                    #[trigger] post.spec_chunks()[k],
                    cx2,
                    cz2,
                );
            assert(k != i);
            assert(pos_is(pre.spec_chunks()[k], cx2, cz2));
        }
    }
    assert forall|cx2: int, cz2: int|
        pre.spec_loaded(cx2, cz2) && !(cx2 == cx && cz2 == cz) implies #[trigger] post.chunk_at(
        cx2,
        cz2,
    ) == pre.chunk_at(cx2, cz2) by {
        assert(post.spec_loaded(cx2, cz2));
        let k1 = choose|k: int|
            0 <= k < pre.spec_chunks().len() && pos_is(#[trigger] pre.spec_chunks()[k], cx2, cz2);
        assert(pos_is(post.spec_chunks()[k1], cx2, cz2));
        let k2 = choose|k: int|
            0 <= k < post.spec_chunks().len() && pos_is(
                #[trigger] post.spec_chunks()[k],
                cx2,
                cz2,
            );
        assert(k2 != i);
        assert(pos_is(pre.spec_chunks()[k2], cx2, cz2));
        assert(k1 == k2);
    }
    let k = choose|k: int|
        0 <= k < post.spec_chunks().len() && pos_is(#[trigger] post.spec_chunks()[k], cx, cz);
    assert(pos_is(post.spec_chunks()[i], cx, cz));
    assert(k == i);
}

/// After replacing the one column at index `i` (its position kept), every
/// other position reads as before, and position `(cx, cz)` reads the new
/// column.
proof fn lemma_one_chunk_updated(pre: World, post: World, i: int, cx: int, cz: int)
    requires
        pre.wf(),
        0 <= i < pre.spec_chunks().len(),
        post.spec_chunks() == pre.spec_chunks().update(i, post.spec_chunks()[i]),
        pos_is(pre.spec_chunks()[i], cx, cz),
        pos_is(post.spec_chunks()[i], cx, cz),
        post.spec_chunks()[i].wf(),
    ensures
        post.wf(),
        forall|cx2: int, cz2: int|
            #![trigger post.spec_loaded(cx2, cz2)]
            post.spec_loaded(cx2, cz2) == pre.spec_loaded(cx2, cz2),
        forall|cx2: int, cz2: int|
            #![trigger post.chunk_at(cx2, cz2)]
            pre.spec_loaded(cx2, cz2) && !(cx2 == cx && cz2 == cz) ==> post.chunk_at(cx2, cz2)
                == pre.chunk_at(cx2, cz2),
        post.spec_loaded(cx, cz),
        post.chunk_at(cx, cz) == post.spec_chunks()[i],
{
    assert forall|cx2: int, cz2: int| #[trigger]
        post.spec_loaded(cx2, cz2) == pre.spec_loaded(cx2, cz2) by {
        if pre.spec_loaded(cx2, cz2) {
            let k = choose|k: int|
                0 <= k < pre.spec_chunks().len() && pos_is(
                    #[trigger] pre.spec_chunks()[k],
                    cx2,
                    cz2,
                );
            if k == i {
                assert(pos_is(post.spec_chunks()[i], cx2, cz2));
            } else {
                assert(pos_is(post.spec_chunks()[k], cx2, cz2));
            }
        }
        if post.spec_loaded(cx2, cz2) {
            let k = choose|k: int|
                0 <= k < post.spec_chunks().len() && pos_is(
                    #[trigger] post.spec_chunks()[k],
                    cx2,
                    cz2,
                );
            if k == i {
                assert(pos_is(pre.spec_chunks()[i], cx2, cz2));
            } else {
                assert(pos_is(pre.spec_chunks()[k], cx2, cz2));
            }
        }
    }
    assert forall|cx2: int, cz2: int|
        pre.spec_loaded(cx2, cz2) && !(cx2 == cx && cz2 == cz) implies #[trigger] post.chunk_at(
        cx2,
        cz2,
    ) == pre.chunk_at(cx2, cz2) by {
        assert(post.spec_loaded(cx2, cz2));
        let k1 = choose|k: int|
            0 <= k < pre.spec_chunks().len() && pos_is(#[trigger] pre.spec_chunks()[k], cx2, cz2);
        let k2 = choose|k: int|
            0 <= k < post.spec_chunks().len() && pos_is(
                #[trigger] post.spec_chunks()[k],
                cx2,
                cz2,
            );
        assert(k1 != i);
        assert(k2 != i);
        assert(pos_is(pre.spec_chunks()[k2], cx2, cz2));
        assert(k1 == k2);
    }
    let k = choose|k: int|
        0 <= k < post.spec_chunks().len() && pos_is(#[trigger] post.spec_chunks()[k], cx, cz);
    assert(pos_is(post.spec_chunks()[i], cx, cz));
    assert(k == i);
}

/// After removing the column at index `i`, its position is unloaded and
/// every other position reads as before.
proof fn lemma_chunk_removed(pre: World, post: World, i: int, cx: int, cz: int)
    requires
        pre.wf(),
        0 <= i < pre.spec_chunks().len(),
        post.spec_chunks() == pre.spec_chunks().remove(i),
        pos_is(pre.spec_chunks()[i], cx, cz),
    ensures
        post.wf(),
        !post.spec_loaded(cx, cz),
        forall|cx2: int, cz2: int|
            #![trigger post.spec_loaded(cx2, cz2)]
            !(cx2 == cx && cz2 == cz) ==> post.spec_loaded(cx2, cz2) == pre.spec_loaded(cx2, cz2)
                && (pre.spec_loaded(cx2, cz2) ==> post.chunk_at(cx2, cz2) == pre.chunk_at(
                cx2,
                cz2,
            )),
{
    let n = pre.spec_chunks().len() as int;
    assert(post.spec_chunks().len() == n - 1);
    assert forall|k: int| 0 <= k < n - 1 implies #[trigger] post.spec_chunks()[k]
        == pre.spec_chunks()[if k < i {
        k
    } else {
        k + 1
    }] by {}
    assert(post.wf());
    if post.spec_loaded(cx, cz) {
        let k = choose|k: int|
            0 <= k < post.spec_chunks().len() && pos_is(#[trigger] post.spec_chunks()[k], cx, cz);
        let k0 = if k < i {
            k
        } else {
            k + 1
        };
        assert(pos_is(pre.spec_chunks()[k0], cx, cz));
        assert(k0 != i);
        assert(false);
    }
    assert forall|cx2: int, cz2: int|
        !(cx2 == cx && cz2 == cz) implies #[trigger] post.spec_loaded(cx2, cz2)
        == pre.spec_loaded(cx2, cz2) && (pre.spec_loaded(cx2, cz2) ==> post.chunk_at(cx2, cz2)
        == pre.chunk_at(cx2, cz2)) by {
        if pre.spec_loaded(cx2, cz2) {
            let k1 = choose|k: int|
                0 <= k < pre.spec_chunks().len() && pos_is(
                    #[trigger] pre.spec_chunks()[k],
                    cx2,
                    cz2,
                );
            assert(k1 != i);
            let kp = if k1 < i {
                k1
            } else {
                k1 - 1
            };
            assert(post.spec_chunks()[kp] == pre.spec_chunks()[k1]);
            assert(pos_is(post.spec_chunks()[kp], cx2, cz2));
            let k2 = choose|k: int|
                0 <= k < post.spec_chunks().len() && pos_is(
                    #[trigger] post.spec_chunks()[k],
                    cx2,
                    cz2,
                );
            let k20 = if k2 < i {
                k2
            } else {
                k2 + 1
            };
            assert(pos_is(pre.spec_chunks()[k20], cx2, cz2));
            assert(k20 == k1);
        }
        if post.spec_loaded(cx2, cz2) {
            let k = choose|k: int|
                0 <= k < post.spec_chunks().len() && pos_is(
                    #[trigger] post.spec_chunks()[k],
                    cx2,
                    cz2,
                );
            let k0 = if k < i {
                k
            } else {
                k + 1
            };
            assert(pos_is(pre.spec_chunks()[k0], cx2, cz2));
        }
    }
}

} // verus!
