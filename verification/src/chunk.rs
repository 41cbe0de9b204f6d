//! A column: sixteen optional sections stacked at one 2D grid position,
//! plus a flat biome layer.
//!
//! A vertical slot holds no section until a cell in it is first written with
//! a non-empty value; an absent slot reads as `Air`. A global `y` outside the
//! sixteen slots reads as `Missing` and ignores writes.

use vstd::prelude::*;

use crate::block::Block;
use crate::section::Section;
use crate::section::SectionKey;
use crate::section::lin_index;

verus! {

broadcast use crate::section::lemma_section_lens;

/// A column position on the horizontal grid.
#[derive(PartialEq, Eq, Structural, Clone, Copy, Hash, Debug)]
pub struct CPos(pub i32, pub i32);

/// A column of sixteen optional sections and a 16x16 biome byte layer.
pub struct Chunk {
    position: CPos,
    sections: Vec<Option<Section>>,
    biomes: Vec<u8>,
}

impl Chunk {
    /// The column's grid position.
    pub closed spec fn spec_pos(&self) -> CPos {
        self.position
    }

    /// The sixteen vertical section slots.
    pub closed spec fn slots(&self) -> Seq<Option<Section>> {
        self.sections@
    }

    /// The flat biome layer.
    pub closed spec fn spec_biomes(&self) -> Seq<u8> {
        self.biomes@
    }

    /// The block at local `x`/`z` in `[0, 16)` and global `y`: `Missing`
    /// outside the vertical range, `Air` in an absent slot.
    pub open spec fn block_at(&self, x: int, y: int, z: int) -> Block {
        if y < 0 || y > 255 {
            Block::Missing
        } else {
            match self.slots()[y / 16] {
                Option::Some(s) => s@[lin_index(x, y % 16, z)],
                Option::None => Block::Air,
            }
        }
    }

    /// The block light at a cell; zero wherever no section stores one.
    pub open spec fn block_light_at(&self, x: int, y: int, z: int) -> u8 {
        if y < 0 || y > 255 {
            0u8
        } else {
            match self.slots()[y / 16] {
                Option::Some(s) => s.light_block()[lin_index(x, y % 16, z)],
                Option::None => 0u8,
            }
        }
    }

    /// The sky light at a cell; full wherever no section stores one.
    pub open spec fn sky_light_at(&self, x: int, y: int, z: int) -> u8 {
        if y < 0 || y > 255 {
            0xFu8
        } else {
            match self.slots()[y / 16] {
                Option::Some(s) => s.light_sky()[lin_index(x, y % 16, z)],
                Option::None => 0xFu8,
            }
        }
    }

    /// Structural soundness: sixteen slots, 256 biome bytes, and every
    /// present section well formed and keyed by this position and its slot.
    pub open spec fn wf(&self) -> bool {
        &&& self.slots().len() == 16
        &&& self.spec_biomes().len() == 256
        &&& forall|i: int|
            0 <= i < 16 ==> match #[trigger] self.slots()[i] {
                Option::Some(s) => s.wf() && s.spec_key() == (SectionKey {
                    x: self.spec_pos().0,
                    y: i as u8,
                    z: self.spec_pos().1,
                }),
                Option::None => true,
            }
    }

    /// A fresh column: no sections, zero biomes.
    pub fn new(pos: CPos) -> (r: Chunk)
        ensures
            r.wf(),
            r.spec_pos() == pos,
            forall|i: int| 0 <= i < 16 ==> r.slots()[i] is None,
    {
        let mut sections: Vec<Option<Section>> = Vec::new();
        let mut i: usize = 0;
        while i < 16
            invariant
                i <= 16,
                sections@.len() == i,
                forall|k: int| 0 <= k < i ==> sections@[k] is None,
            decreases 16 - i,
        {
            sections.push(Option::None);
            i += 1;
        }
        Chunk { position: pos, sections, biomes: vec![0u8; 256] }
    }

    /// The column's grid position.
    pub fn pos(&self) -> (r: CPos)
        ensures
            r == self.spec_pos(),
    {
        self.position
    }

    /// Borrow a vertical slot.
    pub fn section_ref(&self, i: usize) -> (r: &Option<Section>)
        requires
            self.wf(),
            i < 16,
        ensures
            *r == self.slots()[i as int],
    {
        &self.sections[i]
    }

    /// Mark the section in a slot dirty; a slot outside `[0, 16)` or an
    /// absent section is left alone.
    pub fn flag_slot_dirty(&mut self, i: usize)
        requires
            old(self).wf(),
        ensures
            final(self).wf(),
            final(self).spec_pos() == old(self).spec_pos(),
            final(self).spec_biomes() == old(self).spec_biomes(),
            forall|k: int|
                0 <= k < 16 && k != i as int ==> final(self).slots()[k] == old(self).slots()[k],
            i < 16 ==> match old(self).slots()[i as int] {
                Option::Some(s) => match final(self).slots()[i as int] {
                    Option::Some(s2) => s2.same_contents(&s) && s2.is_dirty()
                        && s2.is_building() == s.is_building(),
                    Option::None => false,
                },
                Option::None => final(self).slots()[i as int] is None,
            },
        {
        if i < 16 {
            match &mut self.sections[i] {
                Option::Some(sec) => {
                    sec.mark_dirty();
                },
                Option::None => {},
            }
        }
    }

    /// Enter a build on the section in a slot: building set, dirty cleared.
    /// A slot outside `[0, 16)` or an absent section is left alone.
    pub fn enter_build_slot(&mut self, i: usize)
        requires
            old(self).wf(),
        ensures
            final(self).wf(),
            final(self).spec_pos() == old(self).spec_pos(),
            final(self).spec_biomes() == old(self).spec_biomes(),
            forall|k: int|
                0 <= k < 16 && k != i as int ==> final(self).slots()[k] == old(self).slots()[k],
            i < 16 ==> match old(self).slots()[i as int] {
                Option::Some(s) => match final(self).slots()[i as int] {
                    Option::Some(s2) => s2.same_contents(&s) && !s2.is_dirty() && s2.is_building(),
                    Option::None => false,
                },
                Option::None => final(self).slots()[i as int] is None,
            },
    {
        if i < 16 {
            match &mut self.sections[i] {
                Option::Some(sec) => {
                    sec.enter_build();
                },
                Option::None => {},
            }
        }
    }

    /// Exit a build on the section in a slot: building cleared, dirty kept.
    /// A slot outside `[0, 16)` or an absent section is left alone.
    pub fn exit_build_slot(&mut self, i: usize)
        requires
            old(self).wf(),
        ensures
            final(self).wf(),
            final(self).spec_pos() == old(self).spec_pos(),
            final(self).spec_biomes() == old(self).spec_biomes(),
            forall|k: int|
                0 <= k < 16 && k != i as int ==> final(self).slots()[k] == old(self).slots()[k],
            i < 16 ==> match old(self).slots()[i as int] {
                Option::Some(s) => match final(self).slots()[i as int] {
                    Option::Some(s2) => s2.same_contents(&s) && s2.is_dirty() == s.is_dirty()
                        && !s2.is_building(),
                    Option::None => false,
                },
                Option::None => final(self).slots()[i as int] is None,
            },
    {
        if i < 16 {
            match &mut self.sections[i] {
                Option::Some(sec) => {
                    sec.exit_build();
                },
                Option::None => {},
            }
        }
    }

    /// Mark every present section dirty.
    pub fn flag_all_dirty(&mut self)
        requires
            old(self).wf(),
        ensures
            final(self).wf(),
            final(self).spec_pos() == old(self).spec_pos(),
            final(self).spec_biomes() == old(self).spec_biomes(),
            forall|k: int|
                0 <= k < 16 ==> match old(self).slots()[k] {
                    Option::Some(s) => match #[trigger] final(self).slots()[k] {
                        Option::Some(s2) => s2.same_contents(&s) && s2.is_dirty()
                            && s2.is_building() == s.is_building(),
                        Option::None => false,
                    },
                    Option::None => final(self).slots()[k] is None,
                },
    {
        let mut i: usize = 0;
        while i < 16
            invariant
                self.wf(),
                self.spec_pos() == old(self).spec_pos(),
                self.spec_biomes() == old(self).spec_biomes(),
                i <= 16,
                forall|k: int|
                    i as int <= k < 16 ==> #[trigger] self.slots()[k] == old(self).slots()[k],
                forall|k: int|
                    0 <= k < i as int ==> match old(self).slots()[k] {
                        Option::Some(s) => match #[trigger] self.slots()[k] {
                            Option::Some(s2) => s2.same_contents(&s) && s2.is_dirty()
                                && s2.is_building() == s.is_building(),
                            Option::None => false,
                        },
                        Option::None => self.slots()[k] is None,
                    },
            decreases 16 - i,
        {
            self.flag_slot_dirty(i);
            i += 1;
        }
    }

    /// Populate one vertical slot from a wire payload: the section is
    /// created if absent, filled from the decoded payload, and marked dirty.
    /// On a malformed payload the slot keeps (or newly holds) a section,
    /// marked dirty, and the load fails.
    pub fn load_slot(&mut self, i: usize, bytes: &Vec<u8>, pos: usize) -> (r: Option<usize>)
        requires
            old(self).wf(),
            i < 16,
        ensures
            final(self).wf(),
            final(self).spec_pos() == old(self).spec_pos(),
            final(self).spec_biomes() == old(self).spec_biomes(),
            forall|k: int|
                0 <= k < 16 && k != i as int ==> final(self).slots()[k] == old(self).slots()[k],
            final(self).slots()[i as int] is Some,
            match final(self).slots()[i as int] {
                Option::Some(s2) => s2.is_dirty() && s2.is_building() == (match old(self).slots()[i as int] {
                    Option::Some(s) => s.is_building(),
                    Option::None => false,
                }),
                Option::None => false,
            },
            match r {
                Option::Some(p2) => match crate::codec::spec_slot(bytes@, pos as int) {
                    Option::Some((p, end)) => end == p2 as int && match final(self).slots()[i as int] {
                        Option::Some(s2) => s2@ == crate::codec::spec_decoded_blocks(p)
                            && s2.light_block() == crate::nibble::spec_nibbles(p.block_light)
                            && s2.light_sky() == crate::nibble::spec_nibbles(p.sky_light),
                        Option::None => false,
                    },
                    Option::None => false,
                },
                Option::None => crate::codec::spec_slot(bytes@, pos as int) is None,
            },
    {
        if self.sections[i].is_none() {
            let fresh = Section::new(self.position.0, i as u8, self.position.1);
            self.sections.set(i, Option::Some(fresh));
        }
        match &mut self.sections[i] {
            Option::Some(sec) => {
                let r = crate::codec::decode_slot(bytes, pos, sec);
                sec.mark_dirty();
                r
            },
            Option::None => {
                proof {
                    assert(false);
                }
                Option::None
            },
        }
    }

    /// The block light at a cell; zero wherever no section stores one.
    pub fn get_block_light(&self, x: usize, y: i32, z: usize) -> (r: u8)
        requires
            self.wf(),
            x < 16,
            z < 16,
        ensures
            r == self.block_light_at(x as int, y as int, z as int),
            r <= 0xF,
    {
        if y < 0 || y > 255 {
            return 0;
        }
        let yu = y as usize;
        match &self.sections[yu / 16] {
            Option::Some(sec) => sec.get_block_light(x, yu % 16, z),
            Option::None => 0,
        }
    }

    /// The sky light at a cell; full wherever no section stores one.
    pub fn get_sky_light(&self, x: usize, y: i32, z: usize) -> (r: u8)
        requires
            self.wf(),
            x < 16,
            z < 16,
        ensures
            r == self.sky_light_at(x as int, y as int, z as int),
            r <= 0xF,
    {
        if y < 0 || y > 255 {
            return 0xF;
        }
        let yu = y as usize;
        match &self.sections[yu / 16] {
            Option::Some(sec) => sec.get_sky_light(x, yu % 16, z),
            Option::None => 0xF,
        }
    }

    /// Read a block. Local `x`/`z` in `[0, 16)`, global `y`.
    pub fn get_block(&self, x: usize, y: i32, z: usize) -> (r: Block)
        requires
            self.wf(),
            x < 16,
            z < 16,
        ensures
            r == self.block_at(x as int, y as int, z as int),
    {
        if y < 0 || y > 255 {
            return Block::Missing;
        }
        let yu = y as usize;
        match &self.sections[yu / 16] {
            Option::Some(sec) => sec.get_block(x, yu % 16, z),
            Option::None => Block::Air,
        }
    }

    /// Write a block. A write outside the vertical range is a no-op; writing
    /// a non-empty value into an absent slot creates the section lazily,
    /// while writing `Air` there changes nothing (absence already reads as
    /// `Air`).
    pub fn set_block(&mut self, x: usize, y: i32, z: usize, b: Block)
        requires
            old(self).wf(),
            x < 16,
            z < 16,
        ensures
            final(self).wf(),
            final(self).spec_pos() == old(self).spec_pos(),
            final(self).spec_biomes() == old(self).spec_biomes(),
            0 <= y ==> y <= 255 ==> final(self).block_at(x as int, y as int, z as int) == b,
            forall|x2: int, y2: int, z2: int|
                0 <= x2 < 16 && 0 <= z2 < 16 && !(x2 == x as int && y2 == y as int && z2
                    == z as int) ==> final(self).block_at(x2, y2, z2) == old(self).block_at(
                    x2,
                    y2,
                    z2,
                ),
            forall|x2: int, y2: int, z2: int|
                0 <= x2 < 16 && 0 <= z2 < 16 ==> final(self).block_light_at(x2, y2, z2) == old(self).block_light_at(x2, y2, z2) && final(self).sky_light_at(x2, y2, z2) == old(self).sky_light_at(x2, y2, z2),
            (y < 0 || y > 255) ==> final(self).slots() == old(self).slots(),
            forall|i: int|
                0 <= i < 16 && (y < 0 || y > 255 || i != y as int / 16) ==> final(self).slots()[i]
                    == old(self).slots()[i],
            0 <= y && y <= 255 ==> ({
                let si = y as int / 16;
                let lin = lin_index(x as int, y as int % 16, z as int);
                match old(self).slots()[si] {
                    Option::Some(s) => match final(self).slots()[si] {
                        Option::Some(s2) => {
                            &&& s2@ == s@.update(lin, b)
                            &&& s2.light_block() == s.light_block()
                            &&& s2.light_sky() == s.light_sky()
                            &&& s2.spec_key() == s.spec_key()
                            &&& s2.is_building() == s.is_building()
                            &&& (s@[lin] == b ==> s2.is_dirty() == s.is_dirty())
                            &&& (s@[lin] != b ==> s2.is_dirty())
                        },
                        Option::None => false,
                    },
                    Option::None => {
                        if b == Block::Air {
                            final(self).slots()[si] is None
                        } else {
                            match final(self).slots()[si] {
                                Option::Some(s2) => {
                                    &&& s2@ == Seq::new(4096, |c: int| Block::Air).update(lin, b)
                                    &&& s2.light_block() == Seq::new(4096, |c: int| 0u8)
                                    &&& s2.light_sky() == Seq::new(4096, |c: int| 0xFu8)
                                    &&& s2.is_dirty()
                                    &&& !s2.is_building()
                                },
                                Option::None => false,
                            }
                        }
                    },
                }
            }),
    {
        if y < 0 || y > 255 {
            return ;
        }
        let yu = y as usize;
        let si = yu / 16;
        if self.sections[si].is_none() {
            if b == Block::Air {
                return ;
            }
            let fresh = Section::new(self.position.0, si as u8, self.position.1);
            self.sections.set(si, Option::Some(fresh));
        }
        match &mut self.sections[si] {
            Option::Some(sec) => {
                sec.set_block(x, yu % 16, z, b);
            },
            Option::None => {},
        }
        proof {
            assert forall|y2: int|
                0 <= y2 <= 255 && #[trigger] (y2 / 16) == y as int / 16 && y2 % 16 == y as int
                    % 16 implies y2 == y as int by {
                vstd::arithmetic::div_mod::lemma_fundamental_div_mod(y2, 16);
                vstd::arithmetic::div_mod::lemma_fundamental_div_mod(y as int, 16);
            }
        }
    }
}

} // verus!
