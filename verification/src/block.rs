//! Block values: the content type of a cell.
//!
//! A block value is an opaque, comparable value. Two reserved sentinels
//! exist: `Missing` (the region is not loaded) and `Air` (loaded but vacant).
//! Every other value is a domain block type, identified here by its stable
//! global numeric id, as handed out by the block registry this store
//! collaborates with.

use vstd::prelude::*;

verus! {

/// One cell's content.
#[derive(PartialEq, Eq, Structural, Clone, Copy, Hash, Debug)]
pub enum Block {
    /// Sentinel: the region holding the cell is not loaded.
    Missing,
    /// Sentinel: the cell is loaded but vacant.
    Air,
    /// A domain block type, by its stable global id.
    Other(u16),
}

/// The global id space: id 0 is the vacant block, other ids that fit in
/// 16 bits are domain blocks, and everything else is unknown.
pub open spec fn spec_block_by_global_id(id: u64) -> Block {
    if id == 0 {
        Block::Air
    } else if id <= 0xFFFF {
        Block::Other(id as u16)
    } else {
        Block::Missing
    }
}

impl Block {
    /// Resolve a stable global numeric id to a block value. Unknown ids
    /// resolve to the `Missing` sentinel rather than failing.
    pub fn by_global_id(id: u64) -> (r: Block)
        ensures
            r == spec_block_by_global_id(id),
    {
        if id == 0 {
            Block::Air
        } else if id <= 0xFFFF {
            Block::Other(id as u16)
        } else {
            Block::Missing
        }
    }
}

} // verus!
