//! A chunked, mutable, memory-dense store for a 3D grid of typed cells
//! ("blocks") over an unbounded horizontal plane.
//!
//! The store is organised in two tiers: a `World` maps 2D column positions to
//! `Chunk`s (columns), and each column holds sixteen optional `Section`s, each
//! a 16x16x16 cube compressed with a reference-counted value palette over a
//! variable-width bit-packed index array. Sections carry two 4-bit light
//! channels and invalidation flags so a downstream consumer can rebuild
//! derived data only for changed regions. Arbitrary axis-aligned sub-volumes
//! can be copied out into a detached `Snapshot`, and a column's contents can
//! be reconstructed from a compact wire payload.

pub mod bit;
pub mod block;
pub mod chunk;
pub mod codec;
pub mod nibble;
pub mod section;
pub mod snapshot;
pub mod world;
