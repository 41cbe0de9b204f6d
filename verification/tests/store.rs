use blockstore::bit::BitArray;
use blockstore::block::Block;
use blockstore::codec::DecodeError;
use blockstore::section::Section;
use blockstore::world::World;

// Wire-format builders for load payloads.

fn push_varint(out: &mut Vec<u8>, mut v: u32) {
    loop {
        let b = (v & 0x7F) as u8;
        v >>= 7;
        if v == 0 {
            out.push(b);
            break;
        } else {
            out.push(b | 0x80);
        }
    }
}

fn push_u64_be(out: &mut Vec<u8>, v: u64) {
    for i in 0..8 {
        out.push((v >> (8 * (7 - i))) as u8);
    }
}

/// One slot's payload: 4-bit cells, a palette of global ids, and the cells
/// given as palette indices.
fn slot_payload_width4(palette: &[u32], cells: &[(usize, u64)]) -> Vec<u8> {
    slot_payload_width4_lit(palette, cells, 0x00, 0xFF)
}

/// As `slot_payload_width4`, with every light byte given explicitly.
fn slot_payload_width4_lit(
    palette: &[u32],
    cells: &[(usize, u64)],
    block_light_byte: u8,
    sky_light_byte: u8,
) -> Vec<u8> {
    let mut out = Vec::new();
    out.push(4u8); // bit width
    push_varint(&mut out, palette.len() as u32);
    for &id in palette {
        push_varint(&mut out, id);
    }
    let mut words = vec![0u64; 256]; // 4096 cells * 4 bits / 64
    for &(c, v) in cells {
        let bit = c * 4;
        words[bit / 64] |= v << (bit % 64);
    }
    push_varint(&mut out, 256);
    for w in words {
        push_u64_be(&mut out, w);
    }
    for _ in 0..2048 {
        out.push(block_light_byte);
    }
    for _ in 0..2048 {
        out.push(sky_light_byte);
    }
    out
}

#[test]
fn set_then_get_returns_written_value() {
    let mut w = World::new();
    let stone = Block::Other(1);
    w.set_block(3, 7, -5, stone);
    assert_eq!(w.get_block(3, 7, -5), stone);
    // a second write to another cell leaves the first alone
    w.set_block(-17, 200, 44, Block::Other(9));
    assert_eq!(w.get_block(-17, 200, 44), Block::Other(9));
    assert_eq!(w.get_block(3, 7, -5), stone);
    // overwrite
    w.set_block(3, 7, -5, Block::Other(2));
    assert_eq!(w.get_block(3, 7, -5), Block::Other(2));
    // writes outside the vertical range change nothing
    w.set_block(3, -1, -5, stone);
    assert_eq!(w.get_block(3, -1, -5), Block::Missing);
    w.set_block(3, 256, -5, stone);
    assert_eq!(w.get_block(3, 256, -5), Block::Missing);
}

#[test]
fn reads_distinguish_missing_from_air() {
    let mut w = World::new();
    assert_eq!(w.get_block(0, 0, 0), Block::Missing);
    w.set_block(0, 0, 0, Block::Other(1));
    // same column, other cell: loaded but vacant
    assert_eq!(w.get_block(1, 0, 0), Block::Air);
    // other column: still missing
    assert_eq!(w.get_block(100, 0, 0), Block::Missing);
    assert!(w.is_chunk_loaded(0, 0));
    assert!(!w.is_chunk_loaded(6, 0));
    w.unload_chunk(0, 0);
    assert_eq!(w.get_block(0, 0, 0), Block::Missing);
}

#[test]
fn palette_width_doubles_once_for_seventeen_values() {
    let mut s = Section::new(0, 0, 0);
    assert_eq!(s.width(), 4);
    for i in 0..17u16 {
        s.set_block(i as usize % 16, i as usize / 16, 0, Block::Other(i + 1));
    }
    // one doubling: 4 -> 8, and not further
    assert_eq!(s.width(), 8);
    for i in 0..17u16 {
        assert_eq!(
            s.get_block(i as usize % 16, i as usize / 16, 0),
            Block::Other(i + 1)
        );
    }
}

#[test]
fn palette_reuses_freed_slots() {
    let mut s = Section::new(0, 0, 0);
    let len0 = s.palette_len();
    s.set_block(0, 0, 0, Block::Other(7));
    let len1 = s.palette_len();
    // the only cell holding 7 is overwritten, freeing its slot for 8
    s.set_block(0, 0, 0, Block::Other(8));
    assert_eq!(s.palette_len(), len1);
    assert_eq!(s.get_block(0, 0, 0), Block::Other(8));
    assert!(len1 > len0);
}

#[test]
fn building_flag_defers_collection() {
    let mut w = World::new();
    w.set_block(0, 20, 0, Block::Other(3)); // slot 1 of column (0,0)
    let dirty = w.get_dirty_chunk_sections();
    assert_eq!(dirty.len(), 1);
    let (cx, sy, cz, key) = dirty[0];
    assert_eq!((cx, sy, cz), (0, 1, 0));
    assert_eq!((key.x, key.y, key.z), (0, 1u8, 0));

    // entering a build clears dirty and excludes the section
    w.set_building_flag((0, 1, 0));
    assert!(w.get_dirty_chunk_sections().is_empty());

    // an edit during the build re-arms dirty but stays excluded
    w.set_block(1, 20, 0, Block::Other(4));
    assert!(w.get_dirty_chunk_sections().is_empty());

    // once the build ends, the re-armed section is collected again
    w.reset_building_flag((0, 1, 0));
    let dirty2 = w.get_dirty_chunk_sections();
    assert_eq!(dirty2.len(), 1);
    assert_eq!(dirty2[0].3, key);
}

#[test]
fn flag_dirty_all_rearms_every_section() {
    let mut w = World::new();
    w.set_block(0, 0, 0, Block::Other(1));
    w.set_block(40, 100, -30, Block::Other(2));
    w.set_building_flag((0, 0, 0));
    w.reset_building_flag((0, 0, 0));
    assert_eq!(w.get_dirty_chunk_sections().len(), 1);
    w.flag_dirty_all();
    assert_eq!(w.get_dirty_chunk_sections().len(), 2);
}

#[test]
fn capture_matches_point_reads_inside_a_section() {
    let mut w = World::new();
    for x in 0..4 {
        for z in 0..4 {
            w.set_block(x, 5, z, Block::Other((1 + x + 4 * z) as u16));
        }
    }
    let snap = w.capture_snapshot(0, 4, 0, 4, 3, 4);
    for x in 0..4 {
        for y in 4..7 {
            for z in 0..4 {
                assert_eq!(snap.get_block(x, y, z), w.get_block(x, y, z));
            }
        }
    }
}

#[test]
fn capture_distinguishes_missing_column_from_absent_section() {
    let mut w = World::new();
    w.set_block(0, 0, 0, Block::Other(1)); // column (0,0) exists, slot 0 only
    let snap = w.capture_snapshot(0, 100, 0, 2, 1, 2);
    // column exists but slot 6 is absent: empty sentinel under default light
    assert_eq!(snap.get_block(0, 100, 0), Block::Air);
    assert_eq!(snap.get_sky_light(0, 100, 0), 0xF);
    assert_eq!(snap.get_block_light(0, 100, 0), 0);
    // a column that does not exist reads as missing
    let snap2 = w.capture_snapshot(64, 100, 64, 2, 1, 2);
    assert_eq!(snap2.get_block(64, 100, 64), Block::Missing);
    assert_eq!(snap2.get_sky_light(64, 100, 64), 0xF);
}

#[test]
fn snapshot_rebasing_only_moves_the_origin() {
    let mut w = World::new();
    w.set_block(1, 1, 1, Block::Other(5));
    let mut snap = w.capture_snapshot(0, 0, 0, 3, 3, 3);
    assert_eq!(snap.get_block(1, 1, 1), Block::Other(5));
    snap.make_relative(10, 10, 10);
    assert_eq!(snap.get_block(11, 11, 11), Block::Other(5));
}

#[test]
fn load_resolves_palette_and_marks_cells() {
    let mut w = World::new();
    // slot 0 only; two palette entries: global id 0 (air) and global id 1;
    // every cell zero except cell 5, which points at palette entry 1
    let payload = slot_payload_width4(&[0, 1], &[(5, 1)]);
    let r = w.load_chunk(0, 0, true, 0b1, payload);
    assert!(r.is_ok());
    assert_eq!(w.get_block(5, 0, 0), Block::Other(1));
    assert_eq!(w.get_block(4, 0, 0), Block::Air);
    assert_eq!(w.get_block(5, 1, 0), Block::Air);
    // the loaded slot is collectable
    let dirty = w.get_dirty_chunk_sections();
    assert!(dirty.iter().any(|t| (t.0, t.1, t.2) == (0, 0, 0)));
}

#[test]
fn load_skips_cleared_mask_bits_and_new_discards() {
    let mut w = World::new();
    w.set_block(0, 20, 0, Block::Other(9)); // slot 1
    w.set_block(0, 0, 0, Block::Other(8)); // slot 0

    // mask selects slot 0 only: slot 1 content is untouched
    let payload = slot_payload_width4(&[0, 1], &[(0, 1)]);
    let r = w.load_chunk(0, 0, false, 0b1, payload.clone());
    assert!(r.is_ok());
    assert_eq!(w.get_block(0, 20, 0), Block::Other(9));
    assert_eq!(w.get_block(0, 0, 0), Block::Other(1));

    // isNew discards all prior content of the column first
    let r2 = w.load_chunk(0, 0, true, 0b1, payload);
    assert!(r2.is_ok());
    assert_eq!(w.get_block(0, 20, 0), Block::Air);

    // loading a column that does not exist, without isNew, is a no-op
    let r3 = w.load_chunk(9, 9, false, 0b1, vec![]);
    assert!(r3.is_ok());
    assert!(!w.is_chunk_loaded(9, 9));
}

#[test]
fn malformed_payload_fails_but_keeps_earlier_slots() {
    let mut w = World::new();
    // slot 0 intact, slot 1 truncated after its bit width
    let mut payload = slot_payload_width4(&[0, 2], &[(7, 1)]);
    payload.push(4u8);
    let r = w.load_chunk(0, 0, true, 0b11, payload);
    assert_eq!(r, Err(DecodeError::Malformed));
    // the slot populated before the failure stays populated
    assert_eq!(w.get_block(7, 0, 0), Block::Other(2));
}

#[test]
fn malformed_width_fails_the_load() {
    let mut w = World::new();
    let r = w.load_chunk(0, 0, true, 0b1, vec![0u8]);
    assert_eq!(r, Err(DecodeError::Malformed));
    let r2 = w.load_chunk(0, 0, true, 0b1, vec![64u8]);
    assert_eq!(r2, Err(DecodeError::Malformed));
}

#[test]
fn load_flags_adjacent_sections_dirty() {
    let mut w = World::new();
    w.set_block(16, 0, 0, Block::Other(1)); // column (1,0), slot 0
    w.set_block(0, 16, 0, Block::Other(2)); // column (0,0), slot 1
    // drain the dirty queue
    for t in w.get_dirty_chunk_sections() {
        w.set_building_flag((t.0, t.1, t.2));
        w.reset_building_flag((t.0, t.1, t.2));
    }
    assert!(w.get_dirty_chunk_sections().is_empty());
    // reload column (0,0) slot 0: its face-adjacent neighbours re-arm
    let payload = slot_payload_width4(&[0, 1], &[(0, 1)]);
    let r = w.load_chunk(0, 0, false, 0b1, payload);
    assert!(r.is_ok());
    let dirty = w.get_dirty_chunk_sections();
    assert!(dirty.iter().any(|t| (t.0, t.1, t.2) == (1, 0, 0)));
    assert!(dirty.iter().any(|t| (t.0, t.1, t.2) == (0, 1, 0)));
}

#[test]
fn packed_array_keeps_values_across_widths() {
    let mut a = BitArray::new(64, 4);
    for i in 0..64 {
        a.set(i, (i % 16) as u64);
    }
    let b = a.resize(8);
    for i in 0..64 {
        assert_eq!(b.get(i), (i % 16) as u64);
    }
}

#[test]
fn packed_array_spans_word_boundaries() {
    // width 5: cell 12 occupies bits 60..65, crossing into the second word
    let mut a = BitArray::new(24, 5);
    a.set(12, 0b10110);
    assert_eq!(a.get(12), 0b10110);
    assert_eq!(a.get(11), 0);
    assert_eq!(a.get(13), 0);
    // the raw layout: low 4 bits in word 0's top, high bit in word 1's bottom
    let raw = vec![0b0110u64 << 60, 0b1u64];
    let c = BitArray::from_raw(raw, 5, 24);
    assert_eq!(c.get(12), 0b10110);
}

#[test]
fn section_light_channels_start_at_defaults() {
    let mut s = Section::new(0, 0, 0);
    assert_eq!(s.get_sky_light(3, 3, 3), 0xF);
    assert_eq!(s.get_block_light(3, 3, 3), 0);
    s.set_block_light(3, 3, 3, 11);
    s.set_sky_light(3, 3, 3, 2);
    assert_eq!(s.get_block_light(3, 3, 3), 11);
    assert_eq!(s.get_sky_light(3, 3, 3), 2);
}

#[test]
fn load_fills_light_channels_from_raw_bytes() {
    let mut w = World::new();
    // every light byte 0x21: even cells read 1, odd cells read 2
    let payload = slot_payload_width4_lit(&[0, 1], &[], 0x21, 0x43);
    let r = w.load_chunk(0, 0, true, 0b1, payload);
    assert!(r.is_ok());
    let snap = w.capture_snapshot(0, 0, 0, 4, 1, 1);
    assert_eq!(snap.get_block_light(0, 0, 0), 1);
    assert_eq!(snap.get_block_light(1, 0, 0), 2);
    assert_eq!(snap.get_sky_light(0, 0, 0), 3);
    assert_eq!(snap.get_sky_light(1, 0, 0), 4);
}

#[test]
fn malformed_payload_leaves_unselected_slots_alone() {
    let mut w = World::new();
    w.set_block(0, 40, 0, Block::Other(6)); // slot 2, never selected below
    // slot 0 selected but truncated immediately
    let r = w.load_chunk(0, 0, false, 0b1, vec![4u8]);
    assert_eq!(r, Err(DecodeError::Malformed));
    assert_eq!(w.get_block(0, 40, 0), Block::Other(6));
    // the failing slot exists afterwards and is collectable
    let dirty = w.get_dirty_chunk_sections();
    assert!(dirty.iter().any(|t| (t.0, t.1, t.2) == (0, 0, 0)));
}
