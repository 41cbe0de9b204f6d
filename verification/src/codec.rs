//! The wire format of a column load payload.
//!
//! For each selected vertical slot, in ascending slot order: a one-byte bit
//! width; when the width is at most 8, a variable-length palette count
//! followed by that many variable-length global ids; a variable-length word
//! count followed by that many big-endian 64-bit words of packed cell data;
//! then 2048 bytes of block light and 2048 bytes of sky light. Any short
//! read or malformed count fails the whole load. The spec functions here
//! define the format; the executable readers are proved against them.

use vstd::prelude::*;

use crate::bit::BitArray;
use crate::bit::spec_cell;
use crate::block::Block;
use crate::block::spec_block_by_global_id;
use crate::section::Section;
use crate::section::lin_index;

verus! {

broadcast use crate::section::lemma_section_lens;

/// The failure of a column load: a short read or a malformed count in the
/// payload.
#[derive(PartialEq, Eq, Structural, Clone, Copy, Debug)]
pub enum DecodeError {
    /// The payload ended early or held a count or width no payload of the
    /// format can hold.
    Malformed,
}

/// A variable-length unsigned integer: seven value bits per byte, low bits
/// first, the high bit of each byte flagging continuation; five bytes at
/// most. `k` bytes have been consumed into `acc` so far.
pub open spec fn spec_varint_at(bytes: Seq<u8>, pos: int, k: nat, acc: u32) -> Option<(u32, int)>
    decreases 5 - k,
{
    if k >= 5 {
        Option::None
    } else if pos < 0 || pos >= bytes.len() {
        Option::None
    } else {
        let b = bytes[pos];
        let acc2 = acc | (((b & 0x7F) as u32) << ((7 * k) as u32));
        if b & 0x80 == 0 {
            Option::Some((acc2, pos + 1))
        } else {
            spec_varint_at(bytes, pos + 1, k + 1, acc2)
        }
    }
}

/// A variable-length unsigned integer starting at `pos`.
pub open spec fn spec_varint(bytes: Seq<u8>, pos: int) -> Option<(u32, int)> {
    spec_varint_at(bytes, pos, 0, 0)
}

/// A big-endian 64-bit word at `pos`.
pub open spec fn spec_u64be(bytes: Seq<u8>, pos: int) -> u64
    recommends
        0 <= pos,
        pos + 8 <= bytes.len(),
{
    (((bytes[pos] as u64) << 56) | ((bytes[pos + 1] as u64) << 48) | ((bytes[pos + 2] as u64)
        << 40) | ((bytes[pos + 3] as u64) << 32) | ((bytes[pos + 4] as u64) << 24) | ((bytes[pos
        + 5] as u64) << 16) | ((bytes[pos + 6] as u64) << 8) | (bytes[pos + 7] as u64)) as u64
}

/// `n` variable-length global ids forming the local palette table.
pub open spec fn spec_palette(bytes: Seq<u8>, pos: int, n: nat) -> Option<(Seq<u32>, int)>
    decreases n,
{
    if n == 0 {
        Option::Some((Seq::empty(), pos))
    } else {
        match spec_varint(bytes, pos) {
            Option::None => Option::None,
            Option::Some((id, pos2)) => match spec_palette(bytes, pos2, (n - 1) as nat) {
                Option::None => Option::None,
                Option::Some((rest, pos3)) => Option::Some((seq![id] + rest, pos3)),
            },
        }
    }
}

/// One slot's decoded payload.
pub struct SlotPayload {
    /// The packed-cell width in bits.
    pub bit_width: u8,
    /// The local-index-to-global-id table; empty when the width is above 8.
    pub palette: Seq<u32>,
    /// The packed cell words.
    pub words: Seq<u64>,
    /// The raw block light bytes.
    pub block_light: Seq<u8>,
    /// The raw sky light bytes.
    pub sky_light: Seq<u8>,
}

/// One slot's payload starting at `pos`: width, optional palette, packed
/// words, and the two light channels. A width outside `[1, 63]`, a palette
/// count above 4096, a word count too small to cover 4096 cells or above
/// 0x10_0000, or a short read, is malformed.
pub open spec fn spec_slot(bytes: Seq<u8>, pos: int) -> Option<(SlotPayload, int)> {
    if pos < 0 || pos >= bytes.len() {
        Option::None
    } else {
        let bw = bytes[pos];
        if bw < 1 || bw >= 64 {
            Option::None
        } else {
            let pal = if bw <= 8 {
                match spec_varint(bytes, pos + 1) {
                    Option::None => Option::None,
                    Option::Some((count, pos2)) => {
                        if count > 4096 {
                            Option::None
                        } else {
                            spec_palette(bytes, pos2, count as nat)
                        }
                    },
                }
            } else {
                Option::Some((Seq::<u32>::empty(), pos + 1))
            };
            match pal {
                Option::None => Option::None,
                Option::Some((palette, pos3)) => match spec_varint(bytes, pos3) {
                    Option::None => Option::None,
                    Option::Some((wc, pos4)) => {
                        if wc > 0x10_0000 || (wc as int) * 64 < 4096 * (bw as int) || pos4 + 8 * (
                        wc as int) + 4096 > bytes.len() {
                            Option::None
                        } else {
                            let words = Seq::new(wc as nat, |i: int| spec_u64be(bytes, pos4 + 8 * i));
                            let pos5 = pos4 + 8 * (wc as int);
                            Option::Some(
                                (
                                    SlotPayload {
                                        bit_width: bw,
                                        palette,
                                        words,
                                        block_light: bytes.subrange(pos5, pos5 + 2048),
                                        sky_light: bytes.subrange(pos5 + 2048, pos5 + 4096),
                                    },
                                    pos5 + 4096,
                                ),
                            )
                        }
                    },
                },
            }
        }
    }
}

/// The block value of cell `c` under a slot payload: the packed local index,
/// mapped through the palette table when one is present and covers it,
/// resolved through the global id space.
pub open spec fn spec_decoded_block(p: SlotPayload, c: int) -> Block {
    let v = spec_cell(p.words, p.bit_width as u64, c);
    let gid = if p.bit_width <= 8 && (v as int) < p.palette.len() {
        p.palette[v as int] as u64
    } else {
        v
    };
    spec_block_by_global_id(gid)
}

/// All 4096 block values of a slot payload.
pub open spec fn spec_decoded_blocks(p: SlotPayload) -> Seq<Block> {
    Seq::new(4096, |c: int| spec_decoded_block(p, c))
}

/// Whether bit `i` of the slot mask selects slot `i`.
pub open spec fn mask_bit(mask: u16, i: int) -> bool {
    (mask >> (i as u16)) & 1 == 1
}

/// The payloads of every selected slot from `i` upward, each keyed by its
/// slot, with the data of lower selected slots already consumed up to `pos`.
pub open spec fn spec_load(bytes: Seq<u8>, pos: int, mask: u16, i: int) -> Option<
    Map<int, SlotPayload>,
>
    decreases 16 - i,
{
    if i >= 16 {
        Option::Some(Map::empty())
    } else if !mask_bit(mask, i) {
        spec_load(bytes, pos, mask, i + 1)
    } else {
        match spec_slot(bytes, pos) {
            Option::None => Option::None,
            Option::Some((p, pos2)) => match spec_load(bytes, pos2, mask, i + 1) {
                Option::None => Option::None,
                Option::Some(m) => Option::Some(m.insert(i, p)),
            },
        }
    }
}

/// The payloads of the selected slots in `[i, j)` with the position one
/// past their data, with lower selected slots already consumed up to `pos`.
/// This is the prefix the loader has applied when a later slot turns out
/// malformed.
pub open spec fn spec_load_upto(bytes: Seq<u8>, pos: int, mask: u16, i: int, j: int) -> Option<
    (Map<int, SlotPayload>, int),
>
    decreases j - i,
{
    if i >= j {
        Option::Some((Map::empty(), pos))
    } else if !mask_bit(mask, i) {
        spec_load_upto(bytes, pos, mask, i + 1, j)
    } else {
        match spec_slot(bytes, pos) {
            Option::None => Option::None,
            Option::Some((p, pos2)) => match spec_load_upto(bytes, pos2, mask, i + 1, j) {
                Option::None => Option::None,
                Option::Some((m, e)) => Option::Some((m.insert(i, p), e)),
            },
        }
    }
}

/// A decoded prefix extends by one slot: appending slot `j` consumes its
/// payload when selected, and nothing otherwise.
pub proof fn lemma_load_upto_extend(bytes: Seq<u8>, pos: int, mask: u16, i: int, j: int)
    requires
        i <= j < 16,
        spec_load_upto(bytes, pos, mask, i, j) is Some,
    ensures
        ({
            let (m, e) = spec_load_upto(bytes, pos, mask, i, j)->Some_0;
            if !mask_bit(mask, j) {
                spec_load_upto(bytes, pos, mask, i, j + 1) == Option::Some((m, e))
            } else {
                match spec_slot(bytes, e) {
                    Option::Some((p, e2)) => spec_load_upto(bytes, pos, mask, i, j + 1)
                        == Option::Some((m.insert(j, p), e2)),
                    Option::None => spec_load_upto(bytes, pos, mask, i, j + 1) is None,
                }
            }
        }),
    decreases j - i,
{
    let (m, e) = spec_load_upto(bytes, pos, mask, i, j)->Some_0;
    if i == j {
        assert(m == Map::<int, SlotPayload>::empty() && e == pos);
        if mask_bit(mask, j) {
            match spec_slot(bytes, e) {
                Option::Some((p, e2)) => {
                    assert(spec_load_upto(bytes, e2, mask, j + 1, j + 1) == Option::Some(
                        (Map::<int, SlotPayload>::empty(), e2),
                    ));
                },
                Option::None => {},
            }
        }
    } else if !mask_bit(mask, i) {
        lemma_load_upto_extend(bytes, pos, mask, i + 1, j);
    } else {
        let (p0, pos2) = spec_slot(bytes, pos)->Some_0;
        let (m1, e1) = spec_load_upto(bytes, pos2, mask, i + 1, j)->Some_0;
        lemma_load_upto_extend(bytes, pos2, mask, i + 1, j);
        assert(m == m1.insert(i, p0) && e == e1);
        if !mask_bit(mask, j) {
        } else {
            match spec_slot(bytes, e) {
                Option::Some((p, e2)) => {
                    assert(m1.insert(j, p).insert(i, p0) =~= m.insert(j, p));
                },
                Option::None => {},
            }
        }
    }
}

/// A decoded prefix splits the whole-payload parse: the full parse succeeds
/// exactly when the parse of the remaining slots does, and the full map
/// agrees with the prefix below the split and with the remainder above it.
pub proof fn lemma_load_split(bytes: Seq<u8>, pos: int, mask: u16, i: int, j: int)
    requires
        0 <= i <= j <= 16,
        spec_load_upto(bytes, pos, mask, i, j) is Some,
    ensures
        ({
            let (m, e) = spec_load_upto(bytes, pos, mask, i, j)->Some_0;
            &&& (spec_load(bytes, pos, mask, i) is Some <==> spec_load(bytes, e, mask, j) is Some)
            &&& (spec_load(bytes, pos, mask, i) matches Option::Some(mf) ==> (spec_load(
                bytes,
                e,
                mask,
                j,
            ) matches Option::Some(ms) && (forall|k: int|
                i <= k < j && #[trigger] mask_bit(mask, k) ==> mf[k] == m[k]) && (forall|k: int|
                j <= k < 16 && #[trigger] mask_bit(mask, k) ==> mf[k] == ms[k])))
        }),
    decreases j - i,
{
    let (m, e) = spec_load_upto(bytes, pos, mask, i, j)->Some_0;
    if i == j {
    } else if !mask_bit(mask, i) {
        lemma_load_split(bytes, pos, mask, i + 1, j);
    } else {
        let (p0, pos2) = spec_slot(bytes, pos)->Some_0;
        let (m1, e1) = spec_load_upto(bytes, pos2, mask, i + 1, j)->Some_0;
        lemma_load_split(bytes, pos2, mask, i + 1, j);
        assert(m == m1.insert(i, p0) && e == e1);
    }
}

/// Read a variable-length unsigned integer.
pub fn read_varint(bytes: &Vec<u8>, pos: usize) -> (r: Option<(u32, usize)>)
    ensures
        match r {
            Option::Some((v, p2)) => spec_varint(bytes@, pos as int) == Option::Some(
                (v, p2 as int),
            ) && pos < p2 <= bytes@.len(),
            Option::None => spec_varint(bytes@, pos as int) is None,
        },
{
    let mut acc: u32 = 0;
    let mut k: usize = 0;
    let mut p = pos;
    loop
        invariant
            k < 5,
            pos <= p,
            p == pos + k,
            spec_varint(bytes@, pos as int) == spec_varint_at(bytes@, p as int, k as nat, acc),
        decreases 5 - k,
    {
        if p >= bytes.len() {
            return Option::None;
        }
        let b = bytes[p];
        proof {
            assert(7 * k < 32);
        }
        acc = acc | (((b & 0x7F) as u32) << ((7 * k) as u32));
        p = p + 1;
        if b & 0x80 == 0 {
            return Option::Some((acc, p));
        }
        k = k + 1;
        if k == 5 {
            return Option::None;
        }
    }
}

/// Read a big-endian 64-bit word.
pub fn read_u64be(bytes: &Vec<u8>, pos: usize) -> (r: Option<(u64, usize)>)
    ensures
        match r {
            Option::Some((v, p2)) => pos + 8 <= bytes@.len() && v == spec_u64be(
                bytes@,
                pos as int,
            ) && p2 == pos + 8,
            Option::None => pos + 8 > bytes@.len(),
        },
{
    if bytes.len() < 8 || pos > bytes.len() - 8 {
        return Option::None;
    }
    let v = ((bytes[pos] as u64) << 56) | ((bytes[pos + 1] as u64) << 48) | ((bytes[pos
        + 2] as u64) << 40) | ((bytes[pos + 3] as u64) << 32) | ((bytes[pos + 4] as u64) << 24) | ((
    bytes[pos + 5] as u64) << 16) | ((bytes[pos + 6] as u64) << 8) | (bytes[pos + 7] as u64);
    Option::Some((v, pos + 8))
}

/// Decode one slot's payload into a section: blocks through the palette
/// table and registry, then both light channels. On success the section
/// holds exactly the decoded contents and the returned position is one past
/// the slot's data; on failure (a malformed or short payload) the section is
/// untouched.
#[verifier::loop_isolation(false)]
pub fn decode_slot(bytes: &Vec<u8>, pos: usize, section: &mut Section) -> (r: Option<usize>)
    requires
        old(section).wf(),
    ensures
        final(section).wf(),
        final(section).spec_key() == old(section).spec_key(),
        final(section).is_building() == old(section).is_building(),
        match r {
            Option::Some(p2) => match spec_slot(bytes@, pos as int) {
                Option::Some((p, end)) => {
                    &&& end == p2 as int
                    &&& final(section)@ == spec_decoded_blocks(p)
                    &&& final(section).light_block() == crate::nibble::spec_nibbles(p.block_light)
                    &&& final(section).light_sky() == crate::nibble::spec_nibbles(p.sky_light)
                },
                Option::None => false,
            },
            Option::None => spec_slot(bytes@, pos as int) is None && final(section)@ == old(section)@ && final(section).light_block() == old(section).light_block() && final(section).light_sky() == old(section).light_sky(),
        },
{
    if pos >= bytes.len() {
        return Option::None;
    }
    let bw = bytes[pos];
    if bw < 1 || bw >= 64 {
        return Option::None;
    }
    let mut palette: Vec<u32> = Vec::new();
    let mut p: usize = pos + 1;
    if bw <= 8 {
        let (count, p2) = match read_varint(bytes, pos + 1) {
            Option::Some(v) => v,
            Option::None => {
                return Option::None;
            },
        };
        if count > 4096 {
            return Option::None;
        }
        p = p2;
        let mut remaining = count;
        proof {
            assert(spec_palette(bytes@, p as int, 0nat) == Option::Some(
                (Seq::<u32>::empty(), p as int),
            ));
        }
        let ghost palette_start = p as int;
        let ghost sec0 = *section;
        while remaining > 0
            invariant
                *section == sec0,
                sec0 == *old(section),
                sec0.wf(),
                remaining <= count,
                p <= bytes@.len(),
                palette@.len() == count - remaining,
                spec_palette(bytes@, palette_start, count as nat) == (match spec_palette(
                    bytes@,
                    p as int,
                    remaining as nat,
                ) {
                    Option::None => Option::None::<(Seq<u32>, int)>,
                    Option::Some((rest, e)) => Option::Some((palette@ + rest, e)),
                }),
            decreases remaining,
        {
            let (id, p2) = match read_varint(bytes, p) {
                Option::Some(v) => v,
                Option::None => {
                    proof {
                        assert(spec_palette(bytes@, p as int, remaining as nat) is None);
                        assert(spec_palette(bytes@, palette_start, count as nat) is None);
                        assert(spec_slot(bytes@, pos as int) is None);
                    }
                    return Option::None;
                },
            };
            let ghost pal0 = palette@;
            palette.push(id);
            p = p2;
            remaining = remaining - 1;
            proof {
                assert forall|rest: Seq<u32>| true implies pal0 + (seq![id] + rest) == palette@
                    + rest by {
                    assert(pal0 + (seq![id] + rest) =~= palette@ + rest);
                }
                if spec_palette(bytes@, p as int, remaining as nat) is Some {
                    let (rest, e) = spec_palette(bytes@, p as int, remaining as nat)->Some_0;
                    assert(pal0 + (seq![id] + rest) == palette@ + rest);
                }
            }
        }
        proof {
            assert(spec_palette(bytes@, p as int, 0nat) == Option::Some(
                (Seq::<u32>::empty(), p as int),
            ));
            assert(palette@ + Seq::<u32>::empty() =~= palette@);
        }
    }
    // The packed words.
    let (wc, p4) = match read_varint(bytes, p) {
        Option::Some(v) => v,
        Option::None => {
            return Option::None;
        },
    };
    if wc > 0x10_0000 || (wc as u64) * 64 < 4096 * (bw as u64) {
        return Option::None;
    }
    if bytes.len() < 4096 || p4 > bytes.len() - 4096 || (bytes.len() - 4096 - p4) / 8 < wc as usize
    {
        proof {
            assert(p4 + 8 * (wc as int) + 4096 > bytes@.len());
        }
        return Option::None;
    }
    let mut words: Vec<u64> = Vec::new();
    let mut wp = p4;
    let wcu = wc as usize;
    let ghost sec1 = *section;
    while words.len() < wcu
        invariant
            *section == sec1,
            sec1 == *old(section),
            sec1.wf(),
            words@.len() <= wcu,
            wp == p4 + 8 * words@.len(),
            p4 + 8 * wcu + 4096 <= bytes@.len(),
            forall|i: int|
                0 <= i < words@.len() ==> words@[i] == spec_u64be(bytes@, p4 + 8 * i),
        decreases wcu - words@.len(),
    {
        let (v, wp2) = match read_u64be(bytes, wp) {
            Option::Some(v) => v,
            Option::None => {
                proof {
                    assert(false);
                }
                return Option::None;
            },
        };
        words.push(v);
        wp = wp2;
    }
    let pos5 = wp;
    proof {
        assert(words@ =~= Seq::new(wc as nat, |i: int| spec_u64be(bytes@, p4 + 8 * i)));
        assert(spec_slot(bytes@, pos as int) is Some);
    }
    let ghost payload = match spec_slot(bytes@, pos as int) {
        Option::Some((pl, end)) => pl,
        Option::None => vstd::pervasive::arbitrary(),
    };
    proof {
        assert(payload.bit_width == bw && payload.palette == palette@ && payload.words == words@);
        assert(payload.block_light == bytes@.subrange(pos5 as int, pos5 as int + 2048));
        assert(payload.sky_light == bytes@.subrange(pos5 as int + 2048, pos5 as int + 4096));
    }
    // Decode the 4096 packed cells through the palette and the registry.
    let arr = BitArray::from_raw(words, bw as usize, 4096);
    proof {
        vstd::arithmetic::div_mod::lemma_fundamental_div_mod(4096 * (bw as int), 64);
    }
    let mut c: usize = 0;
    while c < 4096
        invariant
            section.wf(),
            section.spec_key() == old(section).spec_key(),
            section.is_building() == old(section).is_building(),
            section.light_block() == old(section).light_block(),
            section.light_sky() == old(section).light_sky(),
            c <= 4096,
            arr.wf(),
            arr@.len() == 4096,
            arr.spec_width() == payload.bit_width as u64,
            forall|k: int| 0 <= k < 4096 ==> arr@[k] == spec_cell(payload.words, payload.bit_width as u64, k),
            payload.bit_width == bw,
            payload.palette == palette@,
            1 <= bw < 64,
            forall|k: int| 0 <= k < c ==> #[trigger] section@[k] == spec_decoded_block(payload, k),
            forall|k: int| c <= k < 4096 ==> #[trigger] section@[k] == old(section)@[k],
        decreases 4096 - c,
    {
        let v = arr.get(c);
        let gid: u64 = if bw <= 8 {
            proof {
                assert(v < 4096) by {
                    crate::bit::lemma_mask(bw as u64);
                    assert(v <= crate::bit::mask_of(bw as u64));
                    assert(((1u64 << (bw as u64)) - 1) < 4096) by (bit_vector)
                        requires
                            1 <= (bw as u64) <= 8,
                    ;
                }
            }
            if (v as usize) < palette.len() {
                palette[v as usize] as u64
            } else {
                v
            }
        } else {
            v
        };
        let b = Block::by_global_id(gid);
        let yq = c / 256;
        let rem = c % 256;
        let zq = rem / 16;
        let xq = rem % 16;
        proof {
            vstd::arithmetic::div_mod::lemma_fundamental_div_mod(c as int, 256);
            vstd::arithmetic::div_mod::lemma_fundamental_div_mod(rem as int, 16);
            assert(lin_index(xq as int, yq as int, zq as int) == c);
            assert(b == spec_decoded_block(payload, c as int));
        }
        let ghost pre = *section;
        section.set_block(xq, yq, zq, b);
        proof {
            assert(section@ =~= pre@.update(c as int, b));
        }
        c += 1;
    }
    proof {
        assert(section@ =~= spec_decoded_blocks(payload));
    }
    // The two light channels: 2048 raw bytes each.
    let bl = copy_range(bytes, pos5, 2048);
    let sl = copy_range(bytes, pos5 + 2048, 2048);
    section.load_block_light(bl);
    section.load_sky_light(sl);
    Option::Some(pos5 + 4096)
}

/// Copy `n` bytes starting at `pos` into a fresh vector.
fn copy_range(bytes: &Vec<u8>, pos: usize, n: usize) -> (r: Vec<u8>)
    requires
        pos + n <= bytes@.len(),
    ensures
        r@ == bytes@.subrange(pos as int, pos as int + n as int),
{
    let len = bytes.len();
    let mut r: Vec<u8> = Vec::new();
    let mut i: usize = 0;
    while i < n
        invariant
            i <= n,
            pos + n <= len,
            len == bytes@.len(),
            r@.len() == i,
            forall|k: int| 0 <= k < i ==> r@[k] == bytes@[pos + k],
        decreases n - i,
    {
        r.push(bytes[pos + i]);
        i += 1;
    }
    proof {
        assert(r@ =~= bytes@.subrange(pos as int, pos as int + n as int));
    }
    r
}

} // verus!
