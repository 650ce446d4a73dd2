//! Two-slot stable snapshots: the 16-byte header that commits a slot, the
//! slot offsets, where the next snapshot is written and the order in which
//! the slots are read back.
use vstd::prelude::*;
use crate::storage::{BLOCK_HEADER, MAGIC, MAX_SNAPSHOT};
use crate::types::{be64, Error};

verus! {

pub const BLOB_BASE: u64 = 67108864;
pub const SNAPSHOT_SLOT_A: u64 = 1048576;
pub const SNAPSHOT_SLOT_B: u64 = 34603008;
pub const MOCK_MAGIC: &'static str = "IC_LAYA_MOCK_NO_REAL_ASSETS_V1";

/// `ICSLOT01`.
pub open spec fn snapshot_magic() -> Seq<u8> {
    seq![73u8, 67, 83, 76, 79, 84, 48, 49]
}

/// The big-endian encoding of a 32-bit value.
pub open spec fn be32(x: u32) -> Seq<u8> {
    seq![(x >> 24u32) as u8, (x >> 16u32) as u8, (x >> 8u32) as u8, x as u8]
}

/// `MAGIC(8) | generation(4, big-endian) | active_slot(4, big-endian)`.
pub open spec fn spec_header(generation: u32, slot: u32) -> Seq<u8> {
    snapshot_magic() + be32(generation) + be32(slot)
}

/// The decoded header: the generation and slot, when the magic matches and
/// the slot is 0 or 1.
pub open spec fn spec_parse_header(raw: Seq<u8>) -> Option<(u32, u32)> {
    if raw.len() == 16 && raw.subrange(0, 8) == snapshot_magic() && exists|g: u32, s: u32|
        s <= 1 && raw == #[trigger] spec_header(g, s) {
        let (g, s) = choose|g: u32, s: u32| s <= 1 && raw == #[trigger] spec_header(g, s);
        Some((g, s))
    } else {
        None
    }
}

pub fn header(generation: u32, slot: u32) -> (h: [u8; 16])
    ensures
        h@ == spec_header(generation, slot),
{
    let h: [u8; 16] = [
        73,
        67,
        83,
        76,
        79,
        84,
        48,
        49,
        (generation >> 24u32) as u8,
        (generation >> 16u32) as u8,
        (generation >> 8u32) as u8,
        generation as u8,
        (slot >> 24u32) as u8,
        (slot >> 16u32) as u8,
        (slot >> 8u32) as u8,
        slot as u8,
    ];
    assert(h@ =~= spec_header(generation, slot));
    h
}

fn be32_decode(b0: u8, b1: u8, b2: u8, b3: u8) -> (x: u32)
    ensures
        be32(x) == seq![b0, b1, b2, b3],
{
    let x = ((b0 as u32) << 24u32) | ((b1 as u32) << 16u32) | ((b2 as u32) << 8u32) | (b3 as u32);
    assert((x >> 24u32) as u8 == b0 && (x >> 16u32) as u8 == b1 && (x >> 8u32) as u8 == b2 && x as u8
        == b3) by (bit_vector)
        requires
            x == ((b0 as u32) << 24u32) | ((b1 as u32) << 16u32) | ((b2 as u32) << 8u32) | (b3 as u32),
    ;
    assert(be32(x) =~= seq![b0, b1, b2, b3]);
    x
}

proof fn lemma_be32_injective(a: u32, b: u32)
    requires
        be32(a) == be32(b),
    ensures
        a == b,
{
    assert(be32(a)[0] == be32(b)[0] && be32(a)[1] == be32(b)[1] && be32(a)[2] == be32(b)[2]
        && be32(a)[3] == be32(b)[3]);
    assert(((a >> 24u32) as u8 == (b >> 24u32) as u8 && (a >> 16u32) as u8 == (b >> 16u32) as u8
        && (a >> 8u32) as u8 == (b >> 8u32) as u8 && a as u8 == b as u8) ==> a == b) by (bit_vector);
}

proof fn lemma_header_injective(g1: u32, s1: u32, g2: u32, s2: u32)
    requires
        spec_header(g1, s1) == spec_header(g2, s2),
    ensures
        g1 == g2 && s1 == s2,
{
    assert(spec_header(g1, s1).subrange(8, 12) =~= be32(g1));
    assert(spec_header(g2, s2).subrange(8, 12) =~= be32(g2));
    assert(spec_header(g1, s1).subrange(12, 16) =~= be32(s1));
    assert(spec_header(g2, s2).subrange(12, 16) =~= be32(s2));
    lemma_be32_injective(g1, g2);
    lemma_be32_injective(s1, s2);
}

pub fn parse_header(raw: &[u8; 16]) -> (r: Option<(u32, u32)>)
    ensures
        r == spec_parse_header(raw@),
{
    if raw[0] != 73 || raw[1] != 67 || raw[2] != 83 || raw[3] != 76 || raw[4] != 79 || raw[5] != 84
        || raw[6] != 48 || raw[7] != 49 {
        assert(raw@.subrange(0, 8) != snapshot_magic()) by {
            if raw@.subrange(0, 8) == snapshot_magic() {
                assert(raw@.subrange(0, 8)[0] == raw@[0]);
                assert(raw@.subrange(0, 8)[7] == raw@[7]);
                assert(raw@.subrange(0, 8)[1] == raw@[1] && raw@.subrange(0, 8)[2] == raw@[2]
                    && raw@.subrange(0, 8)[3] == raw@[3] && raw@.subrange(0, 8)[4] == raw@[4]
                    && raw@.subrange(0, 8)[5] == raw@[5] && raw@.subrange(0, 8)[6] == raw@[6]);
            }
        }
        return None;
    }
    let generation = be32_decode(raw[8], raw[9], raw[10], raw[11]);
    let slot = be32_decode(raw[12], raw[13], raw[14], raw[15]);
    assert(raw@.subrange(0, 8) =~= snapshot_magic());
    assert(raw@ =~= spec_header(generation, slot));
    if slot > 1 {
        assert forall|g: u32, s: u32| s <= 1 implies raw@ != #[trigger] spec_header(g, s) by {
            if raw@ == spec_header(g, s) {
                lemma_header_injective(g, s, generation, slot);
            }
        }
        return None;
    }
    proof {
        let (g, s) = choose|g: u32, s: u32| s <= 1 && raw@ == #[trigger] spec_header(g, s);
        lemma_header_injective(g, s, generation, slot);
    }
    Some((generation, slot))
}

/// A written header reads back as what was written, for both slots.
pub proof fn law_header_round_trip(generation: u32, slot: u32)
    requires
        slot <= 1,
    ensures
        spec_parse_header(spec_header(generation, slot)) == Some((generation, slot)),
{
    let raw = spec_header(generation, slot);
    assert(raw.subrange(0, 8) =~= snapshot_magic());
    assert(exists|g: u32, s: u32| s <= 1 && raw == #[trigger] spec_header(g, s));
    let (g, s) = choose|g: u32, s: u32| s <= 1 && raw == #[trigger] spec_header(g, s);
    lemma_header_injective(g, s, generation, slot);
}

pub fn slot_offset(slot: u32) -> (r: u64)
    ensures
        r == if slot == 0 { SNAPSHOT_SLOT_A } else { SNAPSHOT_SLOT_B },
{
    if slot == 0 {
        SNAPSHOT_SLOT_A
    } else {
        SNAPSHOT_SLOT_B
    }
}

pub open spec fn spec_slot_offset(slot: u32) -> int {
    if slot == 0 { SNAPSHOT_SLOT_A as int } else { SNAPSHOT_SLOT_B as int }
}

/// The room of one slot.
pub open spec fn slot_room() -> int {
    SNAPSHOT_SLOT_B - SNAPSHOT_SLOT_A
}

/// A block of `len` bytes fits a slot and stays below the upload area.
pub open spec fn block_fits(len: u64) -> bool {
    len <= slot_room() && SNAPSHOT_SLOT_B + len < BLOB_BASE
}

/// The header now committed, or the state of an empty memory (generation 0,
/// slot 1, so the first snapshot goes to slot 0).
pub open spec fn committed_or_default(committed: Option<(u32, u32)>) -> (u32, u32) {
    match committed {
        Some(c) => c,
        None => (0, 1),
    }
}

/// Where the next snapshot of `len` bytes goes: the slot the header does not
/// point at, the next generation (wrapping), and the slot's offset;
/// `Capacity` when the block does not fit.
pub fn plan_save(len: u64, committed: Option<(u32, u32)>) -> (r: Result<(u32, u32, u64), Error>)
    requires
        committed matches Some(c) ==> c.1 <= 1,
    ensures
        r is Err <==> !block_fits(len),
        r matches Err(e) ==> e == Error::Capacity,
        r matches Ok(p) ==> ({
            let (g, active) = committed_or_default(committed);
            &&& p.0 == 1 - active
            &&& p.1 == (if g == u32::MAX { 0 } else { g + 1 })
            &&& p.2 == spec_slot_offset(p.0)
        }),
{
    if len > SNAPSHOT_SLOT_B - SNAPSHOT_SLOT_A || SNAPSHOT_SLOT_B + len >= BLOB_BASE {
        return Err(Error::Capacity);
    }
    let (generation, active) = match committed {
        Some(c) => c,
        None => (0u32, 1u32),
    };
    let target = 1 - active;
    let next = generation.wrapping_add(1);
    Ok((target, next, slot_offset(target)))
}

/// A commit never writes over the snapshot it replaces: the block goes to the
/// other slot, whose bytes do not overlap the committed slot's and end below
/// the upload area, so a commit cut short leaves the last good copy readable.
pub proof fn law_commit_spares_the_committed_slot(len: u64, active: u32)
    requires
        active <= 1,
        block_fits(len),
    ensures
        ({
            let target = (1 - active) as u32;
            let at = spec_slot_offset(target);
            let kept = spec_slot_offset(active);
            &&& target != active
            &&& (at + len <= kept || kept + slot_room() <= at)
            &&& at + len < BLOB_BASE
        }),
{
}

/// The order in which a restore reads the slots: the committed one, then the
/// other; `Storage` when no header is committed.
pub fn restore_order(committed: Option<(u32, u32)>) -> (r: Result<(u32, u32), Error>)
    requires
        committed matches Some(c) ==> c.1 <= 1,
    ensures
        committed is None ==> r == Err::<(u32, u32), Error>(Error::Storage),
        committed matches Some(c) ==> r == Ok::<(u32, u32), Error>((c.1, (1 - c.1) as u32)),
{
    match committed {
        None => Err(Error::Storage),
        Some((_, active)) => Ok((active, 1 - active)),
    }
}

/// How many bytes to read at a slot, from the first 16 bytes there: the block
/// header and the payload its length field names. `Storage` for a foreign
/// magic, a length above the snapshot cap, or a block that would run past the
/// end of the memory (`pages` of 64 KiB).
pub fn block_length(head: &[u8; 16], at: u64, pages: u64) -> (r: Result<u64, Error>)
    requires
        at <= BLOB_BASE,
        pages <= 281474976710655,
    ensures
        head@.subrange(0, 8) != MAGIC@ ==> r == Err::<u64, Error>(Error::Storage),
        head@.subrange(0, 8) == MAGIC@ ==> forall|n: u64| be64(n) == #[trigger] head@.subrange(8, 16) ==> {
            if n > MAX_SNAPSHOT || at + BLOCK_HEADER + n > pages * 65536 {
                r == Err::<u64, Error>(Error::Storage)
            } else {
                r == Ok::<u64, Error>((BLOCK_HEADER + n) as u64)
            }
        },
{
    let mut k: usize = 0;
    while k < 8
        invariant
            k <= 8,
            forall|j: int| 0 <= j < k ==> head@[j] == MAGIC@[j],
        decreases 8 - k,
    {
        if head[k] != MAGIC[k] {
            assert(head@.subrange(0, 8)[k as int] != MAGIC@[k as int]);
            return Err(Error::Storage);
        }
        k = k + 1;
    }
    assert(head@.subrange(0, 8) =~= MAGIC@);
    let b0 = head[8];
    let b1 = head[9];
    let b2 = head[10];
    let b3 = head[11];
    let b4 = head[12];
    let b5 = head[13];
    let b6 = head[14];
    let b7 = head[15];
    let n: u64 = ((b0 as u64) << 56u64) | ((b1 as u64) << 48u64) | ((b2 as u64) << 40u64) | ((b3 as u64) << 32u64)
        | ((b4 as u64) << 24u64) | ((b5 as u64) << 16u64) | ((b6 as u64) << 8u64) | (b7 as u64);
    assert((n >> 56u64) as u8 == b0 && (n >> 48u64) as u8 == b1 && (n >> 40u64) as u8 == b2 && (n >> 32u64) as u8 == b3
        && (n >> 24u64) as u8 == b4 && (n >> 16u64) as u8 == b5 && (n >> 8u64) as u8 == b6 && n as u8 == b7) by (bit_vector)
        requires
            n == ((b0 as u64) << 56u64) | ((b1 as u64) << 48u64) | ((b2 as u64) << 40u64) | ((b3 as u64) << 32u64)
                | ((b4 as u64) << 24u64) | ((b5 as u64) << 16u64) | ((b6 as u64) << 8u64) | (b7 as u64),
    ;
    assert(be64(n) =~= head@.subrange(8, 16));
    proof {
        assert forall|m: u64| be64(m) == #[trigger] head@.subrange(8, 16) implies m == n by {
            lemma_be64_injective(m, n);
        }
    }
    if n > MAX_SNAPSHOT as u64 {
        return Err(Error::Storage);
    }
    let total = BLOCK_HEADER as u64 + n;
    if at + total > pages * 65536 {
        return Err(Error::Storage);
    }
    Ok(total)
}

pub(crate) proof fn lemma_be64_injective(a: u64, b: u64)
    requires
        be64(a) == be64(b),
    ensures
        a == b,
{
    assert(be64(a)[0] == be64(b)[0] && be64(a)[1] == be64(b)[1] && be64(a)[2] == be64(b)[2] && be64(a)[3] == be64(b)[3]);
    assert(be64(a)[4] == be64(b)[4] && be64(a)[5] == be64(b)[5] && be64(a)[6] == be64(b)[6] && be64(a)[7] == be64(b)[7]);
    assert(((a >> 56u64) as u8 == (b >> 56u64) as u8 && (a >> 48u64) as u8 == (b >> 48u64) as u8
        && (a >> 40u64) as u8 == (b >> 40u64) as u8 && (a >> 32u64) as u8 == (b >> 32u64) as u8
        && (a >> 24u64) as u8 == (b >> 24u64) as u8 && (a >> 16u64) as u8 == (b >> 16u64) as u8
        && (a >> 8u64) as u8 == (b >> 8u64) as u8 && a as u8 == b as u8) ==> a == b) by (bit_vector);
}

} // verus!
