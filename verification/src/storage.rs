//! Versioned, checksummed snapshot blocks: `MAGIC(8) | len(8 BE) | sha256(32) | payload`.
//! The payload's encoding belongs to the adapter; this module frames and checks it.
use vstd::prelude::*;
use crate::types::{be64, hash, sha256, Error};

verus! {

/// The block magic, `ICLAYA01`.
pub const MAGIC: [u8; 8] = [73, 67, 76, 65, 89, 65, 48, 49];

/// The largest payload a block may carry.
pub const MAX_SNAPSHOT: usize = 16777216;

/// The bytes in front of the payload.
pub const BLOCK_HEADER: usize = 48;

/// The block that carries `payload`.
pub open spec fn spec_block(payload: Seq<u8>) -> Seq<u8> {
    MAGIC@ + be64(payload.len() as u64) + sha256(payload) + payload
}

/// Whether `bytes` is a well-formed block: the magic, a length no larger than
/// the cap that matches the bytes that follow, and the payload's checksum.
pub open spec fn block_ok(bytes: Seq<u8>) -> bool {
    &&& bytes.len() >= BLOCK_HEADER
    &&& bytes.subrange(0, 8) == MAGIC@
    &&& bytes.len() - BLOCK_HEADER <= MAX_SNAPSHOT
    &&& bytes.subrange(8, 16) == be64((bytes.len() - BLOCK_HEADER) as u64)
    &&& bytes.subrange(16, 48) == sha256(bytes.subrange(48, bytes.len() as int))
}

fn append(out: &mut Vec<u8>, x: &[u8])
    ensures
        final(out)@ == old(out)@ + x@,
{
    let mut i: usize = 0;
    while i < x.len()
        invariant
            i <= x@.len(),
            out@ == old(out)@ + x@.subrange(0, i as int),
        decreases x@.len() - i,
    {
        out.push(x[i]);
        assert(x@.subrange(0, i + 1) =~= x@.subrange(0, i as int).push(x@[i as int]));
        i = i + 1;
    }
    assert(x@.subrange(0, x@.len() as int) =~= x@);
}

fn be64_bytes(x: u64) -> (b: [u8; 8])
    ensures
        b@ == be64(x),
{
    let b: [u8; 8] = [
        (x >> 56u64) as u8,
        (x >> 48u64) as u8,
        (x >> 40u64) as u8,
        (x >> 32u64) as u8,
        (x >> 24u64) as u8,
        (x >> 16u64) as u8,
        (x >> 8u64) as u8,
        x as u8,
    ];
    assert(b@ =~= be64(x));
    b
}

/// Frames a payload into a block; `Capacity` beyond `MAX_SNAPSHOT` bytes.
pub fn seal(payload: &[u8]) -> (r: Result<Vec<u8>, Error>)
    ensures
        r is Ok <==> payload@.len() <= MAX_SNAPSHOT,
        r matches Ok(b) ==> b@ == spec_block(payload@),
        r matches Ok(b) ==> block_ok(b@) && b@.subrange(48, b@.len() as int) == payload@,
        r matches Err(e) ==> e == Error::Capacity,
{
    if payload.len() > MAX_SNAPSHOT {
        return Err(Error::Capacity);
    }
    let mut out: Vec<u8> = Vec::new();
    append(&mut out, &MAGIC);
    let len = be64_bytes(payload.len() as u64);
    append(&mut out, &len);
    let sum = hash(payload);
    append(&mut out, &sum);
    append(&mut out, payload);
    assert(out@.subrange(0, 8) =~= MAGIC@);
    assert(out@.subrange(8, 16) =~= be64(payload@.len() as u64));
    assert(out@.subrange(16, 48) =~= sum@);
    assert(out@.subrange(48, out@.len() as int) =~= payload@);
    Ok(out)
}

/// The payload of a well-formed block; `Storage` for anything else.
pub fn unseal(bytes: &[u8]) -> (r: Result<Vec<u8>, Error>)
    ensures
        r is Ok <==> block_ok(bytes@),
        r matches Ok(p) ==> p@ == bytes@.subrange(48, bytes@.len() as int),
        r matches Err(e) ==> e == Error::Storage,
{
    if bytes.len() < BLOCK_HEADER {
        return Err(Error::Storage);
    }
    let mut i: usize = 0;
    while i < 8
        invariant
            i <= 8,
            bytes@.len() >= BLOCK_HEADER,
            forall|j: int| 0 <= j < i ==> bytes@[j] == MAGIC@[j],
        decreases 8 - i,
    {
        if bytes[i] != MAGIC[i] {
            assert(bytes@.subrange(0, 8)[i as int] != MAGIC@[i as int]);
            return Err(Error::Storage);
        }
        i = i + 1;
    }
    assert(bytes@.subrange(0, 8) =~= MAGIC@);
    let n: usize = bytes.len() - BLOCK_HEADER;
    if n > MAX_SNAPSHOT {
        assert(bytes@.len() - BLOCK_HEADER > MAX_SNAPSHOT);
        return Err(Error::Storage);
    }
    let len = be64_bytes(n as u64);
    let mut k: usize = 0;
    while k < 8
        invariant
            k <= 8,
            bytes@.len() >= BLOCK_HEADER,
            len@ == be64(n as u64),
            n == bytes@.len() - BLOCK_HEADER,
            forall|j: int| 0 <= j < k ==> bytes@[8 + j] == len@[j],
        decreases 8 - k,
    {
        if bytes[8 + k] != len[k] {
            assert(bytes@.subrange(8, 16)[k as int] != len@[k as int]);
            return Err(Error::Storage);
        }
        k = k + 1;
    }
    assert(bytes@.subrange(8, 16) =~= len@);
    let mut payload: Vec<u8> = Vec::new();
    let mut p: usize = BLOCK_HEADER;
    while p < bytes.len()
        invariant
            BLOCK_HEADER <= p <= bytes@.len(),
            bytes@.subrange(0, 8) == MAGIC@,
            bytes@.len() - BLOCK_HEADER <= MAX_SNAPSHOT,
            bytes@.subrange(8, 16) == be64((bytes@.len() - BLOCK_HEADER) as u64),
            payload@ == bytes@.subrange(48, p as int),
        decreases bytes@.len() - p,
    {
        payload.push(bytes[p]);
        assert(bytes@.subrange(48, p + 1) =~= bytes@.subrange(48, p as int).push(bytes@[p as int]));
        p = p + 1;
    }
    let sum = hash(payload.as_slice());
    let mut m: usize = 0;
    while m < 32
        invariant
            m <= 32,
            bytes@.len() >= BLOCK_HEADER,
            sum@ == sha256(bytes@.subrange(48, bytes@.len() as int)),
            payload@ == bytes@.subrange(48, bytes@.len() as int),
            bytes@.subrange(0, 8) == MAGIC@,
            bytes@.len() - BLOCK_HEADER <= MAX_SNAPSHOT,
            bytes@.subrange(8, 16) == be64((bytes@.len() - BLOCK_HEADER) as u64),
            forall|j: int| 0 <= j < m ==> bytes@[16 + j] == sum@[j],
        decreases 32 - m,
    {
        if bytes[16 + m] != sum[m] {
            assert(bytes@.subrange(16, 48)[m as int] != sum@[m as int]);
            return Err(Error::Storage);
        }
        m = m + 1;
    }
    assert(bytes@.subrange(16, 48) =~= sum@);
    Ok(payload)
}

} // verus!
