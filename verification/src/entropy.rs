//! The key of the per-message random stream: SHA-256 over a domain tag and the
//! message's environment (the running canister, the caller, the time and a
//! counter), each field framed by its length so that every byte of every field
//! reaches the hash and no two environments share a preimage.
use vstd::prelude::*;
use vstd::string::StringSliceAdditionalSpecFns;
use crate::snapshot::lemma_be64_injective;
use crate::types::{be64, frame, hash, push_all, push_be64, sha256, Digest};

verus! {

/// The domain tag the preimage starts with.
pub open spec fn seed_domain() -> Seq<u8> {
    "ic-laya/getrandom-seed/v1".spec_bytes()
}

/// Everything the seed hashes, in order: the tag, then each field framed by its length.
pub open spec fn seed_preimage(canister: Seq<u8>, caller: Seq<u8>, time: u64, counter: u64) -> Seq<u8> {
    seed_domain() + frame(canister) + frame(caller) + frame(be64(time)) + frame(be64(counter))
}

/// Two framed fields followed by anything are equal only if the fields and the rests are.
proof fn lemma_frame_prefix(a: Seq<u8>, ra: Seq<u8>, b: Seq<u8>, rb: Seq<u8>)
    requires
        a.len() < 0x1_0000_0000_0000_0000,
        b.len() < 0x1_0000_0000_0000_0000,
        frame(a) + ra == frame(b) + rb,
    ensures
        a == b,
        ra == rb,
{
    let x = frame(a) + ra;
    let y = frame(b) + rb;
    assert(x.subrange(0, 8) =~= be64(a.len() as u64));
    assert(y.subrange(0, 8) =~= be64(b.len() as u64));
    lemma_be64_injective(a.len() as u64, b.len() as u64);
    assert(a.len() == b.len());
    let n = a.len() as int;
    assert(x.subrange(8, 8 + n) =~= a);
    assert(y.subrange(8, 8 + n) =~= b);
    assert(x.subrange(8 + n, x.len() as int) =~= ra);
    assert(y.subrange(8 + n, y.len() as int) =~= rb);
}

/// Length framing loses nothing: two framed fields, each followed by the rest
/// of a byte string, are equal only when the fields and the rests are, so two
/// different splits of the same bytes never frame alike.
pub proof fn law_framed_fields_are_recoverable(a: Seq<u8>, ra: Seq<u8>, b: Seq<u8>, rb: Seq<u8>)
    requires
        a.len() <= u64::MAX,
        b.len() <= u64::MAX,
        frame(a) + ra == frame(b) + rb,
    ensures
        a == b,
        ra == rb,
{
    lemma_frame_prefix(a, ra, b, rb);
}

/// Distinct environments give distinct preimages: the canister, the caller,
/// the time and the counter can each be read back from the bytes the seed hashes.
pub proof fn law_seed_preimage_is_injective(
    c1: Seq<u8>, k1: Seq<u8>, t1: u64, n1: u64,
    c2: Seq<u8>, k2: Seq<u8>, t2: u64, n2: u64,
)
    requires
        c1.len() <= u64::MAX,
        k1.len() <= u64::MAX,
        c2.len() <= u64::MAX,
        k2.len() <= u64::MAX,
        seed_preimage(c1, k1, t1, n1) == seed_preimage(c2, k2, t2, n2),
    ensures
        c1 == c2,
        k1 == k2,
        t1 == t2,
        n1 == n2,
{
    let d = seed_domain();
    let r1 = frame(c1) + frame(k1) + frame(be64(t1)) + frame(be64(n1));
    let r2 = frame(c2) + frame(k2) + frame(be64(t2)) + frame(be64(n2));
    assert(seed_preimage(c1, k1, t1, n1) =~= d + r1);
    assert(seed_preimage(c2, k2, t2, n2) =~= d + r2);
    assert((d + r1).subrange(d.len() as int, (d + r1).len() as int) =~= r1);
    assert((d + r2).subrange(d.len() as int, (d + r2).len() as int) =~= r2);
    let s1 = frame(k1) + frame(be64(t1)) + frame(be64(n1));
    let s2 = frame(k2) + frame(be64(t2)) + frame(be64(n2));
    assert(r1 =~= frame(c1) + s1);
    assert(r2 =~= frame(c2) + s2);
    lemma_frame_prefix(c1, s1, c2, s2);
    let u1 = frame(be64(t1)) + frame(be64(n1));
    let u2 = frame(be64(t2)) + frame(be64(n2));
    assert(s1 =~= frame(k1) + u1);
    assert(s2 =~= frame(k2) + u2);
    lemma_frame_prefix(k1, u1, k2, u2);
    lemma_frame_prefix(be64(t1), frame(be64(n1)), be64(t2), frame(be64(n2)));
    lemma_be64_injective(t1, t2);
    assert(frame(be64(n1)) =~= frame(be64(n1)) + Seq::<u8>::empty());
    assert(frame(be64(n2)) =~= frame(be64(n2)) + Seq::<u8>::empty());
    lemma_frame_prefix(be64(n1), Seq::<u8>::empty(), be64(n2), Seq::<u8>::empty());
    lemma_be64_injective(n1, n2);
}

/// The bytes the seed hashes.
pub fn seed_bytes(canister: &[u8], caller: &[u8], time: u64, counter: u64) -> (b: Vec<u8>)
    ensures
        b@ == seed_preimage(canister@, caller@, time, counter),
{
    let mut out: Vec<u8> = Vec::new();
    push_all(&mut out, "ic-laya/getrandom-seed/v1".as_bytes());
    push_be64(&mut out, canister.len() as u64);
    push_all(&mut out, canister);
    push_be64(&mut out, caller.len() as u64);
    push_all(&mut out, caller);
    push_be64(&mut out, 8);
    push_be64(&mut out, time);
    push_be64(&mut out, 8);
    push_be64(&mut out, counter);
    assert(out@ =~= seed_preimage(canister@, caller@, time, counter));
    out
}

/// The key of the random stream for one message environment.
pub fn seed(canister: &[u8], caller: &[u8], time: u64, counter: u64) -> (d: Digest)
    ensures
        d@ == sha256(seed_preimage(canister@, caller@, time, counter)),
{
    let b = seed_bytes(canister, caller, time, counter);
    hash(b.as_slice())
}

} // verus!
