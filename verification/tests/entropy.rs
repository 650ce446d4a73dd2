use ic_laya_core::entropy::{seed, seed_bytes};
use ic_laya_core::types::hash;

#[test]
fn seed_bytes_frame_every_field() {
    let b = seed_bytes(&[1, 2, 3], &[9], 0x0102_0304_0506_0708, 5);
    let mut want = b"ic-laya/getrandom-seed/v1".to_vec();
    want.extend_from_slice(&3u64.to_be_bytes());
    want.extend_from_slice(&[1, 2, 3]);
    want.extend_from_slice(&1u64.to_be_bytes());
    want.extend_from_slice(&[9]);
    want.extend_from_slice(&8u64.to_be_bytes());
    want.extend_from_slice(&0x0102_0304_0506_0708u64.to_be_bytes());
    want.extend_from_slice(&8u64.to_be_bytes());
    want.extend_from_slice(&5u64.to_be_bytes());
    assert_eq!(b, want);
}

#[test]
fn seed_is_the_hash_of_the_framed_environment() {
    let b = seed_bytes(b"canister", b"caller", 7, 1);
    assert_eq!(seed(b"canister", b"caller", 7, 1), hash(&b));
}

#[test]
fn seed_separates_moved_bytes() {
    // Moving a byte from one field to the next changes the preimage and the key.
    let a = seed(&[1, 2], &[3], 0, 0);
    let b = seed(&[1], &[2, 3], 0, 0);
    assert_ne!(a, b);
    assert_ne!(seed(&[], &[], 0, 1), seed(&[], &[], 0, 2));
    assert_ne!(seed(&[], &[], 1, 0), seed(&[], &[], 0, 1));
}

#[test]
fn canonical_hasher_chains_framed_fields() {
    use_canonical();
}

fn use_canonical() {
    let mut h = ic_laya_core::types::Canonical::new("dom");
    h.bytes(b"ab").bytes(b"c").u64(7);
    let mut want = Vec::new();
    for part in [&b"dom"[..], &b"ab"[..], &b"c"[..]] {
        want.extend_from_slice(&(part.len() as u64).to_be_bytes());
        want.extend_from_slice(part);
    }
    want.extend_from_slice(&7u64.to_be_bytes());
    assert_eq!(h.finish(), hash(&want));
    let mut split = ic_laya_core::types::Canonical::new("dom");
    split.bytes(b"a").bytes(b"bc").u64(7);
    assert_ne!(split.finish(), hash(&want));
}
