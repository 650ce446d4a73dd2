use ic_laya_core::demo::{actor, fixture_bundle, setup};
use ic_laya_core::types::{hash, Error, SpecialTokens};
use ic_laya_core::upload::{begin_upload, check_tokenizer, chunk_step, warmup_ready, ChunkStep, MAX_CHUNK_BYTES};

fn special(cls: u32) -> SpecialTokens {
    SpecialTokens { cls, sep: 2, mask: 3, pad: 0, literals: vec!["[CLS]".into()] }
}

#[test]
fn begin_upload_binds_the_tokenizer() {
    let manifest = b"{\"format\":\"x\"}".to_vec();
    assert_eq!(begin_upload(manifest.clone(), 100, 1, 20, special(7)).err(), Some(Error::BindingMismatch));
    assert_eq!(begin_upload(manifest.clone(), 100, 1, 0, special(1)).err(), Some(Error::TooLong));
    assert_eq!(begin_upload(manifest.clone(), 100, 1, (32 << 20) + 1, special(1)).err(), Some(Error::TooLong));
    let (u, bundle) = begin_upload(manifest.clone(), 100, 1, 20, special(1)).unwrap();
    assert_eq!(bundle, hash(&manifest));
    assert_eq!((u.received, u.model_length, u.tokenizer_length), (0, 100, 20));
    assert_eq!(u.manifest, manifest);
}

#[test]
fn chunks_arrive_in_order_and_replay_idempotently() {
    assert_eq!(chunk_step(&None, 0, 0), Err(Error::TooLong));
    assert_eq!(chunk_step(&None, 0, 10), Err(Error::Transition));
    let (u, _) = begin_upload(vec![1, 2, 3], 100, 1, 20, special(1)).unwrap();
    let mut up = Some(u);
    assert_eq!(chunk_step(&up, 0, MAX_CHUNK_BYTES + 1), Err(Error::TooLong));
    assert_eq!(chunk_step(&up, 5, 10), Err(Error::NonceGap));
    assert_eq!(chunk_step(&up, 0, 10), Ok(ChunkStep::Append { end: 10 }));
    up.as_mut().unwrap().commit(10);
    assert_eq!(chunk_step(&up, 0, 10), Ok(ChunkStep::Replay));
    assert_eq!(chunk_step(&up, 2, 5), Ok(ChunkStep::Replay));
    assert_eq!(up.as_ref().unwrap().replay(true), Ok(10));
    assert_eq!(up.as_ref().unwrap().replay(false), Err(Error::IdConflict));
    assert_eq!(chunk_step(&up, 5, 10), Err(Error::IdConflict));
    assert_eq!(chunk_step(&up, 11, 5), Err(Error::NonceGap));
    assert_eq!(chunk_step(&up, 10, 111), Err(Error::TooLong));
    assert_eq!(chunk_step(&up, u64::MAX - 3, 10), Err(Error::TooLong));
    assert_eq!(warmup_ready(&up), Err(Error::Transition));
    assert_eq!(chunk_step(&up, 10, 110), Ok(ChunkStep::Append { end: 120 }));
    up.as_mut().unwrap().commit(120);
    assert!(up.as_ref().unwrap().complete());
    assert_eq!(warmup_ready(&up), Ok(()));
    assert_eq!(warmup_ready(&None), Err(Error::Transition));
}

#[test]
fn tokenizer_must_match_the_manifest() {
    let bytes = b"tokenizer json".to_vec();
    assert_eq!(check_tokenizer(&bytes, &hash(&bytes)), Ok(()));
    assert_eq!(check_tokenizer(&bytes, &hash(b"other")), Err(Error::BindingMismatch));
}

#[test]
fn rewarming_the_same_pack_keeps_contracts_and_idempotency() {
    let (_, mut engine, _, _) = setup().unwrap();
    let schemas = engine.schemas.clone();
    let calibrations = engine.calibrations.clone();
    let callers = engine.callers.len();
    engine.activate_bundle(fixture_bundle());
    assert_eq!(engine.schemas, schemas);
    assert_eq!(engine.calibrations, calibrations);
    assert_eq!(engine.callers.len(), callers);
    let other = hash(b"another pack");
    engine.activate_bundle(other);
    assert_eq!(engine.active_model, other);
    assert!(engine.schemas.is_empty() && engine.calibrations.is_empty() && engine.cache.is_empty());
    assert_eq!(engine.callers.len(), callers);
    assert!(engine.allow_caller(&actor(9), 5).is_ok());
}
