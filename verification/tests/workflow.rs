use ic_laya_core::demo::{actor, fixture_bundle, setup, FixtureTokenizer, NOW};
use ic_laya_core::engine::{Admission, EngineState, Inference};
use ic_laya_core::math::Distribution;
use ic_laya_core::schema::render;
use ic_laya_core::icrc::{to_icrc, Lookup};
use ic_laya_core::mock_ledger::MockLedger;
use ic_laya_core::reconcile::{is_mock_marker, ledger_outcome, reconcile_outcome, LedgerReply, Reconcile};
use ic_laya_core::sdk::{DecisionSchema, Score};
use ic_laya_core::storage::{seal, unseal};
use ic_laya_core::types::{hash, BackendKind, DecisionRequest, Digest, Error, Primitive, Principal, Receipt, PPM};
use ic_laya_core::workflow::{
    DispatchCommand, ExecutorState, Grant, LedgerOutcome, Mode, Operation, OperationStatus, Plan, RequestRecord, Status,
    Usage, MOCK_DEDUP_WINDOW_NS,
};

// The synthetic backend's logits, and the float conversion the canister runs
// outside the verified core.
fn apportion(p: &[f64]) -> Result<Distribution, Error> {
    if !(2..=7).contains(&p.len()) || p.iter().any(|x| !x.is_finite() || *x < 0.0 || *x > 1.0) {
        return Err(Error::Numeric);
    }
    let sum: f64 = p.iter().sum();
    if (sum - 1.0).abs() > 1e-8 {
        return Err(Error::Numeric);
    }
    let scaled: Vec<f64> = p.iter().map(|x| x * PPM as f64).collect();
    let mut mass: Vec<u32> = scaled.iter().map(|x| x.floor() as u32).collect();
    let used: u64 = mass.iter().map(|&x| x as u64).sum();
    if used > PPM as u64 {
        return Err(Error::Numeric);
    }
    let left = PPM as usize - used as usize;
    if left > mass.len() {
        return Err(Error::Numeric);
    }
    let mut order: Vec<usize> = (0..mass.len()).collect();
    order.sort_by(|&a, &b| (scaled[b] - mass[b] as f64).total_cmp(&(scaled[a] - mass[a] as f64)).then(a.cmp(&b)));
    for i in order.into_iter().take(left) {
        mass[i] += 1;
    }
    Distribution::new(mass)
}

fn from_logits(logits: &[f32], temperature: f64) -> Result<Distribution, Error> {
    if !(2..=7).contains(&logits.len()) || logits.iter().any(|x| !x.is_finite()) || !temperature.is_finite()
        || !(1e-6..=1e6).contains(&temperature) {
        return Err(Error::Numeric);
    }
    let max = logits.iter().copied().fold(f32::NEG_INFINITY, f32::max) as f64;
    let p: Vec<f64> = logits.iter().map(|&x| ((x as f64 - max) / temperature).exp()).collect();
    let total: f64 = p.iter().sum();
    if !total.is_finite() || total <= 0.0 {
        return Err(Error::Numeric);
    }
    apportion(&p.iter().map(|x| x / total).collect::<Vec<_>>())
}

#[derive(Default)]
struct FixtureBackend {
    calls: u64,
}

fn fixture_logits(qtype: u32, markers: usize) -> Result<Vec<f32>, Error> {
    match (qtype, markers) {
        (0, 3) => Ok(vec![4.0, -2.0, -3.0]),
        (1, 2) => Ok(vec![-4.0, 4.0]),
        (2, 5) => Ok(vec![5.0, 1.0, 0.0, -2.0, -4.0]),
        _ => Err(Error::Invalid("fixture supports only demonstration schemas".into())),
    }
}

fn evaluate(n: &mut EngineState, caller: &Principal, req: DecisionRequest, now: u64, b: &mut FixtureBackend) -> Result<Receipt, Error> {
    if fixture_bundle() != req.model {
        return Err(Error::BindingMismatch);
    }
    match n.admission(caller, &req, now)? {
        Admission::Cached(r) => r,
        Admission::Run { schema_index, temperature_bits } => {
            let s = &n.schemas[schema_index];
            let inferred = (|| {
                let input = render(s, &FixtureTokenizer, &req.state)?;
                b.calls += 1;
                let logits = fixture_logits(input.qtype_id, input.markers.len())?;
                let d = from_logits(&logits, f64::from_bits(temperature_bits))?;
                Ok(Inference {
                    distribution: d,
                    input_tokens: input.input_ids.len() as u32,
                    backend: BackendKind::SyntheticFixture,
                    measured_instructions: 0,
                })
            })();
            n.complete(caller, &req, now, inferred)
        },
    }
}

fn complete(ex: &mut ExecutorState, en: &mut EngineState, id: Digest) -> Result<(), Error> {
    let caller = actor(2);
    let mut backend = FixtureBackend::default();
    for _ in 0..3 {
        let req = ex.begin_evaluation(&caller, id, NOW + 1)?;
        let inst = ex.instance.clone();
        let result = evaluate(en, &inst, req.clone(), NOW + 2, &mut backend);
        ex.finish_evaluation(id, req.evaluation_id, result, NOW + 3)?;
    }
    Ok(())
}

fn ready() -> (ExecutorState, EngineState, Digest, Digest, Digest) {
    let (mut e, mut n, o, g) = setup().unwrap();
    let id = e.submit(&actor(2), 0, o, g, NOW).unwrap();
    complete(&mut e, &mut n, id).unwrap();
    (e, n, o, g, id)
}

fn dispatched() -> (ExecutorState, Digest, Digest, DispatchCommand) {
    let (mut e, _, _, g, id) = ready();
    e.set_mode(&actor(1), Mode::Mock).unwrap();
    let cap = e.authorize(&actor(2), id, NOW + 4).unwrap();
    let cmd = e.prepare_dispatch(cap, NOW + 4).unwrap();
    (e, g, id, cmd)
}

fn grant<'a>(e: &'a ExecutorState, g: Digest) -> &'a Grant {
    e.grants.iter().find(|x| x.id == g).unwrap()
}

fn operation<'a>(e: &'a ExecutorState, o: Digest) -> &'a Operation {
    e.operations.iter().find(|x| x.id == o).unwrap()
}

fn request<'a>(e: &'a ExecutorState, id: Digest) -> &'a RequestRecord {
    e.requests.iter().find(|x| x.id == id).unwrap()
}

fn next_nonce(e: &ExecutorState, p: &Principal) -> u64 {
    e.next_nonce.iter().find(|x| x.caller == *p).unwrap().next
}

#[test]
fn engine_deduplicates() {
    let (mut e, mut n, o, g) = setup().unwrap();
    let id = e.submit(&actor(2), 0, o, g, NOW).unwrap();
    let req = e.begin_evaluation(&actor(2), id, NOW).unwrap();
    let mut b = FixtureBackend::default();
    let a = evaluate(&mut n, &e.instance, req.clone(), NOW, &mut b).unwrap();
    let c = evaluate(&mut n, &e.instance, req.clone(), NOW, &mut b).unwrap();
    assert_eq!(a, c);
    assert_eq!(b.calls, 1);
    let mut bad = req;
    bad.state.push('!');
    assert_eq!(evaluate(&mut n, &e.instance, bad, NOW, &mut b), Err(Error::IdConflict));
}

#[test]
fn engine_namespace_not_public() {
    let (mut e, mut n, o, g) = setup().unwrap();
    let id = e.submit(&actor(2), 0, o, g, NOW).unwrap();
    let req = e.begin_evaluation(&actor(2), id, NOW).unwrap();
    assert_eq!(evaluate(&mut n, &actor(99), req, NOW, &mut FixtureBackend::default()), Err(Error::Unauthorized));
}

#[test]
fn ttl_enforced() {
    let (mut e, mut n, o, g) = setup().unwrap();
    let id = e.submit(&actor(2), 0, o, g, NOW).unwrap();
    let mut req = e.begin_evaluation(&actor(2), id, NOW).unwrap();
    req.expires_at_ns = NOW;
    assert_eq!(evaluate(&mut n, &e.instance, req, NOW, &mut FixtureBackend::default()), Err(Error::Expired));
}

#[test]
fn nonce_replay_returns_same() {
    let (mut e, _, o, g) = setup().unwrap();
    let a = e.submit(&actor(2), 0, o, g, NOW).unwrap();
    let b = e.submit(&actor(2), 0, o, g, NOW).unwrap();
    assert_eq!(a, b);
    assert_eq!(next_nonce(&e, &actor(2)), 1);
}

#[test]
fn nonce_payload_conflict() {
    let (mut e, _, o, g) = setup().unwrap();
    e.submit(&actor(2), 0, o, g, NOW).unwrap();
    assert_eq!(e.submit(&actor(2), 0, hash(b"other"), g, NOW), Err(Error::IdConflict));
}

#[test]
fn nonce_cannot_skip() {
    let (mut e, _, o, g) = setup().unwrap();
    assert_eq!(e.submit(&actor(2), 1, o, g, NOW), Err(Error::NonceGap));
}

#[test]
fn caller_must_own_grant() {
    let (mut e, _, o, g) = setup().unwrap();
    assert_eq!(e.submit(&actor(7), 0, o, g, NOW), Err(Error::Unauthorized));
}

#[test]
fn partial_signals_cannot_authorize() {
    let (mut e, _, o, g) = setup().unwrap();
    let id = e.submit(&actor(2), 0, o, g, NOW).unwrap();
    assert!(e.authorize(&actor(2), id, NOW).is_err());
}

#[test]
fn parallel_advance_busy() {
    let (mut e, _, o, g) = setup().unwrap();
    let id = e.submit(&actor(2), 0, o, g, NOW).unwrap();
    e.begin_evaluation(&actor(2), id, NOW).unwrap();
    assert_eq!(e.begin_evaluation(&actor(2), id, NOW), Err(Error::Busy));
}

#[test]
fn engine_transport_retry_same_id() {
    let (mut e, _, o, g) = setup().unwrap();
    let id = e.submit(&actor(2), 0, o, g, NOW).unwrap();
    let a = e.begin_evaluation(&actor(2), id, NOW).unwrap();
    e.engine_transport_failed(id, a.evaluation_id).unwrap();
    let b = e.begin_evaluation(&actor(2), id, NOW + 1).unwrap();
    assert_eq!(a, b);
    e.engine_transport_failed(id, b.evaluation_id).unwrap();
    assert!(matches!(e.get(&actor(2), id).unwrap().status, Status::NeedsReview(_)));
}

#[test]
fn revoke_during_inference() {
    let (mut e, mut n, o, g) = setup().unwrap();
    let id = e.submit(&actor(2), 0, o, g, NOW).unwrap();
    let req = e.begin_evaluation(&actor(2), id, NOW).unwrap();
    let r = evaluate(&mut n, &e.instance, req.clone(), NOW, &mut FixtureBackend::default());
    e.revoke(&actor(1), g).unwrap();
    assert_eq!(e.finish_evaluation(id, req.evaluation_id, r, NOW), Err(Error::Unauthorized));
    assert_eq!(e.get(&actor(2), id).unwrap().status, Status::Stale);
}

#[test]
fn changed_evidence_stale() {
    let (mut e, mut n, o, g) = setup().unwrap();
    let id = e.submit(&actor(2), 0, o, g, NOW).unwrap();
    let req = e.begin_evaluation(&actor(2), id, NOW).unwrap();
    let r = evaluate(&mut n, &e.instance, req.clone(), NOW, &mut FixtureBackend::default());
    e.revise_operation(&actor(1), o, "new evidence".into()).unwrap();
    assert_eq!(e.finish_evaluation(id, req.evaluation_id, r, NOW), Err(Error::Stale));
}

#[test]
fn forged_snapshot_never_passes() {
    let (mut e, mut n, o, g) = setup().unwrap();
    let id = e.submit(&actor(2), 0, o, g, NOW).unwrap();
    let req = e.begin_evaluation(&actor(2), id, NOW).unwrap();
    let mut r = evaluate(&mut n, &e.instance, req.clone(), NOW, &mut FixtureBackend::default()).unwrap();
    r.stamp.binding.as_mut().unwrap().snapshot = hash(b"wrong");
    assert!(matches!(e.finish_evaluation(id, req.evaluation_id, Ok(r), NOW).unwrap(), Status::NeedsReview(_)));
}

#[test]
fn all_primitives_reach_ready() {
    let (e, _, _, _, id) = ready();
    assert_eq!(e.get(&actor(2), id).unwrap().status, Status::ReadyToDispatch);
    assert_eq!(e.get(&actor(2), id).unwrap().receipts.len(), 3);
}

#[test]
fn report_only_does_not_reserve() {
    let (mut e, _, _, g, id) = ready();
    let cap = e.authorize(&actor(2), id, NOW).unwrap();
    assert_eq!(e.prepare_dispatch(cap, NOW), Err(Error::ReportOnly));
    assert_eq!(grant(&e, g).total, Usage::default());
    assert_eq!(request(&e, id).status, Status::Reported);
}

#[test]
fn live_mode_is_closed() {
    let (mut e, _, _, _) = setup().unwrap();
    assert_eq!(e.set_mode(&actor(1), Mode::LimitedLive), Err(Error::LiveDisabled));
}

#[test]
fn unauthorized_mode_change() {
    let (mut e, _, _, _) = setup().unwrap();
    assert_eq!(e.set_mode(&actor(99), Mode::Mock), Err(Error::Unauthorized));
}

#[test]
fn mock_requires_registered_ledger() {
    let (mut e, _, _, _, id) = ready();
    e.set_mode(&actor(1), Mode::Mock).unwrap();
    e.mock_ledgers.clear();
    let cap = e.authorize(&actor(2), id, NOW).unwrap();
    assert!(e.prepare_dispatch(cap, NOW).is_err());
}

#[test]
fn budget_reserved_before_send() {
    let (e, g, id, _) = dispatched();
    assert_eq!(grant(&e, g).total.reserved, 110);
    assert_eq!(e.get(&actor(2), id).unwrap().status, Status::Submitted);
    e.check_invariants().unwrap();
}

#[test]
fn unknown_keeps_reservation() {
    let (mut e, g, _, cmd) = dispatched();
    e.finish_ledger(&cmd, LedgerOutcome::Unknown("timeout".into())).unwrap();
    assert_eq!(grant(&e, g).total.reserved, 110);
    e.check_invariants().unwrap();
}

#[test]
fn unknown_then_badfee_is_still_unknown() {
    let (mut e, g, id, cmd) = dispatched();
    e.finish_ledger(&cmd, LedgerOutcome::Unknown("timeout".into())).unwrap();
    let retry = e.retry_unknown(&actor(2), id, NOW + 5).unwrap();
    e.finish_ledger(&retry, LedgerOutcome::DefinitiveError("TooOld".into())).unwrap();
    assert!(matches!(e.get(&actor(2), id).unwrap().status, Status::OutcomeUnknown(_)));
    assert_eq!(grant(&e, g).total.reserved, 110);
}

#[test]
fn duplicate_success_accounts_once() {
    let (mut e, g, id, cmd) = dispatched();
    e.finish_ledger(&cmd, LedgerOutcome::Unknown("timeout".into())).unwrap();
    let retry = e.retry_unknown(&actor(2), id, NOW + 5).unwrap();
    assert_eq!(retry.transfer, cmd.transfer);
    e.finish_ledger(&retry, LedgerOutcome::Duplicate("8".into())).unwrap();
    e.finish_ledger(&cmd, LedgerOutcome::Success("8".into())).unwrap();
    assert_eq!(grant(&e, g).total, Usage { spent: 110, reserved: 0 });
    e.check_invariants().unwrap();
}

#[test]
fn late_error_does_not_revert_success() {
    let (mut e, g, _, cmd) = dispatched();
    e.finish_ledger(&cmd, LedgerOutcome::Success("1".into())).unwrap();
    e.finish_ledger(&cmd, LedgerOutcome::Unknown("late".into())).unwrap();
    assert_eq!(grant(&e, g).total.spent, 110);
}

#[test]
fn definitive_first_error_releases() {
    let (mut e, g, _, cmd) = dispatched();
    e.finish_ledger(&cmd, LedgerOutcome::DefinitiveError("BadFee".into())).unwrap();
    assert_eq!(grant(&e, g).total, Usage::default());
    e.check_invariants().unwrap();
}

#[test]
fn unknown_cannot_cancel() {
    let (mut e, _, id, cmd) = dispatched();
    e.finish_ledger(&cmd, LedgerOutcome::Unknown("timeout".into())).unwrap();
    assert_eq!(e.cancel(&actor(2), id), Err(Error::OutcomeUnknown));
}

#[test]
fn business_duplicate_blocked() {
    let (mut e, _, id, cmd) = dispatched();
    let (op, gr) = {
        let r = e.get(&actor(2), id).unwrap();
        (r.operation, r.grant)
    };
    assert_eq!(e.submit(&actor(2), 1, op, gr, NOW), Err(Error::OperationUsed));
    e.finish_ledger(&cmd, LedgerOutcome::Success("1".into())).unwrap();
    assert_eq!(e.submit(&actor(2), 1, op, gr, NOW), Err(Error::OperationUsed));
}

#[test]
fn revoke_stops_retry_not_reconciliation() {
    let (mut e, g, id, cmd) = dispatched();
    e.finish_ledger(&cmd, LedgerOutcome::Unknown("timeout".into())).unwrap();
    e.revoke(&actor(1), g).unwrap();
    assert!(e.retry_unknown(&actor(2), id, NOW + 5).is_err());
    e.finish_ledger(&cmd, LedgerOutcome::Success("1".into())).unwrap();
    e.check_invariants().unwrap();
}

#[test]
fn dedup_expiry_blocks_blind_retry() {
    let (mut e, g, id, cmd) = dispatched();
    e.finish_ledger(&cmd, LedgerOutcome::Unknown("timeout".into())).unwrap();
    assert_eq!(e.retry_unknown(&actor(2), id, NOW + MOCK_DEDUP_WINDOW_NS + 5), Err(Error::Expired));
    assert_eq!(grant(&e, g).total.reserved, 110);
}

#[test]
fn upgrade_retains_unknown_budget() {
    let (mut e, g, id, _) = dispatched();
    let n = e.next_nonce.clone();
    e.recover_after_upgrade();
    assert!(e.paused);
    assert_eq!(e.next_nonce, n);
    assert_eq!(grant(&e, g).total.reserved, 110);
    assert!(matches!(e.get(&actor(2), id).unwrap().status, Status::OutcomeUnknown(_)));
    e.check_invariants().unwrap();
}

#[test]
fn late_reply_after_cancel_ignored() {
    let (mut e, mut n, o, g) = setup().unwrap();
    let id = e.submit(&actor(2), 0, o, g, NOW).unwrap();
    let req = e.begin_evaluation(&actor(2), id, NOW).unwrap();
    let r = evaluate(&mut n, &e.instance, req.clone(), NOW, &mut FixtureBackend::default());
    e.cancel(&actor(2), id).unwrap();
    assert_eq!(e.finish_evaluation(id, req.evaluation_id, r, NOW), Err(Error::Transition));
}

#[test]
fn many_ledger_event_sequences_preserve_invariants() {
    for first in 0..3 {
        for second in 0..3 {
            let (mut e, _, id, cmd) = dispatched();
            let event = |i| match i {
                0 => LedgerOutcome::Success("0".into()),
                1 => LedgerOutcome::Unknown("timeout".into()),
                _ => LedgerOutcome::DefinitiveError("BadFee".into()),
            };
            let _ = e.finish_ledger(&cmd, event(first));
            e.check_invariants().unwrap();
            let _ = e.finish_ledger(&cmd, event(second));
            e.check_invariants().unwrap();
            if let Status::Succeeded(_) = e.get(&actor(2), id).unwrap().status {
                assert!(request(&e, id).reservation.is_none());
            }
        }
    }
}

#[test]
fn cached_result_cannot_bypass_active_model_change() {
    let (mut executor, mut engine, operation, grant) = setup().unwrap();
    let id = executor.submit(&actor(2), 0, operation, grant, NOW).unwrap();
    let req = executor.begin_evaluation(&actor(2), id, NOW).unwrap();
    let mut backend = FixtureBackend::default();
    evaluate(&mut engine, &executor.instance, req.clone(), NOW, &mut backend).unwrap();
    engine.active_model = hash(b"different-active-model");
    assert_eq!(engine.admission(&executor.instance, &req, NOW).err(), Some(Error::BindingMismatch));
}

#[test]
fn backend_specific_renderer_uses_the_shared_receipt_contract() {
    let (mut executor, mut engine, operation, grant) = setup().unwrap();
    let id = executor.submit(&actor(2), 0, operation, grant, NOW).unwrap();
    let req = executor.begin_evaluation(&actor(2), id, NOW).unwrap();
    let run = engine.admission(&executor.instance, &req, NOW).unwrap();
    let Admission::Run { schema_index, temperature_bits } = run else { panic!("first call runs") };
    assert_eq!(engine.schemas[schema_index].schema_hash, req.schema_hash);
    assert_eq!(f64::from_bits(temperature_bits), 1.0);
    let d = from_logits(&[3.0, 1.0], 1.0).unwrap();
    let inf = Inference { distribution: d, input_tokens: 17, backend: BackendKind::Checkpoint, measured_instructions: 99 };
    let receipt = engine.complete(&executor.instance, &req, NOW, Ok(inf)).unwrap();
    assert_eq!(receipt.input_tokens, 17);
    assert_eq!(receipt.measured_instructions, 99);
    assert_eq!(receipt.stamp.backend, BackendKind::Checkpoint);
    let cached = match engine.admission(&executor.instance, &req, NOW).unwrap() {
        Admission::Cached(r) => r.unwrap(),
        Admission::Run { .. } => panic!("cache must win"),
    };
    assert_eq!(cached, receipt);
}

#[test]
fn calibration_must_cover_whole_workflow_expiry() {
    let (mut executor, mut engine, operation, grant) = setup().unwrap();
    let id = executor.submit(&actor(2), 0, operation, grant, NOW).unwrap();
    let req = executor.begin_evaluation(&actor(2), id, NOW).unwrap();
    let cal = req.calibration.unwrap();
    engine.calibrations.iter_mut().find(|c| c.id == cal).unwrap().expires_at_ns = NOW + 1;
    assert_eq!(evaluate(&mut engine, &executor.instance, req, NOW, &mut FixtureBackend::default()), Err(Error::Uncalibrated));
}

#[test]
fn budget_failure_does_not_partially_reserve_operation() {
    let (mut executor, _, operation, g, id) = ready();
    executor.set_mode(&actor(1), Mode::Mock).unwrap();
    executor.grants.iter_mut().find(|x| x.id == g).unwrap().window_cap = 109;
    let authorized = executor.authorize(&actor(2), id, NOW).unwrap();
    assert_eq!(executor.prepare_dispatch(authorized, NOW).err(), Some(Error::Budget));
    assert_eq!(grant(&executor, g).total.reserved, 0);
    assert_eq!(operation_status(&executor, operation), OperationStatus::Available);
    executor.check_invariants().unwrap();
}

fn operation_status(e: &ExecutorState, o: Digest) -> OperationStatus {
    operation(e, o).status.clone()
}

#[test]
fn cache_evicts_entries_older_than_the_acceptance_window() {
    let (mut e, mut n, o, g) = setup().unwrap();
    let id = e.submit(&actor(2), 0, o, g, NOW).unwrap();
    let base = e.begin_evaluation(&actor(2), id, NOW).unwrap();
    let mut b = FixtureBackend::default();
    let capacity = n.max_cache_entries as u64;
    for i in 0..capacity {
        let now = NOW + i * 60_000_000_000;
        let mut req = base.clone();
        req.evaluation_id = hash(&i.to_be_bytes());
        req.expires_at_ns = now + 60_000_000_000;
        req.calibration = None;
        evaluate(&mut n, &e.instance, req, now, &mut b).unwrap();
    }
    assert_eq!(n.cache.len() as u64, capacity);
    let now = NOW + capacity * 60_000_000_000;
    let mut fresh = base.clone();
    fresh.evaluation_id = hash(b"fresh");
    fresh.expires_at_ns = now + 60_000_000_000;
    fresh.calibration = None;
    assert!(evaluate(&mut n, &e.instance, fresh, now, &mut b).is_ok(), "eviction should free room");
}

#[test]
fn fixture_backend_cannot_authorize_a_live_transfer() {
    let (mut e, _, _, _, id) = ready();
    e.set_mode(&actor(1), Mode::Mock).unwrap();
    e.mode = Mode::LimitedLive;
    match e.authorize(&actor(2), id, NOW + 4) {
        Err(Error::Denied(m)) => assert!(m.contains("fixture backend"), "unexpected message: {m}"),
        _ => panic!("a fixture-backed receipt must not authorize a live transfer"),
    }
}

#[test]
fn abandon_unknown_clears_the_upgrade_gate_and_keeps_the_reservation() {
    let (mut e, _, id, cmd) = dispatched();
    let before = request(&e, id).reservation.expect("dispatched holds a reservation");
    e.abandon_unknown(&actor(1), id, "operator decision".into()).unwrap();
    let gate = e.requests.iter().any(|r| matches!(r.status, Status::Submitted | Status::OutcomeUnknown(_)));
    assert!(!gate, "an ordinary upgrade must be possible after abandoning");
    assert_eq!(request(&e, id).reservation, Some(before), "the reservation must survive");
    e.check_invariants().unwrap();
    e.finish_ledger(&cmd, LedgerOutcome::Success("7".into())).unwrap();
    assert!(matches!(request(&e, id).status, Status::Succeeded(_)), "a late success still settles");
}

#[test]
fn abandon_unknown_requires_the_owner_and_an_unresolved_transfer() {
    let (mut e, _, _, _, id) = ready();
    assert_eq!(e.abandon_unknown(&actor(2), id, "x".into()), Err(Error::Unauthorized));
    assert_eq!(e.abandon_unknown(&actor(1), id, "x".into()), Err(Error::Transition));
    let (mut e, _, id, _) = dispatched();
    assert_eq!(e.abandon_unknown(&actor(1), id, "  ".into()), Err(Error::Invalid("reason".into())));
}

#[test]
fn parked_transfer_ignores_unknown_and_settles_on_success() {
    let (mut e, g, id, cmd) = dispatched();
    e.finish_ledger(&cmd, LedgerOutcome::Unknown("timeout".into())).unwrap();
    e.abandon_unknown(&actor(1), id, "waiting for the operator".into()).unwrap();
    assert_eq!(e.finish_ledger(&cmd, LedgerOutcome::Unknown("again".into())), Err(Error::OutcomeUnknown));
    assert_eq!(grant(&e, g).total.reserved, 110);
    e.finish_ledger(&cmd, LedgerOutcome::Duplicate("12".into())).unwrap();
    assert_eq!(grant(&e, g).total, Usage { spent: 110, reserved: 0 });
    assert_eq!(operation_status(&e, request(&e, id).operation), OperationStatus::Consumed(id));
}

#[test]
fn malformed_block_index_is_refused() {
    let (mut e, g, _, cmd) = dispatched();
    assert_eq!(e.finish_ledger(&cmd, LedgerOutcome::Success("12a".into())), Err(Error::Invalid("block index".into())));
    assert_eq!(e.finish_ledger(&cmd, LedgerOutcome::Success("".into())), Err(Error::Invalid("block index".into())));
    assert_eq!(grant(&e, g).total.reserved, 110);
}

#[test]
fn invariant_check_catches_tampered_books() {
    let (mut e, g, _, _) = dispatched();
    e.check_invariants().unwrap();
    e.grants.iter_mut().find(|x| x.id == g).unwrap().total.reserved = 0;
    assert_eq!(e.check_invariants(), Err(Error::Storage));
}

#[derive(Debug)]
struct RiskSchema;
impl DecisionSchema for RiskSchema {
    const ID: &'static str = "PaymentRisk";
    const VERSION: u64 = 1;
    const PRIMITIVE: Primitive = Primitive::Score;
    const OPTIONS: &'static [&'static str] = &["minimal", "low", "medium", "high", "severe"];
}

fn plan<'a>(e: &'a ExecutorState, p: Digest) -> &'a Plan {
    e.plans.iter().find(|x| x.id == p).unwrap()
}

#[test]
fn typed_score_exposes_tail_and_rejects_other_schema() {
    let (executor, _, _, _, id) = ready();
    let request = executor.get(&actor(2), id).unwrap();
    let schema = &plan(&executor, request.plan).signals[2].schema;
    let receipt = &request.receipts[2];
    // Here the receipt comes from our in-process fixture, not an untrusted network.
    let expected = receipt.stamp.clone();
    let score = Score::<RiskSchema>::try_from_receipt(schema, receipt, &expected).unwrap();
    assert!(score.tail_ppm(3).unwrap() < 50_000);
    let wrong = &plan(&executor, request.plan).signals[0].schema;
    assert!(Score::<RiskSchema>::try_from_receipt(wrong, receipt, &expected).is_err());
}

#[test]
fn typed_view_rejects_forged_receipt_stamp() {
    let (executor, _, _, _, id) = ready();
    let request = executor.get(&actor(2), id).unwrap();
    let schema = &plan(&executor, request.plan).signals[2].schema;
    let receipt = &request.receipts[2];
    let mut expected = receipt.stamp.clone();
    expected.model = hash(b"expected-other-model");
    assert!(Score::<RiskSchema>::try_from_receipt(schema, receipt, &expected).is_err());
}

#[test]
fn snapshot_envelope_integrity() {
    let (e, _, _, _) = setup().unwrap();
    e.check_invariants().unwrap();
    let mut payload = e.instance.as_slice().to_vec();
    payload.extend_from_slice(&hash(b"executor state"));
    let bytes = seal(&payload).unwrap();
    assert_eq!(unseal(&bytes).unwrap(), payload);
    let mut corrupt = bytes;
    let n = corrupt.len();
    corrupt[n - 1] ^= 1;
    assert!(unseal(&corrupt).is_err());
}

fn open_transfer() -> (ExecutorState, Digest, Digest, DispatchCommand) {
    let (mut e, g, id, cmd) = dispatched();
    e.finish_ledger(&cmd, LedgerOutcome::Unknown("timeout".into())).unwrap();
    (e, g, id, cmd)
}

fn lookup_cmd(e: &ExecutorState, caller: &Principal, id: Digest) -> (DispatchCommand, bool) {
    match e.reconcile_step(caller, id).unwrap() {
        Reconcile::Lookup { cmd, parked } => (cmd, parked),
        Reconcile::Settled(s) => panic!("unexpected settled {s:?}"),
    }
}

#[test]
fn reconcile_settles_only_on_matching_evidence() {
    let (mut e, g, id, sent) = open_transfer();
    let (cmd, parked) = lookup_cmd(&e, &actor(2), id);
    assert!(!parked);
    assert_eq!(cmd.request, id);
    assert_eq!(cmd.transfer, sent.transfer);
    assert_eq!(cmd.attempt, sent.attempt);
    // The lost reply: the mock ledger did commit the transfer.
    let ledger_id = cmd.transfer.proposal.ledger.clone();
    let mut ledger = MockLedger::new(actor(9));
    assert_eq!(ledger.transfer(&e.instance, &cmd.transfer, NOW + 4), Ok((0, false)));
    let found = ledger.lookup(&e.instance, &to_icrc(&cmd.transfer), &ledger_id);
    assert!(found.is_some());
    let outcome = reconcile_outcome(&cmd, parked, found).unwrap();
    assert_eq!(outcome, LedgerOutcome::Success("0".into()));
    assert!(matches!(e.finish_ledger(&cmd, outcome).unwrap(), Status::Succeeded(_)));
    assert_eq!(grant(&e, g).total, Usage { spent: 110, reserved: 0 });
    // Reconciling again answers the same status and sends nothing.
    match e.reconcile_step(&actor(1), id).unwrap() {
        Reconcile::Settled(s) => assert_eq!(s, Status::Succeeded("0".into())),
        _ => panic!("a settled request is not looked up again"),
    }
    assert_eq!(ledger.committed_transfers(), 1);
    e.check_invariants().unwrap();
}

#[test]
fn reconcile_without_evidence_keeps_the_reservation() {
    let (mut e, g, id, _) = open_transfer();
    let (cmd, parked) = lookup_cmd(&e, &actor(2), id);
    let outcome = reconcile_outcome(&cmd, parked, None).unwrap();
    assert_eq!(outcome, LedgerOutcome::Unknown("not found is not proof of non-execution".into()));
    assert!(matches!(e.finish_ledger(&cmd, outcome).unwrap(), Status::OutcomeUnknown(_)));
    assert_eq!(grant(&e, g).total.reserved, 110);
    // A parked transfer stays parked when nothing is found.
    e.abandon_unknown(&actor(1), id, "operator decision".into()).unwrap();
    let (cmd, parked) = lookup_cmd(&e, &actor(1), id);
    assert!(parked);
    assert_eq!(reconcile_outcome(&cmd, parked, None), Err(Error::OutcomeUnknown));
    assert_eq!(grant(&e, g).total.reserved, 110);
    e.check_invariants().unwrap();
}

#[test]
fn reconcile_refuses_foreign_receipts_and_requests() {
    let (mut e, _, id, _) = open_transfer();
    let (cmd, parked) = lookup_cmd(&e, &actor(2), id);
    let other = Lookup { frozen_hash: hash(b"another transfer"), block_index: "3".into() };
    assert_eq!(reconcile_outcome(&cmd, parked, Some(other)), Err(Error::BindingMismatch));
    assert!(matches!(e.reconcile_step(&actor(7), id), Err(Error::Unauthorized)));
    assert!(matches!(e.reconcile_step(&actor(2), hash(b"missing")), Err(Error::NotFound)));
    e.mock_ledgers.clear();
    assert!(matches!(e.reconcile_step(&actor(2), id), Err(Error::Unauthorized)));
    let (e, _, _, _, ready_id) = ready();
    assert!(matches!(e.reconcile_step(&actor(2), ready_id), Err(Error::Transition)));
}

#[test]
fn a_reconciliation_round_settles_only_on_matching_evidence() {
    let (mut e, g, id, _) = open_transfer();
    let (cmd, parked) = lookup_cmd(&e, &actor(2), id);
    let other = Lookup { frozen_hash: hash(b"another transfer"), block_index: "3".into() };
    assert_eq!(e.finish_reconcile(&cmd, parked, Some(other)), Err(Error::BindingMismatch));
    assert_eq!(
        e.finish_reconcile(&cmd, parked, None),
        Ok(Status::OutcomeUnknown("not found is not proof of non-execution".into()))
    );
    assert_eq!(grant(&e, g).total, Usage { spent: 0, reserved: 110 });
    let found = Lookup { frozen_hash: cmd.transfer.digest(), block_index: "7".into() };
    assert_eq!(e.finish_reconcile(&cmd, parked, Some(found)), Ok(Status::Succeeded("7".into())));
    assert_eq!(grant(&e, g).total, Usage { spent: 110, reserved: 0 });
    e.check_invariants().unwrap();
}

#[test]
fn a_parked_transfer_stays_parked_without_evidence() {
    let (mut e, g, id, _) = open_transfer();
    e.abandon_unknown(&actor(1), id, "operator decision".into()).unwrap();
    let (cmd, parked) = lookup_cmd(&e, &actor(1), id);
    assert!(parked);
    assert_eq!(e.finish_reconcile(&cmd, parked, None), Err(Error::OutcomeUnknown));
    assert_eq!(grant(&e, g).total.reserved, 110);
}

#[test]
fn ledger_replies_prove_only_what_they_say() {
    assert_eq!(ledger_outcome(LedgerReply::Committed("5".into())), LedgerOutcome::Success("5".into()));
    assert_eq!(ledger_outcome(LedgerReply::Duplicate("4".into())), LedgerOutcome::Duplicate("4".into()));
    assert_eq!(ledger_outcome(LedgerReply::Refused("TooOld".into())), LedgerOutcome::DefinitiveError("TooOld".into()));
    assert_eq!(ledger_outcome(LedgerReply::Undecodable), LedgerOutcome::Unknown("undecodable ledger response".into()));
    assert_eq!(ledger_outcome(LedgerReply::Unreachable), LedgerOutcome::Unknown("ledger call failed or timed out".into()));
}

#[test]
fn mock_ledgers_are_owner_registered_and_bounded() {
    let (mut e, _, _, _) = setup().unwrap();
    assert!(is_mock_marker("IC_LAYA_MOCK_NO_REAL_ASSETS_V1"));
    assert!(!is_mock_marker("ICRC-1"));
    assert_eq!(e.add_mock_ledger(&actor(2), &actor(40)), Err(Error::Unauthorized));
    let before = e.mock_ledgers.len();
    assert_eq!(e.add_mock_ledger(&actor(1), &actor(40)), Ok(()));
    assert_eq!(e.add_mock_ledger(&actor(1), &actor(40)), Ok(()));
    assert_eq!(e.mock_ledgers.len(), before + 1);
    let mut n = 41;
    while e.mock_ledgers.len() < 8 {
        e.add_mock_ledger(&actor(1), &actor(n)).unwrap();
        n += 1;
    }
    assert_eq!(e.add_mock_ledger(&actor(1), &actor(60)), Err(Error::Capacity));
    assert_eq!(e.add_mock_ledger(&actor(1), &actor(40)), Ok(()));
}

#[test]
fn engine_info_reports_model_and_counts() {
    let fresh = EngineState::new(fixture_bundle());
    let info = fresh.info(true);
    assert_eq!(info.model, fixture_bundle());
    assert!(info.fixture);
    assert_eq!((info.schemas, info.cached), (0, 0));
    assert!(!info.live_dispatch_supported);
    let (_, n, _, _) = setup().unwrap();
    let info = n.info(false);
    assert_eq!(info.schemas, n.schemas.len() as u64);
    assert_eq!(info.cached, n.cache.len() as u64);
    assert!(!info.fixture);
}

#[test]
fn setup_builds_the_fixture_deployment() {
    let (e, n, o, g) = setup().unwrap();
    assert_eq!(n.active_model, fixture_bundle());
    assert_eq!(n.schemas.len(), 3);
    assert_eq!(n.calibrations.len(), 3);
    let ids: Vec<&str> = n.schemas.iter().map(|c| c.schema.id.as_str()).collect();
    assert_eq!(ids, vec!["RefundRequested", "PaymentAction", "PaymentRisk"]);
    for (c, k) in n.calibrations.iter().zip(&n.schemas) {
        assert_eq!(c.schema, k.schema_hash);
        assert_eq!(c.id, hash(format!("TEST-ONLY-calibration-{}", k.schema.id).as_bytes()));
        assert!(c.test_only);
    }
    assert!(n.callers.iter().any(|c| c.caller == actor(5)));
    assert_eq!(e.plans.len(), 1);
    assert_eq!(e.plans[0].id, hash(b"TEST-ONLY-refund-plan-v1"));
    assert_eq!(e.plans[0].signals.len(), 3);
    assert_eq!(e.operations.len(), 1);
    assert_eq!(o, hash(b"trusted-demo-invoice-1"));
    assert_eq!(e.operations[0].id, o);
    assert_eq!(e.operations[0].proposal.amount, 100);
    assert_eq!(e.operations[0].proposal.fee, 10);
    assert_eq!(g, hash(b"TEST-ONLY-grant-1"));
    assert_eq!(e.grants[0].delegate, actor(2));
    assert_eq!(e.mock_ledgers, vec![actor(3)]);
}
