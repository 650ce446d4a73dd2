//! The evaluation engine's bookkeeping: registered schemas and calibrations,
//! per-caller quotas, and an idempotent result cache keyed by caller and
//! evaluation id. Inference itself runs outside; `admission` decides whether it may
//! run and `complete` turns its validated distribution into the receipt.
use vstd::prelude::*;
use vstd::string::StringExecFns;
use crate::math::{diag_of, is_value_of, value, value_shape_ok, Distribution};
use crate::same::{compiled_same, copy_error, error_same, plan_same, receipt_same};
use crate::schema::{compiled_consistent, schema_valid, validate_compiled};
use crate::types::{
    anonymous_bytes, digest_eq, digest_is_zero, hash, request_preimage, sbytes, sha256, BackendKind,
    Binding, CompiledSchema, DecisionRequest, Digest, Error, EvaluationOutcome, Principal, Receipt,
    Stamp, MAX_STATE_BYTES, PROFILE,
};

verus! {

/// The longest an evaluation may be accepted for after it is asked.
pub const MAX_EVALUATION_WINDOW_NS: u64 = 300_000_000_000;

/// The length of a quota epoch.
pub const QUOTA_EPOCH_NS: u64 = 60_000_000_000;

/// The IEEE-754 bits of 1e-6, the smallest accepted temperature.
pub const MIN_TEMPERATURE_BITS: u64 = 0x3EB0C6F7A0B5ED8D;

/// The IEEE-754 bits of 1e6, the largest accepted temperature.
pub const MAX_TEMPERATURE_BITS: u64 = 0x412E848000000000;

/// The IEEE-754 bits of 1.0, the temperature without a calibration.
pub const UNIT_TEMPERATURE_BITS: u64 = 0x3FF0000000000000;

/// A temperature calibration for one schema, tokenizer and model. The
/// temperature is carried as the bits of an IEEE-754 double.
#[derive(Debug, Clone, PartialEq, Eq)]
pub struct Calibration {
    pub id: Digest,
    pub model: Digest,
    pub schema: Digest,
    pub tokenizer: Digest,
    pub temperature_bits: u64,
    pub expires_at_ns: u64,
    pub holdout_hash: Digest,
    pub sample_count: u64,
    /// Fixture calibrations can never enable real funds.
    pub test_only: bool,
}

pub open spec fn is_zero_digest(d: Digest) -> bool {
    forall|j: int| 0 <= j < 32 ==> d@[j] == 0
}

/// The calibration is usable at `now`: identified, sampled, unexpired, and its
/// temperature a finite double in [1e-6, 1e6]. Between those two bounds the
/// order of positive doubles is the order of their bits, and every non-finite or
/// negative double has bits above the upper bound.
pub open spec fn calibration_ok(c: Calibration, now: u64) -> bool {
    &&& !is_zero_digest(c.id) && !is_zero_digest(c.holdout_hash) && c.sample_count != 0
    &&& c.expires_at_ns > now
    &&& MIN_TEMPERATURE_BITS <= c.temperature_bits <= MAX_TEMPERATURE_BITS
}

impl Calibration {
    /// `Uncalibrated` for a missing identity, holdout or sample, or an expired
    /// calibration; `Numeric` for a temperature outside [1e-6, 1e6].
    pub fn validate(&self, now: u64) -> (r: Result<(), Error>)
        ensures
            r is Ok <==> calibration_ok(*self, now),
            r matches Err(e) ==> if is_zero_digest(self.id) || is_zero_digest(self.holdout_hash)
                || self.sample_count == 0 || self.expires_at_ns <= now {
                e == Error::Uncalibrated
            } else {
                e == Error::Numeric
            },
    {
        if digest_is_zero(&self.id) || digest_is_zero(&self.holdout_hash) || self.sample_count == 0 {
            return Err(Error::Uncalibrated);
        }
        if self.expires_at_ns <= now {
            return Err(Error::Uncalibrated);
        }
        if self.temperature_bits < MIN_TEMPERATURE_BITS || self.temperature_bits > MAX_TEMPERATURE_BITS {
            return Err(Error::Numeric);
        }
        Ok(())
    }
}

#[derive(Debug, Clone, Copy, PartialEq, Eq)]
pub struct CallerQuota {
    pub epoch: u64,
    pub used: u32,
    pub max_per_minute: u32,
}

/// A caller allowed to evaluate, with its quota.
#[derive(Debug, Clone, PartialEq, Eq)]
pub struct CallerEntry {
    pub caller: Principal,
    pub quota: CallerQuota,
}

/// A cached evaluation result, failures included.
#[derive(Debug)]
pub struct Cached {
    pub fingerprint: Digest,
    pub result: Result<Receipt, Error>,
    pub stored_at: u64,
}

#[derive(Debug)]
pub struct CacheEntry {
    pub caller: Principal,
    pub evaluation_id: Digest,
    pub entry: Cached,
}

#[derive(Debug)]
pub struct EngineState {
    pub active_model: Digest,
    pub schemas: Vec<CompiledSchema>,
    pub calibrations: Vec<Calibration>,
    pub callers: Vec<CallerEntry>,
    pub cache: Vec<CacheEntry>,
    pub max_cache_entries: u32,
}

/// What the decision engine reports about itself.
#[derive(Debug, Clone, Copy, PartialEq, Eq)]
pub struct EngineInfo {
    pub model: Digest,
    pub fixture: bool,
    pub schemas: u64,
    pub cached: u64,
    pub live_dispatch_supported: bool,
}

impl EngineState {
    /// The active model, whether the synthetic fixture is on, how many schemas
    /// and cached results are held; live dispatch is never supported.
    pub fn info(&self, fixture: bool) -> (r: EngineInfo)
        ensures
            r.model == self.active_model,
            r.fixture == fixture,
            r.schemas == self.schemas@.len(),
            r.cached == self.cache@.len(),
            !r.live_dispatch_supported,
    {
        EngineInfo {
            model: self.active_model,
            fixture,
            schemas: self.schemas.len() as u64,
            cached: self.cache.len() as u64,
            live_dispatch_supported: false,
        }
    }
}

/// What `admission` decided: return the cached result, or run inference on the
/// registered schema at `schema_index` with the given temperature bits.
#[derive(Debug)]
pub enum Admission {
    Cached(Result<Receipt, Error>),
    Run { schema_index: usize, temperature_bits: u64 },
}

/// What inference produced, as validated probability mass.
#[derive(Debug)]
pub struct Inference {
    pub distribution: Distribution,
    pub input_tokens: u32,
    pub backend: BackendKind,
    pub measured_instructions: u64,
}

/// Two calibrations that agree on everything they bind.
pub open spec fn same_calibration(o: Calibration, c: Calibration) -> bool {
    &&& o.model == c.model && o.schema == c.schema && o.tokenizer == c.tokenizer
    &&& o.temperature_bits == c.temperature_bits && o.expires_at_ns == c.expires_at_ns
    &&& o.holdout_hash == c.holdout_hash && o.sample_count == c.sample_count && o.test_only == c.test_only
}

/// What registering `c` at `now` answers: the calibration's own check
/// (`Uncalibrated` or `Numeric`), `NotFound` for an unknown schema,
/// `BindingMismatch` for another model or tokenizer, then for a known id `Ok`
/// when it is the same calibration and `IdConflict` otherwise; a new one is
/// refused with `Capacity` once 128 are held.
pub open spec fn calibration_registration(s: EngineState, c: Calibration, now: u64) -> Result<(), Error> {
    if !calibration_ok(c, now) {
        if is_zero_digest(c.id) || is_zero_digest(c.holdout_hash) || c.sample_count == 0 || c.expires_at_ns <= now {
            Err(Error::Uncalibrated)
        } else {
            Err(Error::Numeric)
        }
    } else if !schema_known(s.schemas@, c.schema) {
        Err(Error::NotFound)
    } else if c.model != s.active_model || c.tokenizer != s.schemas@[schema_at(s.schemas@, c.schema)].tokenizer_hash {
        Err(Error::BindingMismatch)
    } else if calibration_known(s.calibrations@, c.id) {
        if same_calibration(s.calibrations@[calibration_at(s.calibrations@, c.id)], c) {
            Ok(())
        } else {
            Err(Error::IdConflict)
        }
    } else if s.calibrations@.len() >= 128 {
        Err(Error::Capacity)
    } else {
        Ok(())
    }
}

pub open spec fn schema_at(ss: Seq<CompiledSchema>, h: Digest) -> int {
    choose|j: int| 0 <= j < ss.len() && #[trigger] ss[j].schema_hash == h
}

pub open spec fn schema_known(ss: Seq<CompiledSchema>, h: Digest) -> bool {
    exists|j: int| 0 <= j < ss.len() && #[trigger] ss[j].schema_hash == h
}

pub open spec fn calibration_known(cs: Seq<Calibration>, id: Digest) -> bool {
    exists|j: int| 0 <= j < cs.len() && #[trigger] cs[j].id == id
}

pub open spec fn calibration_at(cs: Seq<Calibration>, id: Digest) -> int {
    choose|j: int| 0 <= j < cs.len() && #[trigger] cs[j].id == id
}

pub open spec fn caller_known(cs: Seq<CallerEntry>, p: Seq<u8>) -> bool {
    exists|j: int| 0 <= j < cs.len() && #[trigger] cs[j].caller@ == p
}

pub open spec fn caller_at(cs: Seq<CallerEntry>, p: Seq<u8>) -> int {
    choose|j: int| 0 <= j < cs.len() && #[trigger] cs[j].caller@ == p
}

/// The evaluations caller `p` has run in the minute of `now`: none when its
/// quota was last used in another minute or when `p` is not allowed.
pub open spec fn runs_this_minute(s: EngineState, p: Seq<u8>, now: u64) -> int {
    if caller_known(s.callers@, p) {
        let q = s.callers@[caller_at(s.callers@, p)].quota;
        if q.epoch == now / QUOTA_EPOCH_NS {
            q.used as int
        } else {
            0
        }
    } else {
        0
    }
}

/// Caller `p`'s per-minute quota.
pub open spec fn per_minute(s: EngineState, p: Seq<u8>) -> int {
    s.callers@[caller_at(s.callers@, p)].quota.max_per_minute as int
}

/// `t` is `s` after admitting a run for caller `p` at `now`: the caller was
/// under its quota, and only its quota entry changed, to this minute with one
/// more run.
pub open spec fn run_admitted(s: EngineState, t: EngineState, p: Seq<u8>, now: u64) -> bool {
    let i = caller_at(s.callers@, p);
    let q = s.callers@[i].quota;
    &&& caller_known(s.callers@, p) && engine_wf(t)
    &&& runs_this_minute(s, p, now) < q.max_per_minute
    &&& t.callers@ == s.callers@.update(i, CallerEntry {
        caller: s.callers@[i].caller,
        quota: CallerQuota {
            epoch: now / QUOTA_EPOCH_NS,
            used: (runs_this_minute(s, p, now) + 1) as u32,
            max_per_minute: q.max_per_minute,
        },
    })
}

pub open spec fn cache_known(c: Seq<CacheEntry>, p: Seq<u8>, id: Digest) -> bool {
    exists|j: int| 0 <= j < c.len() && #[trigger] c[j].caller@ == p && c[j].evaluation_id == id
}

pub open spec fn cache_at(c: Seq<CacheEntry>, p: Seq<u8>, id: Digest) -> int {
    choose|j: int| 0 <= j < c.len() && #[trigger] c[j].caller@ == p && c[j].evaluation_id == id
}

/// Each key occurs once in every registry.
pub open spec fn engine_wf(e: EngineState) -> bool {
    &&& forall|a: int, b: int| 0 <= a < b < e.schemas@.len() ==> #[trigger] e.schemas@[a].schema_hash != #[trigger] e.schemas@[b].schema_hash
    &&& forall|a: int, b: int| 0 <= a < b < e.calibrations@.len() ==> #[trigger] e.calibrations@[a].id != #[trigger] e.calibrations@[b].id
    &&& forall|a: int, b: int| 0 <= a < b < e.callers@.len() ==> #[trigger] e.callers@[a].caller@ != #[trigger] e.callers@[b].caller@
    &&& forall|a: int, b: int| 0 <= a < b < e.cache@.len() ==> !(#[trigger] e.cache@[a].caller@ == #[trigger] e.cache@[b].caller@
        && e.cache@[a].evaluation_id == e.cache@[b].evaluation_id)
}

/// The checks `admission` makes before the cache: an allowed caller, state of 1 to
/// `MAX_STATE_BYTES` bytes, an expiry inside the acceptance window, the active
/// model, a registered schema, and a usable calibration bound to them that
/// covers the whole expiry.
pub open spec fn request_admissible(e: EngineState, caller: Principal, req: DecisionRequest, now: u64) -> bool {
    let s = e.schemas@[schema_at(e.schemas@, req.schema_hash)];
    &&& caller_known(e.callers@, caller@)
    &&& 0 < sbytes(req.state).len() <= MAX_STATE_BYTES
    &&& now < req.expires_at_ns && req.expires_at_ns - now <= MAX_EVALUATION_WINDOW_NS
    &&& req.model == e.active_model
    &&& schema_known(e.schemas@, req.schema_hash)
    &&& match req.calibration {
        Some(id) => {
            let c = e.calibrations@[calibration_at(e.calibrations@, id)];
            &&& calibration_known(e.calibrations@, id) && calibration_ok(c, now)
            &&& c.model == req.model && c.schema == req.schema_hash && c.tokenizer == s.tokenizer_hash
            &&& req.expires_at_ns <= c.expires_at_ns
        },
        None => true,
    }
}

/// The temperature an admitted request runs at.
pub open spec fn temperature_of(e: EngineState, req: DecisionRequest) -> u64 {
    match req.calibration {
        Some(id) => e.calibrations@[calibration_at(e.calibrations@, id)].temperature_bits,
        None => UNIT_TEMPERATURE_BITS,
    }
}

/// The receipt the engine issues for `req` from masses `m` on schema `s`.
pub open spec fn receipt_for(rc: Receipt, req: DecisionRequest, s: CompiledSchema, inf_tokens: u32, backend: BackendKind, instr: u64, m: Seq<u32>) -> bool {
    &&& rc.stamp.evaluation_id == req.evaluation_id && rc.stamp.schema_hash == req.schema_hash
    &&& rc.stamp.tokenizer_hash == s.tokenizer_hash && rc.stamp.model == req.model
    &&& rc.stamp.calibration == req.calibration && rc.stamp.binding == req.binding
    &&& rc.stamp.state_hash@ == sha256(sbytes(req.state)) && rc.stamp.profile@ == PROFILE@
    &&& rc.stamp.backend == backend
    &&& rc.outcome matches EvaluationOutcome::Assessed(v) && is_value_of(s.schema, m, v)
    &&& rc.diagnostics matches Some(d) && diag_of(m, d)
    &&& rc.input_tokens == inf_tokens && rc.measured_instructions == instr
}

fn copy_receipt_result(r: &Result<Receipt, Error>) -> (c: Result<Receipt, Error>)
    ensures
        r is Ok <==> c is Ok,
        c matches Ok(x) ==> receipt_same(x, r->Ok_0),
        c matches Err(x) ==> error_same(x, r->Err_0),
{
    match r {
        Ok(x) => Ok(copy_receipt(x)),
        Err(e) => Err(copy_error(e)),
    }
}

fn copy_receipt(r: &Receipt) -> (c: Receipt)
    ensures
        receipt_same(c, *r),
{
    let stamp = Stamp {
        evaluation_id: r.stamp.evaluation_id,
        schema_hash: r.stamp.schema_hash,
        tokenizer_hash: r.stamp.tokenizer_hash,
        model: r.stamp.model,
        calibration: match &r.stamp.calibration {
            Some(x) => Some(*x),
            None => None,
        },
        binding: match &r.stamp.binding {
            Some(b) => Some(Binding { workflow: b.workflow, slot: b.slot, attempt: b.attempt, snapshot: b.snapshot }),
            None => None,
        },
        state_hash: r.stamp.state_hash,
        profile: r.stamp.profile.clone(),
        backend: r.stamp.backend,
    };
    let outcome = match &r.outcome {
        EvaluationOutcome::Assessed(v) => EvaluationOutcome::Assessed(crate::math::copy_value(v)),
        EvaluationOutcome::Abstained(m) => EvaluationOutcome::Abstained(m.clone()),
        EvaluationOutcome::Error(e) => EvaluationOutcome::Error(copy_error(e)),
    };
    Receipt {
        stamp,
        outcome,
        diagnostics: match &r.diagnostics {
            Some(d) => Some(*d),
            None => None,
        },
        input_tokens: r.input_tokens,
        measured_instructions: r.measured_instructions,
    }
}

impl EngineState {
    pub open spec fn wf(&self) -> bool {
        engine_wf(*self)
    }

    pub fn new(model: Digest) -> (s: Self)
        ensures
            s.active_model == model && s.schemas@.len() == 0 && s.calibrations@.len() == 0,
            s.callers@.len() == 0 && s.cache@.len() == 0 && s.max_cache_entries == 1024,
            s.wf(),
    {
        EngineState {
            active_model: model,
            schemas: Vec::new(),
            calibrations: Vec::new(),
            callers: Vec::new(),
            cache: Vec::new(),
            max_cache_entries: 1024,
        }
    }

    /// Activates a warmed pack. The same pack keeps its registered contracts
    /// and idempotency records; another pack starts afresh with the same
    /// allowed callers.
    pub fn activate_bundle(&mut self, bundle: Digest)
        requires
            old(self).wf(),
        ensures
            final(self).wf(),
            old(self).active_model == bundle ==> *final(self) == *old(self),
            old(self).active_model != bundle ==> {
                &&& final(self).active_model == bundle && final(self).callers == old(self).callers
                &&& final(self).schemas@.len() == 0 && final(self).calibrations@.len() == 0 && final(self).cache@.len() == 0
                &&& final(self).max_cache_entries == 1024
            },
    {
        if digest_eq(&self.active_model, &bundle) {
            return;
        }
        let mut callers: Vec<CallerEntry> = Vec::new();
        std::mem::swap(&mut callers, &mut self.callers);
        let ghost kept = callers;
        let mut fresh = EngineState::new(bundle);
        fresh.callers = callers;
        proof {
            assert(kept == old(self).callers);
        }
        *self = fresh;
    }

    fn find_caller(&self, p: &Principal) -> (r: Option<usize>)
        ensures
            r is None <==> !caller_known(self.callers@, p@),
            r matches Some(j) ==> j < self.callers@.len() && self.callers@[j as int].caller@ == p@,
    {
        let mut j: usize = 0;
        while j < self.callers.len()
            invariant
                j <= self.callers@.len(),
                forall|k: int| 0 <= k < j ==> #[trigger] self.callers@[k].caller@ != p@,
            decreases self.callers@.len() - j,
        {
            if self.callers[j].caller.same(p) {
                return Some(j);
            }
            j = j + 1;
        }
        None
    }

    fn find_schema(&self, h: &Digest) -> (r: Option<usize>)
        requires
            self.wf(),
        ensures
            r is None <==> !schema_known(self.schemas@, *h),
            r matches Some(j) ==> j < self.schemas@.len() && self.schemas@[j as int].schema_hash == *h
                && j == schema_at(self.schemas@, *h),
    {
        let mut j: usize = 0;
        while j < self.schemas.len()
            invariant
                j <= self.schemas@.len(),
                engine_wf(*self),
                forall|k: int| 0 <= k < j ==> #[trigger] self.schemas@[k].schema_hash != *h,
            decreases self.schemas@.len() - j,
        {
            if digest_eq(&self.schemas[j].schema_hash, h) {
                proof {
                    let w = schema_at(self.schemas@, *h);
                    assert(schema_known(self.schemas@, *h));
                    if w < j {
                        assert(self.schemas@[w].schema_hash != self.schemas@[j as int].schema_hash);
                    } else if w > j {
                        assert(self.schemas@[j as int].schema_hash != self.schemas@[w].schema_hash);
                    }
                }
                return Some(j);
            }
            j = j + 1;
        }
        None
    }

    fn find_calibration(&self, id: &Digest) -> (r: Option<usize>)
        requires
            self.wf(),
        ensures
            r is None <==> !calibration_known(self.calibrations@, *id),
            r matches Some(j) ==> j < self.calibrations@.len() && self.calibrations@[j as int].id == *id
                && j == calibration_at(self.calibrations@, *id),
    {
        let mut j: usize = 0;
        while j < self.calibrations.len()
            invariant
                j <= self.calibrations@.len(),
                engine_wf(*self),
                forall|k: int| 0 <= k < j ==> #[trigger] self.calibrations@[k].id != *id,
            decreases self.calibrations@.len() - j,
        {
            if digest_eq(&self.calibrations[j].id, id) {
                proof {
                    let w = calibration_at(self.calibrations@, *id);
                    assert(calibration_known(self.calibrations@, *id));
                    if w < j {
                        assert(self.calibrations@[w].id != self.calibrations@[j as int].id);
                    } else if w > j {
                        assert(self.calibrations@[j as int].id != self.calibrations@[w].id);
                    }
                }
                return Some(j);
            }
            j = j + 1;
        }
        None
    }

    fn find_cached(&self, p: &Principal, id: &Digest) -> (r: Option<usize>)
        requires
            self.wf(),
        ensures
            r is None <==> !cache_known(self.cache@, p@, *id),
            r matches Some(j) ==> j < self.cache@.len() && self.cache@[j as int].caller@ == p@
                && self.cache@[j as int].evaluation_id == *id,
    {
        let mut j: usize = 0;
        while j < self.cache.len()
            invariant
                j <= self.cache@.len(),
                forall|k: int| 0 <= k < j ==> !(#[trigger] self.cache@[k].caller@ == p@ && self.cache@[k].evaluation_id == *id),
            decreases self.cache@.len() - j,
        {
            if self.cache[j].caller.same(p) && digest_eq(&self.cache[j].evaluation_id, id) {
                return Some(j);
            }
            j = j + 1;
        }
        None
    }

    /// Allows a caller with a per-minute quota of 1 to 1000 evaluations; at most
    /// 64 callers. Allowing a known caller again resets its quota.
    pub fn allow_caller(&mut self, p: &Principal, per_minute: u32) -> (r: Result<(), Error>)
        requires
            old(self).wf(),
        ensures
            final(self).wf(),
            r is Ok <==> p@ != anonymous_bytes() && p@ != Seq::<u8>::empty() && 0 < per_minute <= 1000
                && (caller_known(old(self).callers@, p@) || old(self).callers@.len() < 64),
            r is Err ==> *final(self) == *old(self),
            r is Ok ==> caller_known(final(self).callers@, p@) && final(self).callers@[caller_at(final(self).callers@, p@)].quota
                == (CallerQuota { epoch: 0, used: 0, max_per_minute: per_minute }),
            final(self).schemas == old(self).schemas && final(self).calibrations == old(self).calibrations,
            final(self).cache == old(self).cache && final(self).active_model == old(self).active_model,
    {
        if p.is_reserved() || per_minute == 0 || per_minute > 1000 {
            return Err(Error::Invalid(String::from_str("caller/quota")));
        }
        let quota = CallerQuota { epoch: 0, used: 0, max_per_minute: per_minute };
        match self.find_caller(p) {
            Some(j) => {
                let ghost before = self.callers@;
                self.callers[j].quota = quota;
                proof {
                    assert(self.callers@ =~= before.update(j as int, self.callers@[j as int]));
                    assert forall|a: int, b: int| 0 <= a < b < self.callers@.len() implies #[trigger] self.callers@[a].caller@ != #[trigger] self.callers@[b].caller@ by {
                        assert(before[a].caller@ != before[b].caller@);
                    }
                    let w = caller_at(self.callers@, p@);
                    assert(self.callers@[j as int].caller@ == p@);
                    if w < j {
                        assert(self.callers@[w].caller@ != self.callers@[j as int].caller@);
                    } else if w > j {
                        assert(self.callers@[j as int].caller@ != self.callers@[w].caller@);
                    }
                }
                Ok(())
            },
            None => {
                if self.callers.len() >= 64 {
                    return Err(Error::Capacity);
                }
                let ghost before = self.callers@;
                self.callers.push(CallerEntry { caller: p.clone_principal(), quota });
                proof {
                    let n = self.callers@;
                    assert forall|a: int, b: int| 0 <= a < b < n.len() implies #[trigger] n[a].caller@ != #[trigger] n[b].caller@ by {
                        if b == before.len() {
                            assert(before[a].caller@ != p@);
                        } else {
                            assert(before[a].caller@ != before[b].caller@);
                        }
                    }
                    let w = caller_at(n, p@);
                    assert(n[before.len() as int].caller@ == p@);
                    if w < before.len() {
                        assert(before[w].caller@ != p@);
                    }
                }
                Ok(())
            },
        }
    }

    /// Registers a consistent compiled schema; the same content again is a no-op,
    /// different content under a used hash is `IdConflict`; at most 64 schemas.
    pub fn register(&mut self, s: CompiledSchema) -> (r: Result<(), Error>)
        requires
            old(self).wf(),
        ensures
            final(self).wf(),
            r is Ok ==> schema_valid(s.schema) && compiled_consistent(s),
            r is Ok ==> schema_known(final(self).schemas@, s.schema_hash) && compiled_same(
                final(self).schemas@[schema_at(final(self).schemas@, s.schema_hash)],
                s,
            ),
            r is Ok <==> schema_valid(s.schema) && compiled_consistent(s) && (if schema_known(old(self).schemas@, s.schema_hash) {
                compiled_same(old(self).schemas@[schema_at(old(self).schemas@, s.schema_hash)], s)
            } else {
                old(self).schemas@.len() < 64
            }),
            r is Ok && !schema_known(old(self).schemas@, s.schema_hash) ==> final(self).schemas@ == old(self).schemas@.push(s),
            r is Ok && schema_known(old(self).schemas@, s.schema_hash) ==> final(self).schemas == old(self).schemas,
            r is Err ==> *final(self) == *old(self),
            final(self).calibrations == old(self).calibrations && final(self).callers == old(self).callers,
            final(self).cache == old(self).cache && final(self).active_model == old(self).active_model,
    {
        validate_compiled(&s)?;
        match self.find_schema(&s.schema_hash) {
            Some(j) => {
                if crate::same::compiled_eq(&self.schemas[j], &s) {
                    return Ok(());
                }
                return Err(Error::IdConflict);
            },
            None => {},
        }
        if self.schemas.len() >= 64 {
            return Err(Error::Capacity);
        }
        let ghost before = self.schemas@;
        let h = s.schema_hash;
        self.schemas.push(s);
        proof {
            let n = self.schemas@;
            assert forall|a: int, b: int| 0 <= a < b < n.len() implies #[trigger] n[a].schema_hash != #[trigger] n[b].schema_hash by {
                if b == before.len() {
                    assert(!(before[a].schema_hash == h));
                } else {
                    assert(before[a].schema_hash != before[b].schema_hash);
                }
            }
            let w = schema_at(n, h);
            assert(n[before.len() as int].schema_hash == h);
            if w < before.len() {
                assert(before[w].schema_hash != h);
            }
        }
        Ok(())
    }

    /// Registers a usable calibration for a registered schema under the active
    /// model and the schema's tokenizer; the same calibration again is a no-op.
    pub fn register_calibration(&mut self, c: Calibration, now: u64) -> (r: Result<(), Error>)
        requires
            old(self).wf(),
        ensures
            final(self).wf(),
            r == calibration_registration(*old(self), c, now),
            r is Ok ==> calibration_ok(c, now) && schema_known(old(self).schemas@, c.schema)
                && c.model == old(self).active_model
                && c.tokenizer == old(self).schemas@[schema_at(old(self).schemas@, c.schema)].tokenizer_hash,
            r is Ok ==> calibration_known(final(self).calibrations@, c.id),
            r is Ok && !calibration_known(old(self).calibrations@, c.id) ==> final(self).calibrations@
                == old(self).calibrations@.push(c),
            r is Err ==> *final(self) == *old(self),
            final(self).schemas == old(self).schemas && final(self).callers == old(self).callers,
            final(self).cache == old(self).cache && final(self).active_model == old(self).active_model,
    {
        c.validate(now)?;
        let si = match self.find_schema(&c.schema) {
            Some(j) => j,
            None => return Err(Error::NotFound),
        };
        if !digest_eq(&c.model, &self.active_model) || !digest_eq(&c.tokenizer, &self.schemas[si].tokenizer_hash) {
            return Err(Error::BindingMismatch);
        }
        match self.find_calibration(&c.id) {
            Some(j) => {
                let o = &self.calibrations[j];
                if digest_eq(&o.model, &c.model) && digest_eq(&o.schema, &c.schema) && digest_eq(&o.tokenizer, &c.tokenizer)
                    && o.temperature_bits == c.temperature_bits && o.expires_at_ns == c.expires_at_ns
                    && digest_eq(&o.holdout_hash, &c.holdout_hash) && o.sample_count == c.sample_count
                    && o.test_only == c.test_only {
                    return Ok(());
                }
                return Err(Error::IdConflict);
            },
            None => {},
        }
        if self.calibrations.len() >= 128 {
            return Err(Error::Capacity);
        }
        let ghost before = self.calibrations@;
        let id = c.id;
        self.calibrations.push(c);
        proof {
            let n = self.calibrations@;
            assert forall|a: int, b: int| 0 <= a < b < n.len() implies #[trigger] n[a].id != #[trigger] n[b].id by {
                if b == before.len() {
                    assert(!(before[a].id == id));
                } else {
                    assert(before[a].id != before[b].id);
                }
            }
            assert(n[before.len() as int].id == id);
        }
        Ok(())
    }

    /// Decides whether `req` may run: the checks of `request_admissible` in
    /// order, then the cache (the same request returns its cached result, a
    /// different one under a used id is `IdConflict`), then room in the cache
    /// (evicting results older than the acceptance window), then the caller's
    /// per-minute quota, which an admitted run consumes.
    pub fn admission(&mut self, caller: &Principal, req: &DecisionRequest, now: u64) -> (r: Result<Admission, Error>)
        requires
            old(self).wf(),
        ensures
            final(self).wf(),
            r is Err ==> final(self).cache@.len() <= old(self).cache@.len(),
            final(self).schemas == old(self).schemas && final(self).calibrations == old(self).calibrations,
            final(self).active_model == old(self).active_model,
            !request_admissible(*old(self), *caller, *req, now) ==> r is Err && final(self).cache == old(self).cache,
            !caller_known(old(self).callers@, caller@) ==> r == Err::<Admission, Error>(Error::Unauthorized),
            request_admissible(*old(self), *caller, *req, now) && cache_known(old(self).cache@, caller@, req.evaluation_id)
                ==> if old(self).cache@[cache_at(old(self).cache@, caller@, req.evaluation_id)].entry.fingerprint@
                == sha256(request_preimage(*req)) {
                r matches Ok(Admission::Cached(_)) && *final(self) == *old(self)
            } else {
                r == Err::<Admission, Error>(Error::IdConflict)
            },
            r matches Ok(Admission::Cached(x)) ==> cache_known(old(self).cache@, caller@, req.evaluation_id) && {
                let c = old(self).cache@[cache_at(old(self).cache@, caller@, req.evaluation_id)];
                &&& c.entry.fingerprint@ == sha256(request_preimage(*req))
                &&& (x is Ok <==> c.entry.result is Ok)
                &&& x matches Ok(rc) ==> receipt_same(rc, c.entry.result->Ok_0)
                &&& x matches Err(e) ==> error_same(e, c.entry.result->Err_0)
            },
            r matches Ok(Admission::Run { .. }) ==> run_admitted(*old(self), *final(self), caller@, now),
            !(r matches Ok(Admission::Run { .. })) ==> runs_this_minute(*final(self), caller@, now) == runs_this_minute(
                *old(self),
                caller@,
                now,
            ),
            request_admissible(*old(self), *caller, *req, now) && !cache_known(old(self).cache@, caller@, req.evaluation_id)
                && runs_this_minute(*old(self), caller@, now) >= per_minute(*old(self), caller@)
                ==> r == Err::<Admission, Error>(Error::Capacity),
            r matches Ok(Admission::Run { schema_index, temperature_bits }) ==> {
                &&& request_admissible(*old(self), *caller, *req, now)
                &&& !cache_known(old(self).cache@, caller@, req.evaluation_id)
                &&& schema_index == schema_at(old(self).schemas@, req.schema_hash)
                &&& temperature_bits == temperature_of(*old(self), *req)
                &&& final(self).cache@.len() < final(self).max_cache_entries
            },
    {
        let ci = match self.find_caller(caller) {
            Some(j) => j,
            None => return Err(Error::Unauthorized),
        };
        let n = req.state.as_str().as_bytes().len();
        if n > MAX_STATE_BYTES || n == 0 {
            return Err(Error::TooLong);
        }
        if req.expires_at_ns <= now || req.expires_at_ns - now > MAX_EVALUATION_WINDOW_NS {
            return Err(Error::Expired);
        }
        if !digest_eq(&req.model, &self.active_model) {
            return Err(Error::BindingMismatch);
        }
        let si = match self.find_schema(&req.schema_hash) {
            Some(j) => j,
            None => return Err(Error::NotFound),
        };
        let temperature_bits = match &req.calibration {
            Some(id) => {
                let k = match self.find_calibration(id) {
                    Some(k) => k,
                    None => return Err(Error::Uncalibrated),
                };
                let c = &self.calibrations[k];
                c.validate(now)?;
                if !digest_eq(&c.model, &req.model) || !digest_eq(&c.schema, &req.schema_hash)
                    || !digest_eq(&c.tokenizer, &self.schemas[si].tokenizer_hash) {
                    return Err(Error::BindingMismatch);
                }
                if req.expires_at_ns > c.expires_at_ns {
                    return Err(Error::Uncalibrated);
                }
                c.temperature_bits
            },
            None => UNIT_TEMPERATURE_BITS,
        };
        let fingerprint = req.digest();
        match self.find_cached(caller, &req.evaluation_id) {
            Some(j) => {
                proof {
                    let w = cache_at(self.cache@, caller@, req.evaluation_id);
                    assert(cache_known(self.cache@, caller@, req.evaluation_id));
                    if w < j {
                        assert(!(self.cache@[w].caller@ == self.cache@[j as int].caller@ && self.cache@[w].evaluation_id == self.cache@[j as int].evaluation_id));
                    } else if w > j {
                        assert(!(self.cache@[j as int].caller@ == self.cache@[w].caller@ && self.cache@[j as int].evaluation_id == self.cache@[w].evaluation_id));
                    }
                }
                if digest_eq(&self.cache[j].entry.fingerprint, &fingerprint) {
                    return Ok(Admission::Cached(copy_receipt_result(&self.cache[j].entry.result)));
                }
                return Err(Error::IdConflict);
            },
            None => {},
        }
        if self.cache.len() >= self.max_cache_entries as usize {
            let cutoff = now.saturating_sub(MAX_EVALUATION_WINDOW_NS);
            self.evict_before(cutoff);
            if self.cache.len() >= self.max_cache_entries as usize {
                return Err(Error::Capacity);
            }
        }
        let epoch = now / QUOTA_EPOCH_NS;
        let ghost start = *self;
        proof {
            lemma_caller_at(start.callers@, ci as int);
        }
        if self.callers[ci].quota.epoch != epoch {
            self.callers[ci].quota.epoch = epoch;
            self.callers[ci].quota.used = 0;
            proof {
                assert(self.callers@ =~= start.callers@.update(ci as int, self.callers@[ci as int]));
                assert forall|a: int, b: int| 0 <= a < b < self.callers@.len() implies #[trigger] self.callers@[a].caller@ != #[trigger] self.callers@[b].caller@ by {
                    assert(start.callers@[a].caller@ != start.callers@[b].caller@);
                }
                lemma_caller_at(self.callers@, ci as int);
            }
        }
        assert(self.callers@[ci as int].quota.used == runs_this_minute(start, caller@, now));
        if self.callers[ci].quota.used >= self.callers[ci].quota.max_per_minute {
            return Err(Error::Capacity);
        }
        let used = self.callers[ci].quota.used + 1;
        let ghost before = self.callers@;
        self.callers[ci].quota.used = used;
        proof {
            assert forall|a: int, b: int| 0 <= a < b < self.callers@.len() implies #[trigger] self.callers@[a].caller@ != #[trigger] self.callers@[b].caller@ by {
                assert(before[a].caller@ != before[b].caller@);
            }
            assert(self.callers@ =~= start.callers@.update(ci as int, CallerEntry {
                caller: start.callers@[ci as int].caller,
                quota: CallerQuota {
                    epoch: now / QUOTA_EPOCH_NS,
                    used: (runs_this_minute(start, caller@, now) + 1) as u32,
                    max_per_minute: start.callers@[ci as int].quota.max_per_minute,
                },
            }));
        }
        Ok(Admission::Run { schema_index: si, temperature_bits })
    }

    /// Drops cached results stored before `cutoff`, keeping the order of the rest.
    fn evict_before(&mut self, cutoff: u64)
        requires
            old(self).wf(),
        ensures
            final(self).wf(),
            final(self).cache@.len() <= old(self).cache@.len(),
            forall|j: int| 0 <= j < final(self).cache@.len() ==> #[trigger] final(self).cache@[j].entry.stored_at >= cutoff,
            final(self).schemas == old(self).schemas && final(self).calibrations == old(self).calibrations,
            final(self).callers == old(self).callers && final(self).active_model == old(self).active_model,
            final(self).max_cache_entries == old(self).max_cache_entries,
    {
        let mut kept: Vec<CacheEntry> = Vec::new();
        let ghost old_cache = self.cache@;
        let mut old_entries: Vec<CacheEntry> = Vec::new();
        std::mem::swap(&mut old_entries, &mut self.cache);
        let ghost orig = old_entries@;
        let mut i: usize = 0;
        let ghost mut picked: Seq<int> = Seq::empty();
        while i < old_entries.len()
            invariant
                i <= old_entries@.len(),
                old_entries@ == orig,
                kept@.len() <= i,
                picked.len() == kept@.len(),
                forall|a: int| 0 <= a < picked.len() ==> 0 <= #[trigger] picked[a] < i && kept@[a].caller@ == orig[picked[a]].caller@
                    && kept@[a].evaluation_id == orig[picked[a]].evaluation_id,
                forall|a: int, b: int| 0 <= a < b < picked.len() ==> #[trigger] picked[a] < #[trigger] picked[b],
                forall|a: int| 0 <= a < kept@.len() ==> #[trigger] kept@[a].entry.stored_at >= cutoff,
            decreases old_entries@.len() - i,
        {
            if old_entries[i].entry.stored_at >= cutoff {
                let e = CacheEntry {
                    caller: old_entries[i].caller.clone_principal(),
                    evaluation_id: old_entries[i].evaluation_id,
                    entry: Cached {
                        fingerprint: old_entries[i].entry.fingerprint,
                        result: copy_receipt_result(&old_entries[i].entry.result),
                        stored_at: old_entries[i].entry.stored_at,
                    },
                };
                kept.push(e);
                proof {
                    picked = picked.push(i as int);
                }
            }
            i = i + 1;
        }
        self.cache = kept;
        proof {
            assert(orig == old_cache);
            assert forall|a: int, b: int| 0 <= a < b < self.cache@.len() implies !(#[trigger] self.cache@[a].caller@ == #[trigger] self.cache@[b].caller@
                && self.cache@[a].evaluation_id == self.cache@[b].evaluation_id) by {
                assert(picked[a] < picked[b]);
                assert(!(orig[picked[a]].caller@ == orig[picked[b]].caller@ && orig[picked[a]].evaluation_id == orig[picked[b]].evaluation_id));
            }
        }
    }

    /// Turns what inference produced into the receipt and caches the result,
    /// failures included, under the caller and evaluation id. A distribution
    /// with a different number of classes than the schema has options is
    /// `BindingMismatch`.
    pub fn complete(
        &mut self,
        caller: &Principal,
        req: &DecisionRequest,
        now: u64,
        inferred: Result<Inference, Error>,
    ) -> (r: Result<Receipt, Error>)
        requires
            old(self).wf(),
            !cache_known(old(self).cache@, caller@, req.evaluation_id),
            schema_known(old(self).schemas@, req.schema_hash),
        ensures
            final(self).wf(),
            final(self).schemas == old(self).schemas && final(self).calibrations == old(self).calibrations,
            final(self).callers == old(self).callers && final(self).active_model == old(self).active_model,
            final(self).cache@.len() == old(self).cache@.len() + 1,
            final(self).cache@.drop_last() == old(self).cache@,
            ({
                let c = final(self).cache@.last();
                &&& c.caller@ == caller@ && c.evaluation_id == req.evaluation_id && c.entry.stored_at == now
                &&& c.entry.fingerprint@ == sha256(request_preimage(*req))
                &&& (r is Ok <==> c.entry.result is Ok)
                &&& r matches Ok(x) ==> receipt_same(x, c.entry.result->Ok_0)
                &&& r matches Err(x) ==> error_same(x, c.entry.result->Err_0)
            }),
            inferred is Err ==> r is Err && error_same(r->Err_0, inferred->Err_0),
            r matches Ok(rc) ==> {
                let s = old(self).schemas@[schema_at(old(self).schemas@, req.schema_hash)];
                let inf = inferred->Ok_0;
                &&& inferred is Ok
                &&& receipt_for(rc, *req, s, inf.input_tokens, inf.backend, inf.measured_instructions, inf.distribution@)
            },
            inferred matches Ok(inf) ==> (r is Ok <==> {
                let s = old(self).schemas@[schema_at(old(self).schemas@, req.schema_hash)];
                inf.distribution@.len() == s.schema.options@.len() && value_shape_ok(s.schema, inf.distribution@.len() as int)
            }),
    {
        let fingerprint = req.digest();
        let si = match self.find_schema(&req.schema_hash) {
            Some(j) => j,
            None => 0,
        };
        let result: Result<Receipt, Error> = match inferred {
            Err(e) => Err(e),
            Ok(inf) => {
                let s = &self.schemas[si];
                if inf.distribution.as_slice().len() != s.schema.options.len() {
                    Err(Error::BindingMismatch)
                } else {
                    match value(&s.schema, &inf.distribution) {
                        Err(e) => Err(e),
                        Ok(v) => {
                            let stamp = Stamp {
                                evaluation_id: req.evaluation_id,
                                schema_hash: req.schema_hash,
                                tokenizer_hash: s.tokenizer_hash,
                                model: req.model,
                                calibration: match &req.calibration {
                                    Some(x) => Some(*x),
                                    None => None,
                                },
                                binding: match &req.binding {
                                    Some(b) => Some(Binding { workflow: b.workflow, slot: b.slot, attempt: b.attempt, snapshot: b.snapshot }),
                                    None => None,
                                },
                                state_hash: hash(req.state.as_str().as_bytes()),
                                profile: String::from_str(PROFILE),
                                backend: inf.backend,
                            };
                            Ok(Receipt {
                                stamp,
                                outcome: EvaluationOutcome::Assessed(v),
                                diagnostics: Some(inf.distribution.diagnostics()),
                                input_tokens: inf.input_tokens,
                                measured_instructions: inf.measured_instructions,
                            })
                        },
                    }
                }
            },
        };
        let stored = copy_receipt_result(&result);
        let ghost before = self.cache@;
        let eid = req.evaluation_id;
        self.cache.push(CacheEntry {
            caller: caller.clone_principal(),
            evaluation_id: eid,
            entry: Cached { fingerprint, result: stored, stored_at: now },
        });
        proof {
            let n = self.cache@;
            assert forall|a: int, b: int| 0 <= a < b < n.len() implies !(#[trigger] n[a].caller@ == #[trigger] n[b].caller@
                && n[a].evaluation_id == n[b].evaluation_id) by {
                if b == before.len() {
                    assert(!(before[a].caller@ == caller@ && before[a].evaluation_id == eid));
                } else {
                    assert(!(before[a].caller@ == before[b].caller@ && before[a].evaluation_id == before[b].evaluation_id));
                }
            }
            assert(n.drop_last() =~= before);
        }
        result
    }
}

/// A completed request is answered from the cache when it comes again: after
/// `complete` appends its entry, the caller's evaluation id is known and its
/// entry carries the request's fingerprint, so `admission` returns `Cached`
/// for the same request (and `IdConflict` for a different one under that id).
pub proof fn law_repeated_request_is_cached(s: EngineState, t: EngineState, caller: Principal, req: DecisionRequest)
    requires
        t.wf(),
        t.cache@.len() == s.cache@.len() + 1,
        t.cache@.last().caller@ == caller@ && t.cache@.last().evaluation_id == req.evaluation_id,
        t.cache@.last().entry.fingerprint@ == sha256(request_preimage(req)),
    ensures
        cache_known(t.cache@, caller@, req.evaluation_id),
        t.cache@[cache_at(t.cache@, caller@, req.evaluation_id)] == t.cache@.last(),
        t.cache@[cache_at(t.cache@, caller@, req.evaluation_id)].entry.fingerprint@ == sha256(request_preimage(req)),
{
    let n = t.cache@.len() - 1;
    assert(t.cache@[n].caller@ == caller@ && t.cache@[n].evaluation_id == req.evaluation_id);
    let w = cache_at(t.cache@, caller@, req.evaluation_id);
    if w != n {
        if w < n {
            assert(!(t.cache@[w].caller@ == t.cache@[n].caller@ && t.cache@[w].evaluation_id == t.cache@[n].evaluation_id));
        }
    }
}


/// The index of an allowed caller is where it stands (callers are distinct).
proof fn lemma_caller_at(cs: Seq<CallerEntry>, j: int)
    requires
        0 <= j < cs.len(),
        forall|a: int, b: int| 0 <= a < b < cs.len() ==> #[trigger] cs[a].caller@ != #[trigger] cs[b].caller@,
    ensures
        caller_known(cs, cs[j].caller@),
        caller_at(cs, cs[j].caller@) == j,
{
    assert(caller_known(cs, cs[j].caller@));
    let w = caller_at(cs, cs[j].caller@);
    if w < j {
        assert(cs[w].caller@ != cs[j].caller@);
    } else if w > j {
        assert(cs[j].caller@ != cs[w].caller@);
    }
}

/// One admitted run: the caller's runs in that minute grow by exactly one and
/// stay within its quota, which does not change.
pub proof fn law_run_uses_one_unit(s: EngineState, t: EngineState, p: Seq<u8>, now: u64)
    requires
        run_admitted(s, t, p, now),
    ensures
        caller_known(t.callers@, p),
        runs_this_minute(t, p, now) == runs_this_minute(s, p, now) + 1,
        runs_this_minute(t, p, now) <= per_minute(t, p),
        per_minute(t, p) == per_minute(s, p),
{
    let i = caller_at(s.callers@, p);
    assert(t.callers@[i].caller@ == p);
    lemma_caller_at(t.callers@, i);
}

/// Within one minute a caller runs at most its quota: after a sequence of
/// admitted runs in that minute, the runs counted for it are the runs before
/// plus one per admission, and never above the quota.
pub proof fn law_runs_per_minute(s: Seq<EngineState>, p: Seq<u8>, nows: Seq<u64>)
    requires
        s.len() == nows.len() + 1,
        forall|i: int| 0 <= i < nows.len() ==> run_admitted(#[trigger] s[i], s[i + 1], p, nows[i]),
        forall|i: int| 0 <= i < nows.len() ==> #[trigger] nows[i] / QUOTA_EPOCH_NS == nows[0] / QUOTA_EPOCH_NS,
    ensures
        nows.len() > 0 ==> runs_this_minute(s.last(), p, nows[0]) == runs_this_minute(s[0], p, nows[0]) + nows.len()
            && runs_this_minute(s.last(), p, nows[0]) <= per_minute(s[0], p),
        per_minute(s.last(), p) == per_minute(s[0], p),
    decreases nows.len(),
{
    if nows.len() > 1 {
        let n = nows.len() - 1;
        let s2 = s.drop_last();
        let n2 = nows.drop_last();
        assert forall|i: int| 0 <= i < n2.len() implies run_admitted(#[trigger] s2[i], s2[i + 1], p, n2[i]) by {
            assert(s2[i] == s[i] && s2[i + 1] == s[i + 1] && n2[i] == nows[i]);
            assert(run_admitted(s[i], s[i + 1], p, nows[i]));
        }
        assert forall|i: int| 0 <= i < n2.len() implies #[trigger] n2[i] / QUOTA_EPOCH_NS == n2[0] / QUOTA_EPOCH_NS by {
            assert(n2[i] == nows[i]);
            assert(nows[i] / QUOTA_EPOCH_NS == nows[0] / QUOTA_EPOCH_NS);
        }
        law_runs_per_minute(s2, p, n2);
        assert(run_admitted(s[n], s[n + 1], p, nows[n]));
        law_run_uses_one_unit(s[n], s[n + 1], p, nows[n]);
        assert(nows[n] / QUOTA_EPOCH_NS == nows[0] / QUOTA_EPOCH_NS);
        assert(s2.last() == s[n]);
        assert(s2[0] == s[0]);
        assert(n2[0] == nows[0]);
        lemma_runs_same_minute(s[n], p, nows[n], nows[0]);
        lemma_runs_same_minute(s[n + 1], p, nows[n], nows[0]);
    } else if nows.len() == 1 {
        assert(run_admitted(s[0], s[1], p, nows[0]));
        law_run_uses_one_unit(s[0], s[1], p, nows[0]);
    }
}

proof fn lemma_runs_same_minute(s: EngineState, p: Seq<u8>, a: u64, b: u64)
    requires
        a / QUOTA_EPOCH_NS == b / QUOTA_EPOCH_NS,
    ensures
        runs_this_minute(s, p, a) == runs_this_minute(s, p, b),
{
}

} // verus!
