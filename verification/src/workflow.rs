//! ML-independent workflow: registered plans, delegated grants with budget
//! reservations, and outcome-unknown ledger handling. Mutating methods validate
//! first and then commit their in-memory transition.
use vstd::prelude::*;
use vstd::string::StringExecFns;
use vstd::string::StringSliceAdditionalSpecFns;
use crate::schema::{compiled_consistent, schema_valid, validate_compiled};
use crate::same::{
    binding_eq, binding_same, copy_error, copy_request, diagnostics_eq, error_same, opt_digest_eq,
    opt_digest_same, plan_eq, plan_same, receipt_eq, receipt_same, request_same,
};
use crate::math::{
    diag_of, is_first_max, is_runner_up, is_value_of, lemma_diag_unique, lemma_first_max_unique, mass_sum,
    valid_mass, validate_value, value_shape_ok,
};
use crate::text::{all_white, is_blank, str_eq};
use crate::types::{
    be64, digest_eq, digest_is_zero, frame, proposal_error, proposal_preimage, proposal_valid,
    sha256, anonymous_bytes, party, sbytes, Account, Canonical, CompiledSchema, DecisionRequest, Digest, Error, Primitive,
    Principal, Receipt, TransferProposal, Binding, BackendKind, MAX_TOKENS, DecisionValue, EvaluationOutcome, Schema, Stamp,
    hash, PROFILE,
    MAX_STATE_BYTES, PPM, MAX_SLOTS,
};

verus! {

pub const MAX_REQUESTS: usize = 512;
pub const MAX_REGISTRY: usize = 64;
pub const MOCK_DEDUP_WINDOW_NS: u64 = 60_000_000_000;

#[derive(Debug, Clone, Copy, PartialEq, Eq)]
pub enum Mode {
    ReportOnly,
    Shadow,
    Mock,
    LimitedLive,
}

#[derive(Debug, Clone, PartialEq, Eq)]
pub enum Rule {
    NoulTrue { minimum_ppm: u32 },
    ChoiceIs { option_id: String, minimum_ppm: u32 },
    ScoreTailAtMost { first_bad_bin: u32, maximum_ppm: u32 },
}

#[derive(Debug, Clone, PartialEq, Eq)]
pub struct RequiredSignal {
    pub schema: CompiledSchema,
    pub calibration: Digest,
    pub rule: Rule,
}

#[derive(Debug, Clone, PartialEq, Eq)]
pub struct Plan {
    pub id: Digest,
    pub version: u64,
    pub model: Digest,
    pub signals: Vec<RequiredSignal>,
}

pub open spec fn is_zero(d: Digest) -> bool {
    forall|j: int| 0 <= j < 32 ==> d@[j] == 0
}

/// The rule fits the signal's schema: its primitive, an existing option, a
/// bin inside the scale, and thresholds of at most one million.
pub open spec fn rule_fits(s: RequiredSignal) -> bool {
    let sc = s.schema.schema;
    match s.rule {
        Rule::NoulTrue { minimum_ppm } => sc.primitive == Primitive::Noul && minimum_ppm <= PPM,
        Rule::ChoiceIs { option_id, minimum_ppm } => sc.primitive == Primitive::Choice
            && minimum_ppm <= PPM && exists|i: int|
            0 <= i < sc.options@.len() && #[trigger] sc.options@[i].id@ == option_id@,
        Rule::ScoreTailAtMost { first_bad_bin, maximum_ppm } => sc.primitive == Primitive::Score
            && (first_bad_bin as int) < sc.options@.len() && maximum_ppm <= PPM,
    }
}

pub open spec fn signal_valid(s: RequiredSignal) -> bool {
    &&& schema_valid(s.schema.schema)
    &&& compiled_consistent(s.schema)
    &&& !is_zero(s.calibration)
    &&& rule_fits(s)
}

pub open spec fn plan_header_ok(p: Plan) -> bool {
    p.version != 0 && !is_zero(p.id) && !is_zero(p.model) && 0 < p.signals@.len() <= MAX_SLOTS
}

pub open spec fn plan_valid(p: Plan) -> bool {
    plan_header_ok(p) && forall|i: int| 0 <= i < p.signals@.len() ==> signal_valid(#[trigger] p.signals@[i])
}

/// The error a failing signal yields, in the order the checks run.
pub open spec fn signal_error(s: RequiredSignal, e: Error) -> bool {
    if !schema_valid(s.schema.schema) {
        e is Invalid
    } else if !compiled_consistent(s.schema) {
        e == Error::BindingMismatch
    } else if is_zero(s.calibration) {
        e == Error::Uncalibrated
    } else {
        e is Invalid
    }
}

fn rule_check(s: &RequiredSignal) -> (ok: bool)
    ensures
        ok == rule_fits(*s),
{
    let sc = &s.schema.schema;
    match &s.rule {
        Rule::NoulTrue { minimum_ppm } => sc.primitive.is(Primitive::Noul) && *minimum_ppm <= PPM,
        Rule::ChoiceIs { option_id, minimum_ppm } => {
            if !sc.primitive.is(Primitive::Choice) || *minimum_ppm > PPM {
                return false;
            }
            let mut i: usize = 0;
            while i < sc.options.len()
                invariant
                    s.rule == (Rule::ChoiceIs { option_id: *option_id, minimum_ppm: *minimum_ppm }),
                    *sc == s.schema.schema,
                    sc.primitive == Primitive::Choice,
                    *minimum_ppm <= PPM,
                    i <= sc.options@.len(),
                    forall|k: int| 0 <= k < i ==> #[trigger] sc.options@[k].id@ != option_id@,
                decreases sc.options@.len() - i,
            {
                if sc.options[i].id == *option_id {
                    assert(sc.options@[i as int].id@ == option_id@);
                    return true;
                }
                i = i + 1;
            }
            false
        },
        Rule::ScoreTailAtMost { first_bad_bin, maximum_ppm } => sc.primitive.is(Primitive::Score)
            && (*first_bad_bin as usize) < sc.options.len() && *maximum_ppm <= PPM,
    }
}

impl Plan {
    /// Accepts a plan whose header is sound and whose every signal is; otherwise
    /// the header error (`Invalid`) or the first failing signal's error.
    pub fn validate(&self) -> (r: Result<(), Error>)
        ensures
            r is Ok <==> plan_valid(*self),
            r matches Err(e) ==> if !plan_header_ok(*self) {
                e matches Error::Invalid(m) && m@ == "plan"@
            } else {
                exists|k: int|
                    0 <= k < self.signals@.len() && !signal_valid(self.signals@[k]) && (forall|j: int|
                        0 <= j < k ==> signal_valid(#[trigger] self.signals@[j])) && signal_error(
                        self.signals@[k],
                        e,
                    )
            },
    {
        if self.version == 0 || digest_is_zero(&self.id) || digest_is_zero(&self.model)
            || self.signals.len() == 0 || self.signals.len() > MAX_SLOTS {
            return Err(Error::Invalid(String::from_str("plan")));
        }
        let mut i: usize = 0;
        while i < self.signals.len()
            invariant
                plan_header_ok(*self),
                i <= self.signals@.len(),
                forall|j: int| 0 <= j < i ==> signal_valid(#[trigger] self.signals@[j]),
            decreases self.signals@.len() - i,
        {
            let s = &self.signals[i];
            match validate_compiled(&s.schema) {
                Ok(()) => {},
                Err(e) => {
                    assert(!signal_valid(*s) && signal_error(*s, e));
                    return Err(e);
                },
            }
            if digest_is_zero(&s.calibration) {
                assert(!signal_valid(*s) && signal_error(*s, Error::Uncalibrated));
                return Err(Error::Uncalibrated);
            }
            if !rule_check(s) {
                let e = Error::Invalid(String::from_str("rule/schema mismatch"));
                assert(!signal_valid(*s) && signal_error(*s, e));
                return Err(e);
            }
            i = i + 1;
        }
        Ok(())
    }
}


#[derive(Debug, Clone, PartialEq, Eq)]
pub enum OperationStatus {
    Available,
    Reserved(Digest),
    Consumed(Digest),
}

/// A trusted business operation: evidence for the engine and the transfer it
/// would make.
#[derive(Debug, Clone, PartialEq, Eq)]
pub struct Operation {
    pub id: Digest,
    pub revision: u64,
    pub evidence: String,
    pub proposal: TransferProposal,
    pub status: OperationStatus,
}

/// What a grant has spent and holds in reservations.
#[derive(Debug, Clone, Copy, PartialEq, Eq)]
pub struct Usage {
    pub spent: u128,
    pub reserved: u128,
}

impl Default for Usage {
    fn default() -> (u: Usage)
        ensures
            u == (Usage { spent: 0, reserved: 0 }),
    {
        Usage { spent: 0, reserved: 0 }
    }
}

/// The usage recorded for one window epoch (`now / window_ns`).
#[derive(Debug, Clone, Copy, PartialEq, Eq)]
pub struct WindowUsage {
    pub epoch: u64,
    pub usage: Usage,
}

/// A delegation: who may spend, on which plan, ledger and recipients, and how much.
#[derive(Debug, Clone, PartialEq, Eq)]
pub struct Grant {
    pub id: Digest,
    pub revision: u64,
    pub delegate: Principal,
    pub plan: Digest,
    pub ledger: Principal,
    pub from_subaccount: Digest,
    pub recipients: Vec<Account>,
    pub max_amount: u128,
    pub max_fee: u128,
    pub total_cap: u128,
    pub window_cap: u128,
    pub window_ns: u64,
    pub expires_at_ns: u64,
    pub revoked: bool,
    pub total: Usage,
    pub windows: Vec<WindowUsage>,
}

pub open spec fn epochs_unique(ws: Seq<WindowUsage>) -> bool {
    forall|i: int, j: int| 0 <= i < j < ws.len() ==> #[trigger] ws[i].epoch != #[trigger] ws[j].epoch
}

pub open spec fn has_window(ws: Seq<WindowUsage>, e: u64) -> bool {
    exists|i: int| 0 <= i < ws.len() && #[trigger] ws[i].epoch == e
}

/// The usage of epoch `e`; zero for an epoch with no entry.
pub open spec fn window_of(ws: Seq<WindowUsage>, e: u64) -> Usage {
    if has_window(ws, e) {
        ws[choose|i: int| 0 <= i < ws.len() && #[trigger] ws[i].epoch == e].usage
    } else {
        Usage { spent: 0, reserved: 0 }
    }
}

proof fn lemma_window_at(ws: Seq<WindowUsage>, i: int)
    requires
        epochs_unique(ws),
        0 <= i < ws.len(),
    ensures
        has_window(ws, ws[i].epoch),
        window_of(ws, ws[i].epoch) == ws[i].usage,
{
    let e = ws[i].epoch;
    assert(has_window(ws, e));
    let k = choose|k: int| 0 <= k < ws.len() && #[trigger] ws[k].epoch == e;
    if k != i {
        if k < i {
            assert(ws[k].epoch != ws[i].epoch);
        } else {
            assert(ws[i].epoch != ws[k].epoch);
        }
    }
}

pub open spec fn listed(rs: Seq<Account>, a: Account) -> bool {
    exists|i: int| 0 <= i < rs.len() && #[trigger] rs[i]@ == a@
}

/// The delegate may act on the proposal under this grant now.
pub open spec fn grant_admits_caller(g: Grant, caller: Principal, now: u64) -> bool {
    caller@ == g.delegate@ && !g.revoked && g.expires_at_ns > now
}

pub open spec fn grant_covers(g: Grant, p: TransferProposal) -> bool {
    &&& g.ledger@ == p.ledger@
    &&& g.from_subaccount@ == p.from_subaccount@
    &&& listed(g.recipients@, p.to)
    &&& p.amount <= g.max_amount
    &&& p.fee <= g.max_fee
}

pub open spec fn eligible_spec(g: Grant, caller: Principal, p: TransferProposal, now: u64) -> bool {
    grant_admits_caller(g, caller, now) && grant_covers(g, p) && proposal_valid(p)
}

/// The error `Grant::eligible` gives on an ineligible request.
pub open spec fn eligible_error(
    g: Grant,
    caller: Principal,
    p: TransferProposal,
    now: u64,
    e: Error,
) -> bool {
    if !grant_admits_caller(g, caller, now) {
        e == Error::Unauthorized
    } else if !grant_covers(g, p) {
        e matches Error::Denied(m) && m@ == "ledger/account/amount/fee"@
    } else {
        proposal_error(p, e)
    }
}

/// The grant after reserving `charge` in `epoch`: the total and that window hold
/// `charge` more; everything else is as it was.
pub open spec fn reserved_from(old: Grant, new: Grant, charge: u128, epoch: u64) -> bool {
    &&& new.id == old.id && new.revision == old.revision && new.delegate == old.delegate
    &&& new.plan == old.plan && new.ledger == old.ledger && new.from_subaccount == old.from_subaccount
    &&& new.recipients == old.recipients && new.max_amount == old.max_amount
    &&& new.max_fee == old.max_fee && new.total_cap == old.total_cap
    &&& new.window_cap == old.window_cap && new.window_ns == old.window_ns
    &&& new.expires_at_ns == old.expires_at_ns && new.revoked == old.revoked
    &&& new.total.spent == old.total.spent
    &&& new.total.reserved == old.total.reserved + charge
    &&& epochs_unique(new.windows@)
    &&& has_window(new.windows@, epoch)
    &&& window_of(new.windows@, epoch).spent == window_of(old.windows@, epoch).spent
    &&& window_of(new.windows@, epoch).reserved == window_of(old.windows@, epoch).reserved + charge
    &&& forall|e: u64| e != epoch ==> (has_window(new.windows@, e) == has_window(old.windows@, e)
        && window_of(new.windows@, e) == window_of(old.windows@, e))
}

/// The grant after settling a reservation of `charge` in `epoch`: the reserved
/// amounts drop by `charge`, and on success the spent amounts rise by it.
pub open spec fn settled_from(old: Grant, new: Grant, charge: u128, epoch: u64, success: bool) -> bool {
    let w = window_of(old.windows@, epoch);
    &&& new.id == old.id && new.revision == old.revision && new.delegate == old.delegate
    &&& new.plan == old.plan && new.ledger == old.ledger && new.from_subaccount == old.from_subaccount
    &&& new.recipients == old.recipients && new.max_amount == old.max_amount
    &&& new.max_fee == old.max_fee && new.total_cap == old.total_cap
    &&& new.window_cap == old.window_cap && new.window_ns == old.window_ns
    &&& new.expires_at_ns == old.expires_at_ns && new.revoked == old.revoked
    &&& new.total.spent == old.total.spent + if success { charge as int } else { 0 }
    &&& new.total.reserved == old.total.reserved - charge
    &&& epochs_unique(new.windows@)
    &&& has_window(new.windows@, epoch)
    &&& window_of(new.windows@, epoch).spent == w.spent + if success { charge as int } else { 0 }
    &&& window_of(new.windows@, epoch).reserved == w.reserved - charge
    &&& forall|e: u64| e != epoch ==> (has_window(new.windows@, e) == has_window(old.windows@, e)
        && window_of(new.windows@, e) == window_of(old.windows@, e))
}

/// When `reserve` succeeds: room for another window if the epoch is new, and the
/// charge fits both caps.
pub open spec fn reserve_ok(g: Grant, charge: u128, epoch: u64) -> bool {
    let w = window_of(g.windows@, epoch);
    &&& has_window(g.windows@, epoch) || g.windows@.len() < 64
    &&& g.total.spent + g.total.reserved + charge <= g.total_cap
    &&& w.spent + w.reserved + charge <= g.window_cap
}

/// When `settle` succeeds: the window exists, both reserved amounts cover the
/// charge, and on success the spent amounts do not overflow.
pub open spec fn settle_ok(g: Grant, charge: u128, epoch: u64, success: bool) -> bool {
    let w = window_of(g.windows@, epoch);
    &&& has_window(g.windows@, epoch)
    &&& charge <= g.total.reserved && charge <= w.reserved
    &&& success ==> g.total.spent + charge <= u128::MAX && w.spent + charge <= u128::MAX
}

fn find_window(ws: &Vec<WindowUsage>, epoch: u64) -> (r: Option<usize>)
    requires
        epochs_unique(ws@),
    ensures
        r is None <==> !has_window(ws@, epoch),
        r matches Some(i) ==> i < ws@.len() && ws@[i as int].epoch == epoch && window_of(ws@, epoch)
            == ws@[i as int].usage,
{
    let mut i: usize = 0;
    while i < ws.len()
        invariant
            i <= ws@.len(),
            epochs_unique(ws@),
            forall|k: int| 0 <= k < i ==> #[trigger] ws@[k].epoch != epoch,
        decreases ws@.len() - i,
    {
        if ws[i].epoch == epoch {
            proof {
                lemma_window_at(ws@, i as int);
            }
            return Some(i);
        }
        i = i + 1;
    }
    None
}

proof fn lemma_window_update(ws: Seq<WindowUsage>, i: int, u: Usage)
    requires
        epochs_unique(ws),
        0 <= i < ws.len(),
    ensures
        epochs_unique(ws.update(i, WindowUsage { epoch: ws[i].epoch, usage: u })),
        forall|e: u64| #[trigger]
            has_window(ws.update(i, WindowUsage { epoch: ws[i].epoch, usage: u }), e) == has_window(ws, e),
        window_of(ws.update(i, WindowUsage { epoch: ws[i].epoch, usage: u }), ws[i].epoch) == u,
        forall|e: u64| e != ws[i].epoch ==> #[trigger] window_of(
            ws.update(i, WindowUsage { epoch: ws[i].epoch, usage: u }),
            e,
        ) == window_of(ws, e),
{
    let n = ws.update(i, WindowUsage { epoch: ws[i].epoch, usage: u });
    assert forall|a: int, b: int| 0 <= a < b < n.len() implies #[trigger] n[a].epoch != #[trigger] n[b].epoch by {
        assert(ws[a].epoch != ws[b].epoch);
    }
    assert forall|e: u64| #[trigger] has_window(n, e) == has_window(ws, e) by {
        if has_window(ws, e) {
            let k = choose|k: int| 0 <= k < ws.len() && #[trigger] ws[k].epoch == e;
            assert(n[k].epoch == e);
        }
        if has_window(n, e) {
            let k = choose|k: int| 0 <= k < n.len() && #[trigger] n[k].epoch == e;
            assert(ws[k].epoch == e);
        }
    }
    lemma_window_at(n, i);
    assert forall|e: u64| e != ws[i].epoch implies #[trigger] window_of(n, e) == window_of(ws, e) by {
        if has_window(ws, e) {
            let k = choose|k: int| 0 <= k < ws.len() && #[trigger] ws[k].epoch == e;
            lemma_window_at(ws, k);
            lemma_window_at(n, k);
        }
    }
}

proof fn lemma_window_push(ws: Seq<WindowUsage>, w: WindowUsage)
    requires
        epochs_unique(ws),
        !has_window(ws, w.epoch),
    ensures
        epochs_unique(ws.push(w)),
        has_window(ws.push(w), w.epoch),
        window_of(ws.push(w), w.epoch) == w.usage,
        forall|e: u64| e != w.epoch ==> #[trigger] has_window(ws.push(w), e) == has_window(ws, e),
        forall|e: u64| e != w.epoch ==> #[trigger] window_of(ws.push(w), e) == window_of(ws, e),
{
    let n = ws.push(w);
    assert forall|a: int, b: int| 0 <= a < b < n.len() implies #[trigger] n[a].epoch != #[trigger] n[b].epoch by {
        if b == ws.len() {
            assert(ws[a].epoch != w.epoch);
        } else {
            assert(ws[a].epoch != ws[b].epoch);
        }
    }
    lemma_window_at(n, ws.len() as int);
    assert forall|e: u64| e != w.epoch implies #[trigger] has_window(n, e) == has_window(ws, e) by {
        if has_window(ws, e) {
            let k = choose|k: int| 0 <= k < ws.len() && #[trigger] ws[k].epoch == e;
            assert(n[k].epoch == e);
        }
        if has_window(n, e) {
            let k = choose|k: int| 0 <= k < n.len() && #[trigger] n[k].epoch == e;
            assert(ws[k].epoch == e);
        }
    }
    assert forall|e: u64| e != w.epoch implies #[trigger] window_of(n, e) == window_of(ws, e) by {
        if has_window(ws, e) {
            let k = choose|k: int| 0 <= k < ws.len() && #[trigger] ws[k].epoch == e;
            lemma_window_at(ws, k);
            lemma_window_at(n, k);
        }
    }
}

impl Grant {
    fn admits(&self, caller: &Principal, now: u64) -> (r: bool)
        ensures
            r == grant_admits_caller(*self, *caller, now),
    {
        caller.same(&self.delegate) && !self.revoked && self.expires_at_ns > now
    }

    fn lists(&self, a: &Account) -> (r: bool)
        ensures
            r == listed(self.recipients@, *a),
    {
        let mut i: usize = 0;
        while i < self.recipients.len()
            invariant
                i <= self.recipients@.len(),
                forall|k: int| 0 <= k < i ==> #[trigger] self.recipients@[k]@ != a@,
            decreases self.recipients@.len() - i,
        {
            let x = &self.recipients[i];
            if x.owner.same(&a.owner) && digest_eq(&x.subaccount, &a.subaccount) {
                assert(self.recipients@[i as int]@ == a@);
                return true;
            }
            i = i + 1;
        }
        false
    }

    /// The delegate, before expiry and revocation, on the grant's ledger, account,
    /// recipients and limits, with a valid proposal.
    pub fn eligible(&self, caller: &Principal, p: &TransferProposal, now: u64) -> (r: Result<(), Error>)
        ensures
            r is Ok <==> eligible_spec(*self, *caller, *p, now),
            r matches Err(e) ==> eligible_error(*self, *caller, *p, now, e),
    {
        if !self.admits(caller, now) {
            return Err(Error::Unauthorized);
        }
        if !self.ledger.same(&p.ledger) || !digest_eq(&self.from_subaccount, &p.from_subaccount) || !self.lists(&p.to)
            || p.amount > self.max_amount || p.fee > self.max_fee {
            return Err(Error::Denied(String::from_str("ledger/account/amount/fee")));
        }
        p.validate()
    }

    /// Whether `reserve` would succeed, and its error if not.
    pub fn check_reserve(&self, charge: u128, epoch: u64) -> (r: Result<(), Error>)
        requires
            epochs_unique(self.windows@),
        ensures
            r is Ok <==> reserve_ok(*self, charge, epoch),
            r matches Err(e) ==> if !has_window(self.windows@, epoch) && self.windows@.len() >= 64 {
                e == Error::Capacity
            } else {
                e == Error::Budget
            },
    {
        let found = find_window(&self.windows, epoch);
        if found.is_none() && self.windows.len() >= 64 {
            return Err(Error::Capacity);
        }
        let w = match found {
            Some(i) => self.windows[i].usage,
            None => Usage { spent: 0, reserved: 0 },
        };
        let total = match self.total.spent.checked_add(self.total.reserved) {
            Some(x) => match x.checked_add(charge) {
                Some(y) => y,
                None => return Err(Error::Budget),
            },
            None => return Err(Error::Budget),
        };
        let win = match w.spent.checked_add(w.reserved) {
            Some(x) => match x.checked_add(charge) {
                Some(y) => y,
                None => return Err(Error::Budget),
            },
            None => return Err(Error::Budget),
        };
        if total > self.total_cap || win > self.window_cap {
            return Err(Error::Budget);
        }
        Ok(())
    }

    /// Holds `charge` against the total and the epoch's window. `Capacity` when a
    /// new window would exceed 64 entries, `Budget` when either cap would be passed.
    pub fn reserve(&mut self, charge: u128, epoch: u64) -> (r: Result<(), Error>)
        requires
            epochs_unique(old(self).windows@),
        ensures
            r is Ok <==> reserve_ok(*old(self), charge, epoch),
            r is Ok ==> reserved_from(*old(self), *final(self), charge, epoch),
            r matches Err(e) ==> *final(self) == *old(self) && if !has_window(old(self).windows@, epoch)
                && old(self).windows@.len() >= 64 {
                e == Error::Capacity
            } else {
                e == Error::Budget
            },
    {
        self.check_reserve(charge, epoch)?;
        let found = find_window(&self.windows, epoch);
        let w = match found {
            Some(i) => self.windows[i].usage,
            None => Usage { spent: 0, reserved: 0 },
        };
        let nu = Usage { spent: w.spent, reserved: w.reserved + charge };
        self.total.reserved = self.total.reserved + charge;
        let ghost before = self.windows@;
        match found {
            Some(i) => {
                self.windows[i].usage = nu;
                proof {
                    assert(self.windows@ =~= before.update(i as int, WindowUsage { epoch, usage: nu }));
                    lemma_window_update(before, i as int, nu);
                }
            },
            None => {
                self.windows.push(WindowUsage { epoch, usage: nu });
                proof {
                    lemma_window_push(before, WindowUsage { epoch, usage: nu });
                }
            },
        }
        Ok(())
    }

    /// Releases a reservation of `charge` in `epoch`; on success it becomes spent.
    /// `Storage` when no such reservation is recorded, `Budget` on overflow.
    pub fn settle(&mut self, charge: u128, epoch: u64, success: bool) -> (r: Result<(), Error>)
        requires
            epochs_unique(old(self).windows@),
        ensures
            r is Ok <==> settle_ok(*old(self), charge, epoch, success),
            r is Ok ==> settled_from(*old(self), *final(self), charge, epoch, success),
            r is Err ==> *final(self) == *old(self),
    {
        let i = match find_window(&self.windows, epoch) {
            Some(i) => i,
            None => return Err(Error::Storage),
        };
        let w = self.windows[i].usage;
        if self.total.reserved < charge || w.reserved < charge {
            return Err(Error::Storage);
        }
        let ts = if success {
            match self.total.spent.checked_add(charge) {
                Some(x) => x,
                None => return Err(Error::Budget),
            }
        } else {
            self.total.spent
        };
        let ws = if success {
            match w.spent.checked_add(charge) {
                Some(x) => x,
                None => return Err(Error::Budget),
            }
        } else {
            w.spent
        };
        let nu = Usage { spent: ws, reserved: w.reserved - charge };
        self.total = Usage { spent: ts, reserved: self.total.reserved - charge };
        let ghost before = self.windows@;
        self.windows[i].usage = nu;
        proof {
            assert(self.windows@ =~= before.update(i as int, WindowUsage { epoch, usage: nu }));
            lemma_window_update(before, i as int, nu);
        }
        Ok(())
    }
}

/// Reserving a charge and then releasing it without success leaves the grant's
/// total and every window's usage as they were.
pub proof fn law_release_restores_usage(g0: Grant, g1: Grant, g2: Grant, charge: u128, epoch: u64)
    requires
        reserved_from(g0, g1, charge, epoch),
        settled_from(g1, g2, charge, epoch, false),
    ensures
        g2.total == g0.total,
        forall|e: u64| #[trigger] window_of(g2.windows@, e) == window_of(g0.windows@, e),
{
    assert forall|e: u64| #[trigger] window_of(g2.windows@, e) == window_of(g0.windows@, e) by {
        if e != epoch {
        }
    }
}

/// Reserving a charge and then settling it successfully moves exactly that charge
/// from nothing into spent, in the total and in the epoch's window.
pub proof fn law_success_spends_the_charge(g0: Grant, g1: Grant, g2: Grant, charge: u128, epoch: u64)
    requires
        reserved_from(g0, g1, charge, epoch),
        settled_from(g1, g2, charge, epoch, true),
    ensures
        g2.total.spent == g0.total.spent + charge,
        g2.total.reserved == g0.total.reserved,
        window_of(g2.windows@, epoch).spent == window_of(g0.windows@, epoch).spent + charge,
        window_of(g2.windows@, epoch).reserved == window_of(g0.windows@, epoch).reserved,
        forall|e: u64| e != epoch ==> #[trigger] window_of(g2.windows@, e) == window_of(g0.windows@, e),
{
}


#[derive(Debug, Clone, PartialEq, Eq)]
pub enum Status {
    Received,
    Evaluating,
    ReadyToDispatch,
    Reported,
    NeedsReview(String),
    Stale,
    Cancelled,
    Submitted,
    OutcomeUnknown(String),
    Succeeded(String),
    FailedDefinitive(String),
}

/// The engine request of the slot being evaluated, and how often it was sent.
#[derive(Debug, Clone, PartialEq, Eq)]
pub struct PendingEvaluation {
    pub request: DecisionRequest,
    pub in_flight: bool,
    pub sends: u8,
}

/// Budget held for a dispatched transfer until the ledger answers.
#[derive(Debug, Clone, Copy, PartialEq, Eq)]
pub struct Reservation {
    pub charge: u128,
    pub epoch: u64,
}

/// The exact transfer handed to the ledger; retries resend it unchanged.
#[derive(Debug, Clone, PartialEq, Eq)]
pub struct FrozenTransfer {
    pub proposal: TransferProposal,
    pub memo: Digest,
    pub created_at_time_ns: u64,
}

/// What `FrozenTransfer::digest` hashes.
pub open spec fn frozen_preimage(f: FrozenTransfer) -> Seq<u8> {
    frame("ic-laya/frozen-transfer/v1".spec_bytes()) + frame(sha256(proposal_preimage(f.proposal)))
        + frame(f.memo@) + be64(f.created_at_time_ns)
}

impl View for FrozenTransfer {
    type V = ((Seq<u8>, Seq<u8>, (Seq<u8>, Seq<u8>), u128, u128), Seq<u8>, u64);

    open spec fn view(&self) -> ((Seq<u8>, Seq<u8>, (Seq<u8>, Seq<u8>), u128, u128), Seq<u8>, u64) {
        (self.proposal@, self.memo@, self.created_at_time_ns)
    }
}

impl FrozenTransfer {
    pub fn digest(&self) -> (d: Digest)
        ensures
            d@ == sha256(frozen_preimage(*self)),
    {
        let mut h = Canonical::new("ic-laya/frozen-transfer/v1");
        let pd = self.proposal.digest();
        h.bytes(&pd);
        h.bytes(&self.memo);
        h.u64(self.created_at_time_ns);
        assert(h@ =~= frozen_preimage(*self));
        h.finish()
    }

    pub fn clone_frozen(&self) -> (f: FrozenTransfer)
        ensures
            f@ == self@,
    {
        FrozenTransfer {
            proposal: self.proposal.clone_proposal(),
            memo: self.memo,
            created_at_time_ns: self.created_at_time_ns,
        }
    }

    /// Field-wise equality, principals and digests compared by their bytes.
    pub fn same(&self, other: &FrozenTransfer) -> (r: bool)
        ensures
            r == (self@ == other@),
    {
        let a = &self.proposal;
        let b = &other.proposal;
        a.ledger.same(&b.ledger) && digest_eq(&a.from_subaccount, &b.from_subaccount)
            && a.to.owner.same(&b.to.owner) && digest_eq(&a.to.subaccount, &b.to.subaccount)
            && a.amount == b.amount && a.fee == b.fee && digest_eq(&self.memo, &other.memo)
            && self.created_at_time_ns == other.created_at_time_ns
    }
}

#[derive(Debug, Clone, PartialEq, Eq)]
pub struct RequestRecord {
    pub id: Digest,
    pub caller: Principal,
    pub nonce: u64,
    pub operation: Digest,
    pub grant: Digest,
    pub plan: Digest,
    pub operation_revision: u64,
    pub grant_revision: u64,
    pub snapshot: Digest,
    pub expires_at_ns: u64,
    pub status: Status,
    pub receipts: Vec<Receipt>,
    pub pending: Option<PendingEvaluation>,
    pub reservation: Option<Reservation>,
    pub frozen: Option<FrozenTransfer>,
    pub ledger_attempt: u8,
    pub ever_unknown: bool,
}

/// One ledger call to make: the request, its attempt number and the frozen payload.
#[derive(Debug, Clone, PartialEq, Eq)]
pub struct DispatchCommand {
    pub request: Digest,
    pub attempt: u8,
    pub transfer: FrozenTransfer,
}

#[derive(Debug, Clone, PartialEq, Eq)]
pub enum LedgerOutcome {
    Success(String),
    Duplicate(String),
    DefinitiveError(String),
    Unknown(String),
}

/// A local, one-use authorization to dispatch. Its fields are private, so only
/// `ExecutorState::authorize` makes one.
#[derive(Debug)]
pub struct AuthorizedTransfer {
    request: Digest,
    snapshot: Digest,
}

impl AuthorizedTransfer {
    pub closed spec fn spec_request(&self) -> Digest {
        self.request
    }

    pub closed spec fn spec_snapshot(&self) -> Digest {
        self.snapshot
    }
}

/// The next nonce a caller must use.
#[derive(Debug, Clone, PartialEq, Eq)]
pub struct NonceEntry {
    pub caller: Principal,
    pub next: u64,
}

/// What the reservation of `r` holds against grant `g` (in epoch `e`, if given).
pub open spec fn held(r: RequestRecord, g: Digest, e: Option<u64>) -> int {
    match r.reservation {
        Some(x) => if r.grant == g && (e is None || e == Some(x.epoch)) {
            x.charge as int
        } else {
            0
        },
        None => 0,
    }
}

/// The sum of what the requests hold against grant `g` (in epoch `e`, if given).
pub open spec fn held_sum(rs: Seq<RequestRecord>, g: Digest, e: Option<u64>) -> int
    decreases rs.len(),
{
    if rs.len() == 0 {
        0
    } else {
        held_sum(rs.drop_last(), g, e) + held(rs.last(), g, e)
    }
}

proof fn lemma_held_push(rs: Seq<RequestRecord>, r: RequestRecord, g: Digest, e: Option<u64>)
    ensures
        held_sum(rs.push(r), g, e) == held_sum(rs, g, e) + held(r, g, e),
{
    assert(rs.push(r).drop_last() =~= rs);
}

proof fn lemma_held_update(rs: Seq<RequestRecord>, i: int, r: RequestRecord, g: Digest, e: Option<u64>)
    requires
        0 <= i < rs.len(),
    ensures
        held_sum(rs.update(i, r), g, e) == held_sum(rs, g, e) - held(rs[i], g, e) + held(r, g, e),
    decreases rs.len(),
{
    let n = rs.update(i, r);
    if i == rs.len() - 1 {
        assert(n.drop_last() =~= rs.drop_last());
    } else {
        assert(n.drop_last() =~= rs.drop_last().update(i, r));
        lemma_held_update(rs.drop_last(), i, r, g, e);
    }
}

proof fn lemma_held_nonneg(rs: Seq<RequestRecord>, g: Digest, e: Option<u64>)
    ensures
        held_sum(rs, g, e) >= 0,
    decreases rs.len(),
{
    if rs.len() > 0 {
        lemma_held_nonneg(rs.drop_last(), g, e);
    }
}

proof fn lemma_held_ge(rs: Seq<RequestRecord>, i: int, g: Digest, e: Option<u64>)
    requires
        0 <= i < rs.len(),
    ensures
        held_sum(rs, g, e) >= held(rs[i], g, e),
{
    lemma_held_update(rs, i, RequestRecord { reservation: None, ..rs[i] }, g, e);
    lemma_held_nonneg(rs.update(i, RequestRecord { reservation: None, ..rs[i] }), g, e);
}

proof fn lemma_held_zero(rs: Seq<RequestRecord>, g: Digest, e: Option<u64>)
    requires
        forall|i: int| 0 <= i < rs.len() ==> held(#[trigger] rs[i], g, e) == 0,
    ensures
        held_sum(rs, g, e) == 0,
    decreases rs.len(),
{
    if rs.len() > 0 {
        assert(held(rs[rs.len() - 1], g, e) == 0);
        lemma_held_zero(rs.drop_last(), g, e);
    }
}

pub open spec fn plan_ids_unique(ps: Seq<Plan>) -> bool {
    forall|i: int, j: int| 0 <= i < j < ps.len() ==> #[trigger] ps[i].id != #[trigger] ps[j].id
}

pub open spec fn op_ids_unique(os: Seq<Operation>) -> bool {
    forall|i: int, j: int| 0 <= i < j < os.len() ==> #[trigger] os[i].id != #[trigger] os[j].id
}

pub open spec fn grant_ids_unique(gs: Seq<Grant>) -> bool {
    forall|i: int, j: int| 0 <= i < j < gs.len() ==> #[trigger] gs[i].id != #[trigger] gs[j].id
}

pub open spec fn request_ids_unique(rs: Seq<RequestRecord>) -> bool {
    forall|i: int, j: int| 0 <= i < j < rs.len() ==> #[trigger] rs[i].id != #[trigger] rs[j].id
}

pub open spec fn callers_unique(nn: Seq<NonceEntry>) -> bool {
    forall|i: int, j: int| 0 <= i < j < nn.len() ==> #[trigger] nn[i].caller@ != #[trigger] nn[j].caller@
}

pub open spec fn op_exists(os: Seq<Operation>, id: Digest) -> bool {
    exists|j: int| 0 <= j < os.len() && #[trigger] os[j].id == id
}

pub open spec fn grant_exists(gs: Seq<Grant>, id: Digest) -> bool {
    exists|j: int| 0 <= j < gs.len() && #[trigger] gs[j].id == id
}

pub open spec fn plan_exists(ps: Seq<Plan>, id: Digest) -> bool {
    exists|j: int| 0 <= j < ps.len() && #[trigger] ps[j].id == id
}

pub open spec fn nonce_exists(nn: Seq<NonceEntry>, c: Seq<u8>) -> bool {
    exists|k: int| 0 <= k < nn.len() && #[trigger] nn[k].caller@ == c
}

/// A status in which a reservation may be held: dispatched, unknown, or parked
/// for review after the owner abandoned the wait.
pub open spec fn holding_status(s: Status) -> bool {
    s is Submitted || s is OutcomeUnknown || s is NeedsReview
}

/// A reservation only in a holding status; a success holds none.
pub open spec fn record_ok(r: RequestRecord) -> bool {
    &&& r.reservation is Some ==> holding_status(r.status)
    &&& r.status is Succeeded ==> r.reservation is None
    &&& (r.status is Submitted || r.status is OutcomeUnknown) ==> r.reservation is Some
}

/// The request's operation, grant and caller's nonce entry exist.
pub open spec fn refs_ok(os: Seq<Operation>, gs: Seq<Grant>, nn: Seq<NonceEntry>, r: RequestRecord) -> bool {
    op_exists(os, r.operation) && grant_exists(gs, r.grant) && nonce_exists(nn, r.caller@)
}

/// A held reservation marks the operation reserved by this request; a success
/// marks it consumed by this request.
pub open spec fn op_link(r: RequestRecord, o: Operation) -> bool {
    r.operation == o.id ==> {
        &&& r.reservation is Some ==> o.status == OperationStatus::Reserved(r.id)
        &&& r.status is Succeeded ==> o.status == OperationStatus::Consumed(r.id)
    }
}

/// A held reservation's epoch has a window in its grant.
pub open spec fn window_link(r: RequestRecord, g: Grant) -> bool {
    (r.grant == g.id && r.reservation is Some) ==> has_window(g.windows@, r.reservation->0.epoch)
}

/// The caller's next nonce is past every nonce it used.
pub open spec fn nonce_link(r: RequestRecord, n: NonceEntry) -> bool {
    n.caller@ == r.caller@ ==> n.next > r.nonce
}

pub open spec fn window_books(g: Grant, w: WindowUsage, rs: Seq<RequestRecord>) -> bool {
    &&& w.usage.reserved == held_sum(rs, g.id, Some(w.epoch))
    &&& w.usage.spent + w.usage.reserved <= g.window_cap
}

/// The grant's reserved amounts are exactly what the requests hold, and spent
/// plus reserved stays within both caps.
pub open spec fn grant_books(g: Grant, rs: Seq<RequestRecord>) -> bool {
    &&& epochs_unique(g.windows@) && g.window_ns != 0
    &&& g.total.reserved == held_sum(rs, g.id, None)
    &&& g.total.spent + g.total.reserved <= g.total_cap
    &&& forall|k: int| 0 <= k < g.windows@.len() ==> #[trigger] window_books(g, g.windows@[k], rs)
}

/// The executor's invariant over its registries.
pub open spec fn state_inv(
    ps: Seq<Plan>,
    os: Seq<Operation>,
    gs: Seq<Grant>,
    rs: Seq<RequestRecord>,
    nn: Seq<NonceEntry>,
) -> bool {
    &&& plan_ids_unique(ps) && op_ids_unique(os) && grant_ids_unique(gs)
    &&& request_ids_unique(rs) && callers_unique(nn)
    &&& forall|i: int| 0 <= i < rs.len() ==> #[trigger] record_ok(rs[i])
    &&& forall|i: int| 0 <= i < rs.len() ==> #[trigger] refs_ok(os, gs, nn, rs[i])
    &&& forall|i: int, j: int| 0 <= i < rs.len() && 0 <= j < os.len() ==> #[trigger] op_link(rs[i], os[j])
    &&& forall|i: int, j: int|
        0 <= i < rs.len() && 0 <= j < gs.len() ==> #[trigger] window_link(rs[i], gs[j])
    &&& forall|i: int, k: int|
        0 <= i < rs.len() && 0 <= k < nn.len() ==> #[trigger] nonce_link(rs[i], nn[k])
    &&& forall|j: int| 0 <= j < gs.len() ==> #[trigger] grant_books(gs[j], rs)
}

/// The keys a status change leaves alone.
pub open spec fn same_keys(a: RequestRecord, b: RequestRecord) -> bool {
    &&& a.id == b.id && a.caller@ == b.caller@ && a.nonce == b.nonce
    &&& a.operation == b.operation && a.grant == b.grant && a.reservation == b.reservation
}

proof fn lemma_books_update(g: Grant, rs: Seq<RequestRecord>, i: int, r: RequestRecord)
    requires
        grant_books(g, rs),
        0 <= i < rs.len(),
        r.grant == rs[i].grant,
        r.reservation == rs[i].reservation,
    ensures
        grant_books(g, rs.update(i, r)),
{
    let n = rs.update(i, r);
    lemma_held_update(rs, i, r, g.id, None);
    assert forall|k: int| 0 <= k < g.windows@.len() implies #[trigger] window_books(g, g.windows@[k], n) by {
        assert(window_books(g, g.windows@[k], rs));
        lemma_held_update(rs, i, r, g.id, Some(g.windows@[k].epoch));
    }
}

/// Changing a request's status and working fields, but not its keys, keeps the
/// invariant as long as it does not newly claim success.
proof fn lemma_request_update(
    ps: Seq<Plan>,
    os: Seq<Operation>,
    gs: Seq<Grant>,
    rs: Seq<RequestRecord>,
    nn: Seq<NonceEntry>,
    i: int,
    r: RequestRecord,
)
    requires
        state_inv(ps, os, gs, rs, nn),
        0 <= i < rs.len(),
        same_keys(rs[i], r),
        record_ok(r),
        r.status is Succeeded ==> rs[i].status is Succeeded,
    ensures
        state_inv(ps, os, gs, rs.update(i, r), nn),
{
    let n = rs.update(i, r);
    assert forall|a: int, b: int| 0 <= a < b < n.len() implies #[trigger] n[a].id != #[trigger] n[b].id by {
        assert(rs[a].id != rs[b].id);
    }
    assert forall|a: int| 0 <= a < n.len() implies #[trigger] record_ok(n[a]) by {
        assert(record_ok(rs[a]));
    }
    assert forall|a: int| 0 <= a < n.len() implies #[trigger] refs_ok(os, gs, nn, n[a]) by {
        assert(refs_ok(os, gs, nn, rs[a]));
    }
    assert forall|a: int, j: int| 0 <= a < n.len() && 0 <= j < os.len() implies #[trigger] op_link(n[a], os[j]) by {
        assert(op_link(rs[a], os[j]));
    }
    assert forall|a: int, j: int| 0 <= a < n.len() && 0 <= j < gs.len() implies #[trigger] window_link(n[a], gs[j]) by {
        assert(window_link(rs[a], gs[j]));
    }
    assert forall|a: int, k: int| 0 <= a < n.len() && 0 <= k < nn.len() implies #[trigger] nonce_link(n[a], nn[k]) by {
        assert(nonce_link(rs[a], nn[k]));
    }
    assert forall|j: int| 0 <= j < gs.len() implies #[trigger] grant_books(gs[j], n) by {
        assert(grant_books(gs[j], rs));
        lemma_books_update(gs[j], rs, i, r);
    }
}


proof fn lemma_books_same_grant(g1: Grant, g2: Grant, rs: Seq<RequestRecord>)
    requires
        grant_books(g1, rs),
        g2.id == g1.id && g2.total == g1.total && g2.windows@ == g1.windows@,
        g2.total_cap == g1.total_cap && g2.window_cap == g1.window_cap && g2.window_ns == g1.window_ns,
    ensures
        grant_books(g2, rs),
{
    assert forall|k: int| 0 <= k < g2.windows@.len() implies #[trigger] window_books(g2, g2.windows@[k], rs) by {
        assert(window_books(g1, g1.windows@[k], rs));
    }
}

proof fn lemma_op_update(
    ps: Seq<Plan>,
    os: Seq<Operation>,
    gs: Seq<Grant>,
    rs: Seq<RequestRecord>,
    nn: Seq<NonceEntry>,
    j: int,
    o: Operation,
)
    requires
        state_inv(ps, os, gs, rs, nn),
        0 <= j < os.len(),
        o.id == os[j].id && o.status == os[j].status,
    ensures
        state_inv(ps, os.update(j, o), gs, rs, nn),
{
    let n = os.update(j, o);
    assert forall|a: int, b: int| 0 <= a < b < n.len() implies #[trigger] n[a].id != #[trigger] n[b].id by {
        assert(os[a].id != os[b].id);
    }
    assert forall|a: int| 0 <= a < rs.len() implies #[trigger] refs_ok(n, gs, nn, rs[a]) by {
        assert(refs_ok(os, gs, nn, rs[a]));
        let w = choose|w: int| 0 <= w < os.len() && #[trigger] os[w].id == rs[a].operation;
        assert(n[w].id == rs[a].operation);
    }
    assert forall|a: int, b: int| 0 <= a < rs.len() && 0 <= b < n.len() implies #[trigger] op_link(rs[a], n[b]) by {
        assert(op_link(rs[a], os[b]));
    }
}

proof fn lemma_op_push(
    ps: Seq<Plan>,
    os: Seq<Operation>,
    gs: Seq<Grant>,
    rs: Seq<RequestRecord>,
    nn: Seq<NonceEntry>,
    o: Operation,
)
    requires
        state_inv(ps, os, gs, rs, nn),
        !op_exists(os, o.id),
        o.status == OperationStatus::Available,
    ensures
        state_inv(ps, os.push(o), gs, rs, nn),
{
    let n = os.push(o);
    assert forall|a: int, b: int| 0 <= a < b < n.len() implies #[trigger] n[a].id != #[trigger] n[b].id by {
        if b == os.len() {
            assert(os[a].id != o.id);
        } else {
            assert(os[a].id != os[b].id);
        }
    }
    assert forall|a: int| 0 <= a < rs.len() implies #[trigger] refs_ok(n, gs, nn, rs[a]) by {
        assert(refs_ok(os, gs, nn, rs[a]));
        let w = choose|w: int| 0 <= w < os.len() && #[trigger] os[w].id == rs[a].operation;
        assert(n[w].id == rs[a].operation);
    }
    assert forall|a: int, b: int| 0 <= a < rs.len() && 0 <= b < n.len() implies #[trigger] op_link(rs[a], n[b]) by {
        if b < os.len() {
            assert(op_link(rs[a], os[b]));
        } else {
            assert(refs_ok(os, gs, nn, rs[a]));
            let w = choose|w: int| 0 <= w < os.len() && #[trigger] os[w].id == rs[a].operation;
            assert(rs[a].operation != o.id);
        }
    }
}

proof fn lemma_grant_update(
    ps: Seq<Plan>,
    os: Seq<Operation>,
    gs: Seq<Grant>,
    rs: Seq<RequestRecord>,
    nn: Seq<NonceEntry>,
    j: int,
    g: Grant,
)
    requires
        state_inv(ps, os, gs, rs, nn),
        0 <= j < gs.len(),
        g.id == gs[j].id && g.total == gs[j].total && g.windows@ == gs[j].windows@,
        g.total_cap == gs[j].total_cap && g.window_cap == gs[j].window_cap && g.window_ns == gs[j].window_ns,
    ensures
        state_inv(ps, os, gs.update(j, g), rs, nn),
{
    let n = gs.update(j, g);
    assert forall|a: int, b: int| 0 <= a < b < n.len() implies #[trigger] n[a].id != #[trigger] n[b].id by {
        assert(gs[a].id != gs[b].id);
    }
    assert forall|a: int| 0 <= a < rs.len() implies #[trigger] refs_ok(os, n, nn, rs[a]) by {
        assert(refs_ok(os, gs, nn, rs[a]));
        let w = choose|w: int| 0 <= w < gs.len() && #[trigger] gs[w].id == rs[a].grant;
        assert(n[w].id == rs[a].grant);
    }
    assert forall|a: int, b: int| 0 <= a < rs.len() && 0 <= b < n.len() implies #[trigger] window_link(rs[a], n[b]) by {
        assert(window_link(rs[a], gs[b]));
    }
    assert forall|b: int| 0 <= b < n.len() implies #[trigger] grant_books(n[b], rs) by {
        assert(grant_books(gs[b], rs));
        if b == j {
            lemma_books_same_grant(gs[j], g, rs);
        }
    }
}

proof fn lemma_grant_push(
    ps: Seq<Plan>,
    os: Seq<Operation>,
    gs: Seq<Grant>,
    rs: Seq<RequestRecord>,
    nn: Seq<NonceEntry>,
    g: Grant,
)
    requires
        state_inv(ps, os, gs, rs, nn),
        !grant_exists(gs, g.id),
        g.total == (Usage { spent: 0, reserved: 0 }),
        g.windows@.len() == 0,
        g.window_ns != 0,
    ensures
        state_inv(ps, os, gs.push(g), rs, nn),
{
    let n = gs.push(g);
    assert forall|a: int, b: int| 0 <= a < b < n.len() implies #[trigger] n[a].id != #[trigger] n[b].id by {
        if b == gs.len() {
            assert(gs[a].id != g.id);
        } else {
            assert(gs[a].id != gs[b].id);
        }
    }
    assert forall|a: int| 0 <= a < rs.len() implies rs[a].grant != g.id by {
        assert(refs_ok(os, gs, nn, rs[a]));
    }
    assert forall|a: int| 0 <= a < rs.len() implies #[trigger] refs_ok(os, n, nn, rs[a]) by {
        assert(refs_ok(os, gs, nn, rs[a]));
        let w = choose|w: int| 0 <= w < gs.len() && #[trigger] gs[w].id == rs[a].grant;
        assert(n[w].id == rs[a].grant);
    }
    assert forall|a: int, b: int| 0 <= a < rs.len() && 0 <= b < n.len() implies #[trigger] window_link(rs[a], n[b]) by {
        if b < gs.len() {
            assert(window_link(rs[a], gs[b]));
        }
    }
    assert forall|a: int| 0 <= a < rs.len() implies held(#[trigger] rs[a], g.id, None) == 0 by {
    }
    lemma_held_zero(rs, g.id, None);
    assert forall|b: int| 0 <= b < n.len() implies #[trigger] grant_books(n[b], rs) by {
        if b < gs.len() {
            assert(grant_books(gs[b], rs));
        }
    }
}

proof fn lemma_plan_push(
    ps: Seq<Plan>,
    os: Seq<Operation>,
    gs: Seq<Grant>,
    rs: Seq<RequestRecord>,
    nn: Seq<NonceEntry>,
    p: Plan,
)
    requires
        state_inv(ps, os, gs, rs, nn),
        !plan_exists(ps, p.id),
    ensures
        state_inv(ps.push(p), os, gs, rs, nn),
{
    let n = ps.push(p);
    assert forall|a: int, b: int| 0 <= a < b < n.len() implies #[trigger] n[a].id != #[trigger] n[b].id by {
        if b == ps.len() {
            assert(ps[a].id != p.id);
        } else {
            assert(ps[a].id != ps[b].id);
        }
    }
}

/// What the request id of `(instance, caller, nonce)` hashes.
pub open spec fn request_id_preimage(instance: Principal, caller: Principal, nonce: u64) -> Seq<u8> {
    frame("ic-laya/workflow/v1".spec_bytes()) + frame(instance@) + frame(caller@) + be64(nonce)
}

pub open spec fn signal_frames(sigs: Seq<RequiredSignal>) -> Seq<u8>
    decreases sigs.len(),
{
    if sigs.len() == 0 {
        Seq::empty()
    } else {
        signal_frames(sigs.drop_last()) + frame(sigs.last().schema.schema_hash@) + frame(
            sigs.last().calibration@,
        )
    }
}

/// What the snapshot of an operation, grant and plan hashes: everything a
/// decision was bound to.
pub open spec fn snapshot_preimage(o: Operation, g: Grant, p: Plan) -> Seq<u8> {
    frame("ic-laya/snapshot/v1".spec_bytes()) + frame(o.id@) + be64(o.revision) + frame(
        sbytes(o.evidence),
    ) + frame(sha256(proposal_preimage(o.proposal))) + frame(g.id@) + be64(g.revision) + frame(
        p.id@,
    ) + be64(p.version) + frame(p.model@) + signal_frames(p.signals@)
}

fn snapshot_of(o: &Operation, g: &Grant, p: &Plan) -> (d: Digest)
    ensures
        d@ == sha256(snapshot_preimage(*o, *g, *p)),
{
    let mut h = Canonical::new("ic-laya/snapshot/v1");
    h.bytes(&o.id);
    h.u64(o.revision);
    h.text(o.evidence.as_str());
    let pd = o.proposal.digest();
    h.bytes(&pd);
    h.bytes(&g.id);
    h.u64(g.revision);
    h.bytes(&p.id);
    h.u64(p.version);
    h.bytes(&p.model);
    let ghost start = h@;
    let mut i: usize = 0;
    while i < p.signals.len()
        invariant
            i <= p.signals@.len(),
            h@ == start + signal_frames(p.signals@.subrange(0, i as int)),
        decreases p.signals@.len() - i,
    {
        h.bytes(&p.signals[i].schema.schema_hash);
        h.bytes(&p.signals[i].calibration);
        assert(p.signals@.subrange(0, i + 1).drop_last() =~= p.signals@.subrange(0, i as int));
        i = i + 1;
    }
    assert(p.signals@.subrange(0, p.signals@.len() as int) =~= p.signals@);
    assert(h@ =~= snapshot_preimage(*o, *g, *p));
    h.finish()
}

/// A nonce table after a caller advanced: every caller keeps an entry no lower
/// than before, and `c` has one past `used`.
pub open spec fn nonces_advanced(nn: Seq<NonceEntry>, nn2: Seq<NonceEntry>, c: Seq<u8>, used: u64) -> bool {
    &&& callers_unique(nn2)
    &&& nonce_exists(nn2, c)
    &&& forall|x: Seq<u8>| nonce_exists(nn, x) ==> #[trigger] nonce_exists(nn2, x)
    &&& forall|a: int, b: int|
        0 <= a < nn2.len() && 0 <= b < nn.len() && #[trigger] nn2[a].caller@ == #[trigger] nn[b].caller@
            ==> nn2[a].next >= nn[b].next
    &&& forall|a: int| 0 <= a < nn2.len() && #[trigger] nn2[a].caller@ == c ==> nn2[a].next > used
}

proof fn lemma_submit(
    ps: Seq<Plan>,
    os: Seq<Operation>,
    gs: Seq<Grant>,
    rs: Seq<RequestRecord>,
    nn: Seq<NonceEntry>,
    nn2: Seq<NonceEntry>,
    r: RequestRecord,
)
    requires
        state_inv(ps, os, gs, rs, nn),
        !request_exists(rs, r.id),
        r.reservation is None,
        record_ok(r),
        !(r.status is Succeeded),
        op_exists(os, r.operation),
        grant_exists(gs, r.grant),
        nonces_advanced(nn, nn2, r.caller@, r.nonce),
    ensures
        state_inv(ps, os, gs, rs.push(r), nn2),
{
    let n = rs.push(r);
    assert forall|a: int, b: int| 0 <= a < b < n.len() implies #[trigger] n[a].id != #[trigger] n[b].id by {
        if b == rs.len() {
            assert(rs[a].id != r.id);
        } else {
            assert(rs[a].id != rs[b].id);
        }
    }
    assert forall|a: int| 0 <= a < n.len() implies #[trigger] record_ok(n[a]) by {
        if a < rs.len() {
            assert(record_ok(rs[a]));
        }
    }
    assert forall|a: int| 0 <= a < n.len() implies #[trigger] refs_ok(os, gs, nn2, n[a]) by {
        if a < rs.len() {
            assert(refs_ok(os, gs, nn, rs[a]));
            assert(nonce_exists(nn2, rs[a].caller@));
        }
    }
    assert forall|a: int, b: int| 0 <= a < n.len() && 0 <= b < os.len() implies #[trigger] op_link(n[a], os[b]) by {
        if a < rs.len() {
            assert(op_link(rs[a], os[b]));
        }
    }
    assert forall|a: int, b: int| 0 <= a < n.len() && 0 <= b < gs.len() implies #[trigger] window_link(n[a], gs[b]) by {
        if a < rs.len() {
            assert(window_link(rs[a], gs[b]));
        }
    }
    assert forall|a: int, k: int| 0 <= a < n.len() && 0 <= k < nn2.len() implies #[trigger] nonce_link(n[a], nn2[k]) by {
        if a < rs.len() && nn2[k].caller@ == rs[a].caller@ {
            assert(refs_ok(os, gs, nn, rs[a]));
            let w = choose|w: int| 0 <= w < nn.len() && #[trigger] nn[w].caller@ == rs[a].caller@;
            assert(nonce_link(rs[a], nn[w]));
            assert(nn2[k].caller@ == nn[w].caller@);
        }
    }
    assert forall|b: int| 0 <= b < gs.len() implies #[trigger] grant_books(gs[b], n) by {
        let g = gs[b];
        assert(grant_books(g, rs));
        lemma_held_push(rs, r, g.id, None);
        assert forall|k: int| 0 <= k < g.windows@.len() implies #[trigger] window_books(g, g.windows@[k], n) by {
            assert(window_books(g, g.windows@[k], rs));
            lemma_held_push(rs, r, g.id, Some(g.windows@[k].epoch));
        }
    }
}

/// The books of the grant a ledger step touches: the request's hold changed by
/// `delta` in epoch `e` only, and the grant's total and window `e` by the same.
proof fn lemma_touched_books(
    g: Grant,
    g2: Grant,
    rs: Seq<RequestRecord>,
    i: int,
    r2: RequestRecord,
    e: u64,
    delta: int,
)
    requires
        grant_books(g, rs),
        0 <= i < rs.len(),
        held(r2, g.id, None) - held(rs[i], g.id, None) == delta,
        held(r2, g.id, Some(e)) - held(rs[i], g.id, Some(e)) == delta,
        forall|x: u64| x != e ==> held(r2, g.id, Some(x)) == held(rs[i], g.id, Some(x)),
        g2.id == g.id && g2.window_cap == g.window_cap && g2.window_ns == g.window_ns,
        epochs_unique(g2.windows@),
        g2.total.reserved == g.total.reserved + delta,
        g2.total.spent + g2.total.reserved <= g2.total_cap,
        has_window(g2.windows@, e),
        window_of(g2.windows@, e).reserved == window_of(g.windows@, e).reserved + delta,
        window_of(g2.windows@, e).spent + window_of(g2.windows@, e).reserved <= g2.window_cap,
        forall|x: u64| x != e ==> (has_window(g2.windows@, x) == has_window(g.windows@, x)
            && window_of(g2.windows@, x) == window_of(g.windows@, x)),
        !has_window(g.windows@, e) ==> held_sum(rs, g.id, Some(e)) == 0,
    ensures
        grant_books(g2, rs.update(i, r2)),
{
    let n = rs.update(i, r2);
    lemma_held_update(rs, i, r2, g.id, None);
    if has_window(g.windows@, e) {
        let w = choose|w: int| 0 <= w < g.windows@.len() && #[trigger] g.windows@[w].epoch == e;
        lemma_window_at(g.windows@, w);
        assert(window_books(g, g.windows@[w], rs));
    }
    assert forall|k: int| 0 <= k < g2.windows@.len() implies #[trigger] window_books(g2, g2.windows@[k], n) by {
        let x = g2.windows@[k].epoch;
        lemma_window_at(g2.windows@, k);
        lemma_held_update(rs, i, r2, g.id, Some(x));
        if x != e {
            assert(has_window(g.windows@, x));
            let w = choose|w: int| 0 <= w < g.windows@.len() && #[trigger] g.windows@[w].epoch == x;
            lemma_window_at(g.windows@, w);
            assert(window_books(g, g.windows@[w], rs));
        }
    }
}

/// A ledger step on request `i`, its operation `k` and its grant `j` keeps the
/// invariant when the three stay consistent with each other.
proof fn lemma_ledger_step(
    ps: Seq<Plan>,
    os: Seq<Operation>,
    gs: Seq<Grant>,
    rs: Seq<RequestRecord>,
    nn: Seq<NonceEntry>,
    i: int,
    k: int,
    j: int,
    r2: RequestRecord,
    o2: Operation,
    g2: Grant,
    e: u64,
    delta: int,
)
    requires
        state_inv(ps, os, gs, rs, nn),
        0 <= i < rs.len() && 0 <= k < os.len() && 0 <= j < gs.len(),
        r2.id == rs[i].id && r2.caller@ == rs[i].caller@ && r2.nonce == rs[i].nonce,
        r2.operation == rs[i].operation && r2.grant == rs[i].grant,
        record_ok(r2),
        os[k].id == rs[i].operation && o2.id == os[k].id,
        os[k].status == OperationStatus::Available || os[k].status == OperationStatus::Reserved(rs[i].id),
        o2.status == OperationStatus::Available || o2.status == OperationStatus::Reserved(rs[i].id)
            || o2.status == OperationStatus::Consumed(rs[i].id),
        op_link(r2, o2),
        gs[j].id == rs[i].grant,
        held(r2, gs[j].id, None) - held(rs[i], gs[j].id, None) == delta,
        held(r2, gs[j].id, Some(e)) - held(rs[i], gs[j].id, Some(e)) == delta,
        forall|x: u64| x != e ==> held(r2, gs[j].id, Some(x)) == held(rs[i], gs[j].id, Some(x)),
        g2.id == gs[j].id && g2.window_cap == gs[j].window_cap && g2.window_ns == gs[j].window_ns,
        epochs_unique(g2.windows@),
        g2.total.reserved == gs[j].total.reserved + delta,
        g2.total.spent + g2.total.reserved <= g2.total_cap,
        has_window(g2.windows@, e),
        window_of(g2.windows@, e).reserved == window_of(gs[j].windows@, e).reserved + delta,
        window_of(g2.windows@, e).spent + window_of(g2.windows@, e).reserved <= g2.window_cap,
        forall|x: u64| x != e ==> (has_window(g2.windows@, x) == has_window(gs[j].windows@, x)
            && window_of(g2.windows@, x) == window_of(gs[j].windows@, x)),
        r2.reservation matches Some(x) ==> x.epoch == e,
        rs[i].reservation matches Some(x) ==> x.epoch == e,
    ensures
        state_inv(ps, os.update(k, o2), gs.update(j, g2), rs.update(i, r2), nn),
{
    let os2 = os.update(k, o2);
    let gs2 = gs.update(j, g2);
    let rs2 = rs.update(i, r2);
    let g = gs[j];
    assert forall|a: int, b: int| 0 <= a < b < rs2.len() implies #[trigger] rs2[a].id != #[trigger] rs2[b].id by {
        assert(rs[a].id != rs[b].id);
    }
    assert forall|a: int, b: int| 0 <= a < b < os2.len() implies #[trigger] os2[a].id != #[trigger] os2[b].id by {
        assert(os[a].id != os[b].id);
    }
    assert forall|a: int, b: int| 0 <= a < b < gs2.len() implies #[trigger] gs2[a].id != #[trigger] gs2[b].id by {
        assert(gs[a].id != gs[b].id);
    }
    assert forall|a: int| 0 <= a < rs2.len() implies #[trigger] record_ok(rs2[a]) by {
        assert(record_ok(rs[a]));
    }
    assert forall|a: int| 0 <= a < rs2.len() implies #[trigger] refs_ok(os2, gs2, nn, rs2[a]) by {
        assert(refs_ok(os, gs, nn, rs[a]));
        let wo = choose|w: int| 0 <= w < os.len() && #[trigger] os[w].id == rs[a].operation;
        assert(os2[wo].id == rs2[a].operation);
        let wg = choose|w: int| 0 <= w < gs.len() && #[trigger] gs[w].id == rs[a].grant;
        assert(gs2[wg].id == rs2[a].grant);
    }
    assert forall|a: int, b: int| 0 <= a < rs2.len() && 0 <= b < os2.len() implies #[trigger] op_link(rs2[a], os2[b]) by {
        assert(op_link(rs[a], os[b]));
        if b == k && a != i {
            assert(op_link(rs[a], os[k]));
            assert(rs[a].id != rs[i].id) by {
                if a < i {
                    assert(rs[a].id != rs[i].id);
                } else {
                    assert(rs[i].id != rs[a].id);
                }
            }
        }
        if a == i && b != k {
            if b < k {
                assert(os[b].id != os[k].id);
            } else {
                assert(os[k].id != os[b].id);
            }
        }
    }
    assert forall|a: int, b: int| 0 <= a < rs2.len() && 0 <= b < gs2.len() implies #[trigger] window_link(rs2[a], gs2[b]) by {
        assert(window_link(rs[a], gs[b]));
        if a == i && b != j {
            if b < j {
                assert(gs[b].id != gs[j].id);
            } else {
                assert(gs[j].id != gs[b].id);
            }
        }
        if b == j && a != i && rs[a].grant == g.id && rs[a].reservation is Some {
            let x = rs[a].reservation->0.epoch;
            if x != e {
                assert(has_window(g2.windows@, x) == has_window(g.windows@, x));
            }
        }
    }
    assert forall|a: int, q: int| 0 <= a < rs2.len() && 0 <= q < nn.len() implies #[trigger] nonce_link(rs2[a], nn[q]) by {
        assert(nonce_link(rs[a], nn[q]));
    }
    assert forall|b: int| 0 <= b < gs2.len() implies #[trigger] grant_books(gs2[b], rs2) by {
        assert(grant_books(gs[b], rs));
        if b == j {
            if !has_window(g.windows@, e) {
                assert forall|a: int| 0 <= a < rs.len() implies held(#[trigger] rs[a], g.id, Some(e)) == 0 by {
                    assert(window_link(rs[a], gs[j]));
                }
                lemma_held_zero(rs, g.id, Some(e));
            }
            lemma_touched_books(g, g2, rs, i, r2, e, delta);
        } else {
            assert(gs[b].id != g.id) by {
                if b < j {
                    assert(gs[b].id != gs[j].id);
                } else {
                    assert(gs[j].id != gs[b].id);
                }
            }
            lemma_books_update_other(gs[b], rs, i, r2);
        }
    }
}

proof fn lemma_books_update_other(g: Grant, rs: Seq<RequestRecord>, i: int, r: RequestRecord)
    requires
        grant_books(g, rs),
        0 <= i < rs.len(),
        rs[i].grant != g.id,
        r.grant != g.id,
    ensures
        grant_books(g, rs.update(i, r)),
{
    let n = rs.update(i, r);
    lemma_held_update(rs, i, r, g.id, None);
    assert forall|k: int| 0 <= k < g.windows@.len() implies #[trigger] window_books(g, g.windows@[k], n) by {
        assert(window_books(g, g.windows@[k], rs));
        lemma_held_update(rs, i, r, g.id, Some(g.windows@[k].epoch));
    }
}

proof fn lemma_held_split(rs: Seq<RequestRecord>, k: int, g: Digest, e: Option<u64>)
    requires
        0 <= k <= rs.len(),
    ensures
        held_sum(rs, g, e) == held_sum(rs.subrange(0, k), g, e) + held_sum(rs.subrange(k, rs.len() as int), g, e),
    decreases rs.len(),
{
    if rs.len() == k {
        assert(rs.subrange(0, k) =~= rs);
        assert(rs.subrange(k, rs.len() as int).len() == 0);
    } else {
        lemma_held_split(rs.drop_last(), k, g, e);
        assert(rs.drop_last().subrange(0, k) =~= rs.subrange(0, k));
        assert(rs.subrange(k, rs.len() as int).drop_last() =~= rs.drop_last().subrange(k, rs.len() - 1));
        assert(rs.subrange(k, rs.len() as int).last() == rs.last());
    }
}

fn held_of(r: &RequestRecord, g: &Digest, e: Option<u64>) -> (v: u128)
    ensures
        v == held(*r, *g, e),
{
    match r.reservation {
        Some(x) => {
            let epoch_ok = match e {
                None => true,
                Some(y) => y == x.epoch,
            };
            if digest_eq(&r.grant, g) && epoch_ok {
                x.charge
            } else {
                0
            }
        },
        None => 0,
    }
}

/// The sum of what the requests hold against `g` (in `e`), if it fits in u128.
fn held_total(rs: &Vec<RequestRecord>, g: &Digest, e: Option<u64>) -> (r: Option<u128>)
    ensures
        r matches Some(v) ==> v == held_sum(rs@, *g, e),
        r is None ==> held_sum(rs@, *g, e) > u128::MAX,
{
    let mut acc: u128 = 0;
    let mut k: usize = 0;
    while k < rs.len()
        invariant
            k <= rs@.len(),
            acc == held_sum(rs@.subrange(0, k as int), *g, e),
        decreases rs@.len() - k,
    {
        let h = held_of(&rs[k], g, e);
        proof {
            assert(rs@.subrange(0, k + 1).drop_last() =~= rs@.subrange(0, k as int));
        }
        match acc.checked_add(h) {
            Some(x) => acc = x,
            None => {
                proof {
                    lemma_held_split(rs@, k + 1, *g, e);
                    lemma_held_nonneg(rs@.subrange(k + 1, rs@.len() as int), *g, e);
                }
                return None;
            },
        }
        k = k + 1;
    }
    proof {
        assert(rs@.subrange(0, rs@.len() as int) =~= rs@);
    }
    Some(acc)
}

fn digests_unique(ids: &Vec<Digest>) -> (r: bool)
    ensures
        r == forall|a: int, b: int| 0 <= a < b < ids@.len() ==> ids@[a] != ids@[b],
{
    let mut b: usize = 0;
    while b < ids.len()
        invariant
            b <= ids@.len(),
            forall|x: int, y: int| 0 <= x < y < b ==> ids@[x] != ids@[y],
        decreases ids@.len() - b,
    {
        let mut a: usize = 0;
        while a < b
            invariant
                a <= b < ids@.len(),
                forall|x: int, y: int| 0 <= x < y < b ==> ids@[x] != ids@[y],
                forall|x: int| 0 <= x < a ==> ids@[x] != ids@[b as int],
            decreases b - a,
        {
            if digest_eq(&ids[a], &ids[b]) {
                return false;
            }
            a = a + 1;
        }
        b = b + 1;
    }
    true
}

pub open spec fn operation_shape_ok(o: Operation) -> bool {
    &&& !is_zero(o.id) && o.revision != 0
    &&& 0 < sbytes(o.evidence).len() <= MAX_STATE_BYTES
    &&& o.status == OperationStatus::Available
}

pub open spec fn grant_shape_ok(g: Grant) -> bool {
    &&& !is_zero(g.id) && g.revision != 0 && g.delegate@ != anonymous_bytes() && g.window_ns != 0
    &&& g.total == (Usage { spent: 0, reserved: 0 }) && g.windows@.len() == 0 && !g.revoked
    &&& 0 < g.recipients@.len() <= 16
    &&& g.max_amount != 0 && g.total_cap != 0 && g.window_cap != 0
}

pub open spec fn recipients_ok(rs: Seq<Account>) -> bool {
    forall|k: int| 0 <= k < rs.len() ==> party(#[trigger] rs[k].owner)
}

/// The index of the operation with this id (unique under the invariant).
pub open spec fn op_at(os: Seq<Operation>, id: Digest) -> int {
    choose|j: int| 0 <= j < os.len() && #[trigger] os[j].id == id
}

pub open spec fn grant_at(gs: Seq<Grant>, id: Digest) -> int {
    choose|j: int| 0 <= j < gs.len() && #[trigger] gs[j].id == id
}

pub open spec fn plan_at(ps: Seq<Plan>, id: Digest) -> int {
    choose|j: int| 0 <= j < ps.len() && #[trigger] ps[j].id == id
}

pub open spec fn request_at(rs: Seq<RequestRecord>, id: Digest) -> int {
    choose|j: int| 0 <= j < rs.len() && #[trigger] rs[j].id == id
}

pub open spec fn request_exists(rs: Seq<RequestRecord>, id: Digest) -> bool {
    exists|j: int| 0 <= j < rs.len() && #[trigger] rs[j].id == id
}

proof fn lemma_op_at(os: Seq<Operation>, j: int)
    requires
        op_ids_unique(os),
        0 <= j < os.len(),
    ensures
        op_exists(os, os[j].id),
        op_at(os, os[j].id) == j,
{
    assert(op_exists(os, os[j].id));
    let k = op_at(os, os[j].id);
    if k < j {
        assert(os[k].id != os[j].id);
    } else if k > j {
        assert(os[j].id != os[k].id);
    }
}

proof fn lemma_grant_at(gs: Seq<Grant>, j: int)
    requires
        grant_ids_unique(gs),
        0 <= j < gs.len(),
    ensures
        grant_exists(gs, gs[j].id),
        grant_at(gs, gs[j].id) == j,
{
    assert(grant_exists(gs, gs[j].id));
    let k = grant_at(gs, gs[j].id);
    if k < j {
        assert(gs[k].id != gs[j].id);
    } else if k > j {
        assert(gs[j].id != gs[k].id);
    }
}

proof fn lemma_plan_at(ps: Seq<Plan>, j: int)
    requires
        plan_ids_unique(ps),
        0 <= j < ps.len(),
    ensures
        plan_exists(ps, ps[j].id),
        plan_at(ps, ps[j].id) == j,
{
    assert(plan_exists(ps, ps[j].id));
    let k = plan_at(ps, ps[j].id);
    if k < j {
        assert(ps[k].id != ps[j].id);
    } else if k > j {
        assert(ps[j].id != ps[k].id);
    }
}

proof fn lemma_request_at(rs: Seq<RequestRecord>, j: int)
    requires
        request_ids_unique(rs),
        0 <= j < rs.len(),
    ensures
        request_exists(rs, rs[j].id),
        request_at(rs, rs[j].id) == j,
{
    assert(request_exists(rs, rs[j].id));
    let k = request_at(rs, rs[j].id);
    if k < j {
        assert(rs[k].id != rs[j].id);
    } else if k > j {
        assert(rs[j].id != rs[k].id);
    }
}

proof fn lemma_nonce_at(nn: Seq<NonceEntry>, k: int)
    requires
        callers_unique(nn),
        0 <= k < nn.len(),
    ensures
        nonce_exists(nn, nn[k].caller@),
        nonce_of(nn, nn[k].caller@) == nn[k].next,
{
    let c = nn[k].caller@;
    assert(nonce_exists(nn, c));
    let w = choose|w: int| 0 <= w < nn.len() && #[trigger] nn[w].caller@ == c;
    if w < k {
        assert(nn[w].caller@ != nn[k].caller@);
    } else if w > k {
        assert(nn[k].caller@ != nn[w].caller@);
    }
}

#[derive(Debug, Clone)]
pub struct ExecutorState {
    pub instance: Principal,
    pub owner: Principal,
    pub engine: Principal,
    pub mode: Mode,
    pub paused: bool,
    pub plans: Vec<Plan>,
    pub operations: Vec<Operation>,
    pub grants: Vec<Grant>,
    pub requests: Vec<RequestRecord>,
    pub next_nonce: Vec<NonceEntry>,
    /// Only ledgers that passed the mock-only handshake may receive this release's outcalls.
    pub mock_ledgers: Vec<Principal>,
}

pub open spec fn nonce_of(nn: Seq<NonceEntry>, c: Seq<u8>) -> u64 {
    if nonce_exists(nn, c) {
        nn[choose|k: int| 0 <= k < nn.len() && #[trigger] nn[k].caller@ == c].next
    } else {
        0
    }
}

/// A successful first use of `nonce`: the request is appended with its bindings
/// and the caller's next nonce moves one past it.
pub open spec fn submitted(
    s: ExecutorState,
    t: ExecutorState,
    caller: Principal,
    nonce: u64,
    operation: Digest,
    grant: Digest,
    now: u64,
    id: Digest,
) -> bool {
    let g = s.grants@[grant_at(s.grants@, grant)];
    let o = s.operations@[op_at(s.operations@, operation)];
    &&& grant_exists(s.grants@, grant) && op_exists(s.operations@, operation)
    &&& plan_exists(s.plans@, g.plan)
    &&& eligible_spec(g, caller, o.proposal, now)
    &&& o.status == OperationStatus::Available
    &&& t.requests@.len() == s.requests@.len() + 1
    &&& t.requests@.drop_last() == s.requests@
    &&& {
        let r = t.requests@.last();
        &&& r.id == id && r.caller@ == caller@ && r.nonce == nonce
        &&& r.operation == operation && r.grant == grant && r.plan == g.plan
        &&& r.operation_revision == o.revision && r.grant_revision == g.revision
        &&& r.snapshot@ == sha256(snapshot_preimage(o, g, s.plans@[plan_at(s.plans@, g.plan)]))
        &&& r.expires_at_ns == (if now + 300_000_000_000 < g.expires_at_ns {
            now + 300_000_000_000
        } else {
            g.expires_at_ns as int
        })
        &&& r.status == Status::Received && r.receipts@.len() == 0 && r.pending is None
        &&& r.reservation is None && r.frozen is None && r.ledger_attempt == 0 && !r.ever_unknown
    }
    &&& nonce_of(t.next_nonce@, caller@) == nonce + 1
    &&& t.plans == s.plans && t.operations == s.operations && t.grants == s.grants
    &&& t.mode == s.mode && t.paused == s.paused && t.mock_ledgers == s.mock_ledgers
}

/// The request is still bound to what it was created on: not paused, not
/// expired, the grant still admits the caller for the operation, and the
/// operation, grant and plan are unchanged since submission.
pub open spec fn current_ok(s: ExecutorState, r: RequestRecord, now: u64) -> bool {
    let o = s.operations@[op_at(s.operations@, r.operation)];
    let g = s.grants@[grant_at(s.grants@, r.grant)];
    let p = s.plans@[plan_at(s.plans@, r.plan)];
    &&& !s.paused && now < r.expires_at_ns
    &&& op_exists(s.operations@, r.operation) && grant_exists(s.grants@, r.grant)
    &&& plan_exists(s.plans@, r.plan)
    &&& eligible_spec(g, r.caller, o.proposal, now)
    &&& o.revision == r.operation_revision && g.revision == r.grant_revision
    &&& sha256(snapshot_preimage(o, g, p)) == r.snapshot@
}

/// The error a request that is no longer current gets.
pub open spec fn current_error(s: ExecutorState, r: RequestRecord, now: u64, e: Error) -> bool {
    let o = s.operations@[op_at(s.operations@, r.operation)];
    let g = s.grants@[grant_at(s.grants@, r.grant)];
    if s.paused {
        e matches Error::Denied(m) && m@ == "paused"@
    } else if now >= r.expires_at_ns {
        e == Error::Expired
    } else if !plan_exists(s.plans@, r.plan) {
        e == Error::NotFound
    } else if !eligible_spec(g, r.caller, o.proposal, now) {
        eligible_error(g, r.caller, o.proposal, now, e)
    } else {
        e == Error::Stale
    }
}

/// The owner or the request's caller may act on it.
pub open spec fn may_act(s: ExecutorState, caller: Principal, r: RequestRecord) -> bool {
    caller@ == r.caller@ || caller@ == s.owner@
}

/// `t` is `s` with request `id` marked stale and its pending evaluation dropped.
pub open spec fn marked(s: ExecutorState, t: ExecutorState, id: Digest, status: Status) -> bool {
    let i = request_at(s.requests@, id);
    &&& request_exists(s.requests@, id)
    &&& t.requests@ == s.requests@.update(i, RequestRecord { status, pending: None, ..s.requests@[i] })
    &&& t.plans == s.plans && t.operations == s.operations && t.grants == s.grants
    &&& t.next_nonce == s.next_nonce && t.mode == s.mode && t.paused == s.paused
    &&& t.mock_ledgers == s.mock_ledgers
}

/// What the evaluation id of slot `slot` of request `id` hashes.
pub open spec fn slot_preimage(id: Digest, slot: u64, snapshot: Digest) -> Seq<u8> {
    frame("ic-laya/slot/v1".spec_bytes()) + frame(id@) + be64(slot) + frame(snapshot@)
}

/// The slot `k` of the masses `m` holding the first maximum.
pub open spec fn first_max(m: Seq<u32>) -> int {
    choose|k: int| is_first_max(m, k)
}

/// Whether a registered rule passes on masses `m` with tie flag `tied`.
pub open spec fn rule_holds(rule: Rule, schema: Schema, m: Seq<u32>, tied: bool) -> bool {
    match rule {
        Rule::NoulTrue { minimum_ppm } => m[1] >= minimum_ppm && !tied,
        Rule::ChoiceIs { option_id, minimum_ppm } => schema.options@[first_max(m)].id@ == option_id@
            && m[first_max(m)] >= minimum_ppm && !tied,
        Rule::ScoreTailAtMost { first_bad_bin, maximum_ppm } => mass_sum(
            m.subrange(first_bad_bin as int, m.len() as int),
        ) <= maximum_ppm,
    }
}

/// The value passes `validate_value` against the schema.
pub open spec fn value_checks(schema: Schema, v: DecisionValue) -> bool {
    valid_mass(v.spec_masses()) && value_shape_ok(schema, v.spec_masses().len() as int)
        && is_value_of(schema, v.spec_masses(), v)
}

/// The fields of the stamp an honest engine puts on the answer to `req` for
/// signal `sig`.
pub open spec fn stamp_expected(st: Stamp, req: DecisionRequest, sig: RequiredSignal) -> bool {
    &&& st.evaluation_id@ == req.evaluation_id@ && st.schema_hash@ == sig.schema.schema_hash@
    &&& st.tokenizer_hash@ == sig.schema.tokenizer_hash@ && st.model@ == req.model@
    &&& opt_digest_same(st.calibration, req.calibration) && binding_same(st.binding, req.binding)
    &&& st.state_hash@ == sha256(sbytes(req.state)) && st.profile@ == PROFILE@
}

/// `check_rule` accepts the receipt: an abstention, or an assessed value that
/// validates against the schema, carries its own diagnostics, and whose score
/// rule names a real bin.
pub open spec fn receipt_valid(sig: RequiredSignal, rc: Receipt) -> bool {
    match rc.outcome {
        EvaluationOutcome::Abstained(_) => true,
        EvaluationOutcome::Error(_) => false,
        EvaluationOutcome::Assessed(v) => {
            &&& value_checks(sig.schema.schema, v)
            &&& rc.diagnostics matches Some(dg) && diag_of(v.spec_masses(), dg)
            &&& sig.rule matches Rule::ScoreTailAtMost { first_bad_bin, .. } ==> first_bad_bin < v.spec_masses().len()
        },
    }
}

/// Whether an accepted receipt passes the signal's rule (an abstention never does).
pub open spec fn receipt_passes(sig: RequiredSignal, rc: Receipt) -> bool {
    match rc.outcome {
        EvaluationOutcome::Assessed(v) => rule_holds(sig.rule, sig.schema.schema, v.spec_masses(), rc.diagnostics->0.tied),
        _ => false,
    }
}

/// The engine's answer is kept: its stamp matches the request and the signal,
/// its token count is in range, and `check_rule` accepts it.
pub open spec fn receipt_accepted(result: Result<Receipt, Error>, req: DecisionRequest, sig: RequiredSignal) -> bool {
    &&& result matches Ok(rc)
    &&& stamp_expected(result->Ok_0.stamp, req, sig)
    &&& 0 < result->Ok_0.input_tokens <= MAX_TOKENS
    &&& receipt_valid(sig, result->Ok_0)
}

/// A status as a tag and the text it carries (empty for the plain states).
pub open spec fn status_view(s: Status) -> (u8, Seq<char>) {
    match s {
        Status::Received => (0, Seq::empty()),
        Status::Evaluating => (1, Seq::empty()),
        Status::ReadyToDispatch => (2, Seq::empty()),
        Status::Reported => (3, Seq::empty()),
        Status::NeedsReview(m) => (4, m@),
        Status::Stale => (5, Seq::empty()),
        Status::Cancelled => (6, Seq::empty()),
        Status::Submitted => (7, Seq::empty()),
        Status::OutcomeUnknown(m) => (8, m@),
        Status::Succeeded(m) => (9, m@),
        Status::FailedDefinitive(m) => (10, m@),
    }
}

pub fn copy_status(s: &Status) -> (c: Status)
    ensures
        status_view(c) == status_view(*s),
        c == *s || (c is NeedsReview && s is NeedsReview) || (c is OutcomeUnknown && s is OutcomeUnknown)
            || (c is Succeeded && s is Succeeded) || (c is FailedDefinitive && s is FailedDefinitive),
        c is Received <==> s is Received,
        c is Evaluating <==> s is Evaluating,
        c is ReadyToDispatch <==> s is ReadyToDispatch,
        c is Reported <==> s is Reported,
        c is NeedsReview <==> s is NeedsReview,
        c is Stale <==> s is Stale,
        c is Cancelled <==> s is Cancelled,
        c is Submitted <==> s is Submitted,
        c is OutcomeUnknown <==> s is OutcomeUnknown,
        c is Succeeded <==> s is Succeeded,
        c is FailedDefinitive <==> s is FailedDefinitive,
{
    match s {
        Status::Received => Status::Received,
        Status::Evaluating => Status::Evaluating,
        Status::ReadyToDispatch => Status::ReadyToDispatch,
        Status::Reported => Status::Reported,
        Status::NeedsReview(m) => Status::NeedsReview(m.clone()),
        Status::Stale => Status::Stale,
        Status::Cancelled => Status::Cancelled,
        Status::Submitted => Status::Submitted,
        Status::OutcomeUnknown(m) => Status::OutcomeUnknown(m.clone()),
        Status::Succeeded(m) => Status::Succeeded(m.clone()),
        Status::FailedDefinitive(m) => Status::FailedDefinitive(m.clone()),
    }
}

/// Checks an accepted receipt against its signal: abstentions never pass,
/// carried errors are returned, and an assessed value must validate, carry its
/// own diagnostics, and then passes or fails the registered rule.
pub fn check_rule(required: &RequiredSignal, receipt: &Receipt) -> (r: Result<bool, Error>)
    ensures
        r is Ok <==> receipt_valid(*required, *receipt),
        r matches Ok(b) ==> b == receipt_passes(*required, *receipt),
        r matches Err(e) ==> (receipt.outcome matches EvaluationOutcome::Error(x) ==> error_same(e, x)),
{
    let v = match &receipt.outcome {
        EvaluationOutcome::Assessed(v) => v,
        EvaluationOutcome::Abstained(_) => return Ok(false),
        EvaluationOutcome::Error(e) => return Err(copy_error(e)),
    };
    let schema = &required.schema.schema;
    let d = validate_value(schema, v)?;
    let dg = d.diagnostics();
    let expected = Some(dg);
    if !diagnostics_eq(&receipt.diagnostics, &expected) {
        proof {
            if receipt.diagnostics is Some && diag_of(v.spec_masses(), receipt.diagnostics->0) {
                lemma_diag_unique(v.spec_masses(), receipt.diagnostics->0, dg);
            }
        }
        return Err(Error::BindingMismatch);
    }
    let m = d.as_slice();
    match &required.rule {
        Rule::NoulTrue { minimum_ppm } => Ok(m[1] >= *minimum_ppm && !dg.tied),
        Rule::ChoiceIs { option_id, minimum_ppm } => {
            let k = d.argmax();
            proof {
                lemma_first_max_unique(v.spec_masses(), k as int, first_max(v.spec_masses()));
            }
            Ok(schema.options[k].id == *option_id && m[k] >= *minimum_ppm && !dg.tied)
        },
        Rule::ScoreTailAtMost { first_bad_bin, maximum_ppm } => {
            let t = d.tail(*first_bad_bin as usize)?;
            Ok(t <= *maximum_ppm)
        },
    }
}

fn stamp_matches(st: &Stamp, req: &DecisionRequest, sig: &RequiredSignal) -> (r: bool)
    ensures
        r == stamp_expected(*st, *req, *sig),
{
    let state_hash = hash(req.state.as_str().as_bytes());
    digest_eq(&st.evaluation_id, &req.evaluation_id) && digest_eq(&st.schema_hash, &sig.schema.schema_hash)
        && digest_eq(&st.tokenizer_hash, &sig.schema.tokenizer_hash) && digest_eq(&st.model, &req.model)
        && opt_digest_eq(&st.calibration, &req.calibration) && binding_eq(&st.binding, &req.binding)
        && digest_eq(&st.state_hash, &state_hash) && str_eq(st.profile.as_str(), PROFILE)
}

/// Receipt `k` of the request is bound to this request, slot, snapshot, model,
/// schema and calibration, validates and passes its rule; in live mode it must
/// also come from a real checkpoint.
pub open spec fn receipt_bound(s: ExecutorState, rec: RequestRecord, p: Plan, k: int) -> bool {
    let v = rec.receipts@[k];
    let sig = p.signals@[k];
    &&& binding_same(
        v.stamp.binding,
        Some(Binding { workflow: rec.id, slot: k as u8, attempt: 0, snapshot: rec.snapshot }),
    )
    &&& v.stamp.model@ == p.model@ && v.stamp.schema_hash@ == sig.schema.schema_hash@
    &&& opt_digest_same(v.stamp.calibration, Some(sig.calibration))
    &&& receipt_valid(sig, v) && receipt_passes(sig, v)
    &&& !(s.mode == Mode::LimitedLive && v.stamp.backend == BackendKind::SyntheticFixture)
}

/// When a transfer may be authorized: the request is current and ready, every
/// signal of its plan has a bound, passing receipt, and the operation is still
/// available.
pub open spec fn authorize_ok(s: ExecutorState, caller: Principal, id: Digest, now: u64) -> bool {
    let rec = s.requests@[request_at(s.requests@, id)];
    let p = s.plans@[plan_at(s.plans@, rec.plan)];
    &&& request_exists(s.requests@, id) && may_act(s, caller, rec) && current_ok(s, rec, now)
    &&& rec.status == Status::ReadyToDispatch && rec.pending is None
    &&& rec.receipts@.len() == p.signals@.len()
    &&& forall|k: int| 0 <= k < rec.receipts@.len() ==> #[trigger] receipt_bound(s, rec, p, k)
    &&& s.operations@[op_at(s.operations@, rec.operation)].status == OperationStatus::Available
}

pub open spec fn ledger_registered(ls: Seq<Principal>, l: Principal) -> bool {
    exists|k: int| 0 <= k < ls.len() && #[trigger] ls[k]@ == l@
}

/// A dispatch in mock mode: the grant reserves the charge in the current window,
/// the operation is reserved by the request, and the request holds the
/// reservation and the frozen transfer that the command carries.
pub open spec fn dispatched(s: ExecutorState, t: ExecutorState, id: Digest, now: u64, cmd: DispatchCommand) -> bool {
    let i = request_at(s.requests@, id);
    let rec = s.requests@[i];
    let k = op_at(s.operations@, rec.operation);
    let o = s.operations@[k];
    let j = grant_at(s.grants@, rec.grant);
    let g = s.grants@[j];
    let charge = (o.proposal.amount + o.proposal.fee) as u128;
    let epoch = (now / g.window_ns) as u64;
    let nr = t.requests@[i];
    &&& s.mode == Mode::Mock && authorize_ok(s, rec.caller, id, now)
    &&& ledger_registered(s.mock_ledgers@, o.proposal.ledger)
    &&& o.proposal.amount + o.proposal.fee <= u128::MAX && reserve_ok(g, charge, epoch)
    &&& t.grants@ == s.grants@.update(j, t.grants@[j]) && reserved_from(g, t.grants@[j], charge, epoch)
    &&& t.operations@ == s.operations@.update(k, Operation { status: OperationStatus::Reserved(id), ..o })
    &&& t.requests@ == s.requests@.update(i, nr) && same_keys(rec, RequestRecord { reservation: rec.reservation, ..nr })
    &&& nr.reservation == Some(Reservation { charge, epoch }) && nr.status == Status::Submitted
    &&& nr.ledger_attempt == 1
    &&& nr.frozen matches Some(f) && f@ == (o.proposal@, id@, now)
    &&& nr.receipts == rec.receipts && nr.pending == rec.pending && nr.ever_unknown == rec.ever_unknown
    &&& cmd.request == id && cmd.attempt == 1 && cmd.transfer@ == (o.proposal@, id@, now)
    &&& t.plans == s.plans && t.next_nonce == s.next_nonce && t.mode == s.mode && t.paused == s.paused
}

/// A block index as the ledger reports it: 1 to 128 ASCII digits.
pub open spec fn block_index_ok(b: Seq<u8>) -> bool {
    0 < b.len() <= 128 && forall|k: int| 0 <= k < b.len() ==> 48 <= #[trigger] b[k] <= 57
}

/// The request's reservation is settled: the grant moves the charge out of
/// reserved (into spent on success), the operation is consumed on success and
/// available again otherwise, and the request ends `Succeeded` or
/// `FailedDefinitive` with `text`, holding nothing.
pub open spec fn settled(s: ExecutorState, t: ExecutorState, i: int, success: bool, text: String) -> bool {
    let rec = s.requests@[i];
    let res = rec.reservation->0;
    let k = op_at(s.operations@, rec.operation);
    let o = s.operations@[k];
    let j = grant_at(s.grants@, rec.grant);
    let nr = t.requests@[i];
    &&& rec.reservation is Some
    &&& t.grants@ == s.grants@.update(j, t.grants@[j])
    &&& settled_from(s.grants@[j], t.grants@[j], res.charge, res.epoch, success)
    &&& t.operations@ == s.operations@.update(k, Operation {
        status: if success { OperationStatus::Consumed(rec.id) } else { OperationStatus::Available },
        ..o
    })
    &&& t.requests@ == s.requests@.update(i, nr)
    &&& nr == RequestRecord {
        reservation: None,
        status: if success { Status::Succeeded(text) } else { Status::FailedDefinitive(text) },
        ..rec
    }
    &&& t.plans == s.plans && t.next_nonce == s.next_nonce && t.mode == s.mode && t.paused == s.paused
}

/// A retry goes out: the caller may act on the request, it is current, the
/// executor is in mock mode, the outcome is unknown after fewer than two
/// attempts, and the frozen transfer is within the deduplication window.
pub open spec fn retry_allowed(s: ExecutorState, caller: Principal, id: Digest, now: u64) -> bool {
    let rec = s.requests@[request_at(s.requests@, id)];
    &&& request_exists(s.requests@, id) && may_act(s, caller, rec) && current_ok(s, rec, now)
    &&& s.mode == Mode::Mock && rec.status is OutcomeUnknown && rec.ledger_attempt < 2
    &&& rec.frozen matches Some(f) && f.created_at_time_ns <= now && now - f.created_at_time_ns <= MOCK_DEDUP_WINDOW_NS
}

/// Why a retry is refused, in the order of the checks: `NotFound`,
/// `Unauthorized`, the currency check's error, `Transition` outside mock mode
/// or a known outcome or after two attempts, `Storage` without a frozen
/// transfer, `Expired` outside the deduplication window.
pub open spec fn retry_error(s: ExecutorState, caller: Principal, id: Digest, now: u64, e: Error) -> bool {
    let rec = s.requests@[request_at(s.requests@, id)];
    if !request_exists(s.requests@, id) {
        e == Error::NotFound
    } else if !may_act(s, caller, rec) {
        e == Error::Unauthorized
    } else if !current_ok(s, rec, now) {
        current_error(s, rec, now, e)
    } else if !(s.mode == Mode::Mock && rec.status is OutcomeUnknown && rec.ledger_attempt < 2) {
        e == Error::Transition
    } else if rec.frozen is None {
        e == Error::Storage
    } else {
        e == Error::Expired
    }
}

impl ExecutorState {
    /// The executor's invariant: unique ids; every request's operation, grant and
    /// nonce entry exist; a held reservation marks its operation and sits in a
    /// holding status with a window; a success consumed its operation; each
    /// grant's books match what the requests hold and stay within its caps; and
    /// every caller's next nonce is past the nonces it used.
    pub open spec fn inv(&self) -> bool {
        state_inv(self.plans@, self.operations@, self.grants@, self.requests@, self.next_nonce@)
    }

    pub open spec fn is_owner(&self, caller: Principal) -> bool {
        caller@ == self.owner@ && caller@ != anonymous_bytes()
    }

    /// Identity, mode, pause and mock ledgers as in `other`.
    pub open spec fn same_meta(&self, other: &Self) -> bool {
        &&& self.instance == other.instance && self.owner == other.owner && self.engine == other.engine
        &&& self.mode == other.mode && self.paused == other.paused && self.mock_ledgers == other.mock_ledgers
    }

    /// Identity, registries and ledgers as in `other`.
    pub open spec fn same_registries(&self, other: &Self) -> bool {
        &&& self.instance == other.instance && self.owner == other.owner && self.engine == other.engine
        &&& self.plans == other.plans && self.operations == other.operations
        &&& self.grants == other.grants && self.requests == other.requests
        &&& self.next_nonce == other.next_nonce && self.mock_ledgers == other.mock_ledgers
    }

    pub fn new(instance: Principal, owner: Principal, engine: Principal) -> (s: Self)
        ensures
            s.instance == instance && s.owner == owner && s.engine == engine,
            s.mode == Mode::ReportOnly && !s.paused,
            s.plans@.len() == 0 && s.operations@.len() == 0 && s.grants@.len() == 0,
            s.requests@.len() == 0 && s.next_nonce@.len() == 0 && s.mock_ledgers@.len() == 0,
            s.inv(),
    {
        ExecutorState {
            instance,
            owner,
            engine,
            mode: Mode::ReportOnly,
            paused: false,
            plans: Vec::new(),
            operations: Vec::new(),
            grants: Vec::new(),
            requests: Vec::new(),
            next_nonce: Vec::new(),
            mock_ledgers: Vec::new(),
        }
    }

    /// The owner, never the anonymous principal.
    pub fn assert_owner(&self, caller: &Principal) -> (r: Result<(), Error>)
        ensures
            r is Ok <==> self.is_owner(*caller),
            r matches Err(e) ==> e == Error::Unauthorized,
    {
        let anon = Principal::anonymous();
        if !caller.same(&self.owner) || caller.same(&anon) {
            Err(Error::Unauthorized)
        } else {
            Ok(())
        }
    }

    /// The owner switches modes; live mode stays closed in this release.
    pub fn set_mode(&mut self, caller: &Principal, mode: Mode) -> (r: Result<(), Error>)
        requires
            old(self).inv(),
        ensures
            r is Ok <==> old(self).is_owner(*caller) && mode != Mode::LimitedLive,
            r matches Err(e) ==> *final(self) == *old(self) && if !old(self).is_owner(*caller) {
                e == Error::Unauthorized
            } else {
                e == Error::LiveDisabled
            },
            r is Ok ==> final(self).mode == mode && final(self).paused == old(self).paused
                && final(self).same_registries(old(self)),
            final(self).inv(),
    {
        self.assert_owner(caller)?;
        if let Mode::LimitedLive = mode {
            return Err(Error::LiveDisabled);
        }
        self.mode = mode;
        Ok(())
    }

    pub fn set_paused(&mut self, caller: &Principal, pause: bool) -> (r: Result<(), Error>)
        requires
            old(self).inv(),
        ensures
            r is Ok <==> old(self).is_owner(*caller),
            r matches Err(e) ==> *final(self) == *old(self) && e == Error::Unauthorized,
            r is Ok ==> final(self).paused == pause && final(self).mode == old(self).mode
                && final(self).same_registries(old(self)),
            final(self).inv(),
    {
        self.assert_owner(caller)?;
        self.paused = pause;
        Ok(())
    }

    fn find_plan(&self, id: &Digest) -> (r: Option<usize>)
        ensures
            r is None <==> !plan_exists(self.plans@, *id),
            r matches Some(j) ==> j < self.plans@.len() && self.plans@[j as int].id == *id,
    {
        let mut j: usize = 0;
        while j < self.plans.len()
            invariant
                j <= self.plans@.len(),
                forall|k: int| 0 <= k < j ==> #[trigger] self.plans@[k].id != *id,
            decreases self.plans@.len() - j,
        {
            if digest_eq(&self.plans[j].id, id) {
                return Some(j);
            }
            j = j + 1;
        }
        None
    }

    fn find_operation(&self, id: &Digest) -> (r: Option<usize>)
        ensures
            r is None <==> !op_exists(self.operations@, *id),
            r matches Some(j) ==> j < self.operations@.len() && self.operations@[j as int].id == *id,
    {
        let mut j: usize = 0;
        while j < self.operations.len()
            invariant
                j <= self.operations@.len(),
                forall|k: int| 0 <= k < j ==> #[trigger] self.operations@[k].id != *id,
            decreases self.operations@.len() - j,
        {
            if digest_eq(&self.operations[j].id, id) {
                return Some(j);
            }
            j = j + 1;
        }
        None
    }

    fn find_grant(&self, id: &Digest) -> (r: Option<usize>)
        ensures
            r is None <==> !grant_exists(self.grants@, *id),
            r matches Some(j) ==> j < self.grants@.len() && self.grants@[j as int].id == *id,
    {
        let mut j: usize = 0;
        while j < self.grants.len()
            invariant
                j <= self.grants@.len(),
                forall|k: int| 0 <= k < j ==> #[trigger] self.grants@[k].id != *id,
            decreases self.grants@.len() - j,
        {
            if digest_eq(&self.grants[j].id, id) {
                return Some(j);
            }
            j = j + 1;
        }
        None
    }

    fn find_request(&self, id: &Digest) -> (r: Option<usize>)
        ensures
            r is None <==> forall|k: int| 0 <= k < self.requests@.len() ==> #[trigger] self.requests@[k].id != *id,
            r matches Some(j) ==> j < self.requests@.len() && self.requests@[j as int].id == *id,
    {
        let mut j: usize = 0;
        while j < self.requests.len()
            invariant
                j <= self.requests@.len(),
                forall|k: int| 0 <= k < j ==> #[trigger] self.requests@[k].id != *id,
            decreases self.requests@.len() - j,
        {
            if digest_eq(&self.requests[j].id, id) {
                return Some(j);
            }
            j = j + 1;
        }
        None
    }

    fn find_nonce(&self, caller: &Principal) -> (r: Option<usize>)
        ensures
            r is None <==> !nonce_exists(self.next_nonce@, caller@),
            r matches Some(k) ==> k < self.next_nonce@.len() && self.next_nonce@[k as int].caller@ == caller@,
    {
        let mut j: usize = 0;
        while j < self.next_nonce.len()
            invariant
                j <= self.next_nonce@.len(),
                forall|k: int| 0 <= k < j ==> #[trigger] self.next_nonce@[k].caller@ != caller@,
            decreases self.next_nonce@.len() - j,
        {
            if self.next_nonce[j].caller.same(caller) {
                return Some(j);
            }
            j = j + 1;
        }
        None
    }

    /// Registers a valid plan. Re-installing the same content is a no-op; a
    /// different plan under a used id is `IdConflict`; at most 64 plans.
    pub fn install_plan(&mut self, caller: &Principal, p: Plan) -> (r: Result<(), Error>)
        requires
            old(self).inv(),
        ensures
            final(self).same_meta(old(self)),
            r is Ok <==> old(self).is_owner(*caller) && plan_valid(p) && (if plan_exists(old(self).plans@, p.id) {
                exists|j: int| 0 <= j < old(self).plans@.len() && old(self).plans@[j].id == p.id
                    && #[trigger] plan_same(old(self).plans@[j], p)
            } else {
                old(self).plans@.len() < MAX_REGISTRY
            }),
            r matches Err(e) ==> *final(self) == *old(self) && if !old(self).is_owner(*caller) {
                e == Error::Unauthorized
            } else if !plan_valid(p) {
                !(e is Unauthorized)
            } else if plan_exists(old(self).plans@, p.id) {
                e == Error::IdConflict
            } else {
                e == Error::Capacity
            },
            r is Ok ==> final(self).mode == old(self).mode && final(self).paused == old(self).paused
                && final(self).operations == old(self).operations && final(self).grants
                == old(self).grants && final(self).requests == old(self).requests
                && final(self).next_nonce == old(self).next_nonce,
            r is Ok ==> if plan_exists(old(self).plans@, p.id) {
                final(self).plans@ == old(self).plans@
            } else {
                final(self).plans@ == old(self).plans@.push(p)
            },
            final(self).inv(),
    {
        self.assert_owner(caller)?;
        match p.validate() {
            Ok(()) => {},
            Err(e) => {
                assert(!(e is Unauthorized));
                return Err(e);
            },
        }
        match self.find_plan(&p.id) {
            Some(j) => {
                if plan_eq(&self.plans[j], &p) {
                    return Ok(());
                }
                proof {
                    assert forall|k: int| 0 <= k < self.plans@.len() && self.plans@[k].id == p.id
                        implies !#[trigger] plan_same(self.plans@[k], p) by {
                        if k < j {
                            assert(self.plans@[k].id != self.plans@[j as int].id);
                        } else if k > j {
                            assert(self.plans@[j as int].id != self.plans@[k].id);
                        }
                    }
                }
                return Err(Error::IdConflict);
            },
            None => {},
        }
        if self.plans.len() >= MAX_REGISTRY {
            return Err(Error::Capacity);
        }
        proof {
            lemma_plan_push(self.plans@, self.operations@, self.grants@, self.requests@, self.next_nonce@, p);
        }
        self.plans.push(p);
        Ok(())
    }

    /// Registers a trusted operation: a valid proposal, a nonzero id and revision,
    /// evidence of 1 to `MAX_STATE_BYTES` bytes, status `Available`, a new id, and
    /// room among at most 512 operations.
    pub fn install_operation(&mut self, caller: &Principal, o: Operation) -> (r: Result<(), Error>)
        requires
            old(self).inv(),
        ensures
            final(self).same_meta(old(self)),
            r is Ok <==> old(self).is_owner(*caller) && proposal_valid(o.proposal) && operation_shape_ok(o)
                && !op_exists(old(self).operations@, o.id) && old(self).operations@.len() < MAX_REQUESTS,
            r matches Err(e) ==> *final(self) == *old(self) && if !old(self).is_owner(*caller) {
                e == Error::Unauthorized
            } else if !proposal_valid(o.proposal) {
                proposal_error(o.proposal, e)
            } else if !operation_shape_ok(o) {
                e matches Error::Invalid(m) && m@ == "operation"@
            } else if op_exists(old(self).operations@, o.id) {
                e == Error::IdConflict
            } else {
                e == Error::Capacity
            },
            r is Ok ==> final(self).operations@ == old(self).operations@.push(o) && final(self).plans
                == old(self).plans && final(self).grants == old(self).grants && final(self).requests
                == old(self).requests && final(self).next_nonce == old(self).next_nonce,
            final(self).inv(),
    {
        self.assert_owner(caller)?;
        o.proposal.validate()?;
        let n = o.evidence.as_str().as_bytes().len();
        let available = match o.status {
            OperationStatus::Available => true,
            _ => false,
        };
        if digest_is_zero(&o.id) || o.revision == 0 || n == 0 || n > MAX_STATE_BYTES || !available {
            return Err(Error::Invalid(String::from_str("operation")));
        }
        if self.find_operation(&o.id).is_some() {
            return Err(Error::IdConflict);
        }
        if self.operations.len() >= MAX_REQUESTS {
            return Err(Error::Capacity);
        }
        proof {
            lemma_op_push(self.plans@, self.operations@, self.grants@, self.requests@, self.next_nonce@, o);
        }
        self.operations.push(o);
        Ok(())
    }

    /// Replaces an available operation's evidence and bumps its revision, which
    /// makes every request bound to the old evidence stale.
    pub fn revise_operation(&mut self, caller: &Principal, id: Digest, evidence: String) -> (r: Result<(), Error>)
        requires
            old(self).inv(),
        ensures
            final(self).same_meta(old(self)),
            r is Ok <==> old(self).is_owner(*caller) && 0 < sbytes(evidence).len() <= MAX_STATE_BYTES
                && op_exists(old(self).operations@, id) && old(self).operations@[op_at(
                old(self).operations@,
                id,
            )].status == OperationStatus::Available && old(self).operations@[op_at(
                old(self).operations@,
                id,
            )].revision < u64::MAX,
            r matches Err(e) ==> *final(self) == *old(self) && if !old(self).is_owner(*caller) {
                e == Error::Unauthorized
            } else if !(0 < sbytes(evidence).len() <= MAX_STATE_BYTES) {
                e == Error::TooLong
            } else if !op_exists(old(self).operations@, id) {
                e == Error::NotFound
            } else if old(self).operations@[op_at(old(self).operations@, id)].status
                != OperationStatus::Available {
                e == Error::OperationUsed
            } else {
                e == Error::Capacity
            },
            r is Ok ==> {
                let j = op_at(old(self).operations@, id);
                let o = old(self).operations@[j];
                final(self).operations@ == old(self).operations@.update(
                    j,
                    Operation { evidence, revision: (o.revision + 1) as u64, ..o },
                )
            },
            r is Ok ==> final(self).plans == old(self).plans && final(self).grants == old(self).grants
                && final(self).requests == old(self).requests && final(self).next_nonce
                == old(self).next_nonce,
            final(self).inv(),
    {
        self.assert_owner(caller)?;
        let n = evidence.as_str().as_bytes().len();
        if n == 0 || n > MAX_STATE_BYTES {
            return Err(Error::TooLong);
        }
        let j = match self.find_operation(&id) {
            Some(j) => j,
            None => return Err(Error::NotFound),
        };
        proof {
            lemma_op_at(self.operations@, j as int);
        }
        match self.operations[j].status {
            OperationStatus::Available => {},
            _ => return Err(Error::OperationUsed),
        }
        if self.operations[j].revision == u64::MAX {
            return Err(Error::Capacity);
        }
        let ghost before = self.operations@;
        let rev = self.operations[j].revision + 1;
        self.operations[j].evidence = evidence;
        self.operations[j].revision = rev;
        proof {
            assert(self.operations@ =~= before.update(j as int, self.operations@[j as int]));
            lemma_op_update(self.plans@, before, self.grants@, self.requests@, self.next_nonce@, j as int, self.operations@[j as int]);
        }
        Ok(())
    }

    /// Registers a fresh grant for an installed plan.
    pub fn install_grant(&mut self, caller: &Principal, g: Grant) -> (r: Result<(), Error>)
        requires
            old(self).inv(),
        ensures
            final(self).same_meta(old(self)),
            r is Ok <==> old(self).is_owner(*caller) && grant_shape_ok(g) && recipients_ok(g.recipients@)
                && plan_exists(old(self).plans@, g.plan) && !grant_exists(old(self).grants@, g.id)
                && old(self).grants@.len() < MAX_REGISTRY,
            r matches Err(e) ==> *final(self) == *old(self) && if !old(self).is_owner(*caller) {
                e == Error::Unauthorized
            } else if !grant_shape_ok(g) {
                e matches Error::Invalid(m) && m@ == "grant"@
            } else if !recipients_ok(g.recipients@) {
                e matches Error::Invalid(m) && m@ == "recipient principal"@
            } else if !plan_exists(old(self).plans@, g.plan) {
                e == Error::NotFound
            } else if grant_exists(old(self).grants@, g.id) {
                e == Error::IdConflict
            } else {
                e == Error::Capacity
            },
            r is Ok ==> final(self).grants@ == old(self).grants@.push(g) && final(self).plans
                == old(self).plans && final(self).operations == old(self).operations
                && final(self).requests == old(self).requests && final(self).next_nonce
                == old(self).next_nonce,
            final(self).inv(),
    {
        self.assert_owner(caller)?;
        let anon = Principal::anonymous();
        if digest_is_zero(&g.id) || g.revision == 0 || g.delegate.same(&anon) || g.window_ns == 0
            || g.total.spent != 0 || g.total.reserved != 0 || g.windows.len() != 0 || g.revoked
            || g.recipients.len() == 0 || g.recipients.len() > 16 || g.max_amount == 0 || g.total_cap == 0
            || g.window_cap == 0 {
            return Err(Error::Invalid(String::from_str("grant")));
        }
        let mut i: usize = 0;
        while i < g.recipients.len()
            invariant
                i <= g.recipients@.len(),
                *self == *old(self),
                old(self).inv(),
                old(self).is_owner(*caller),
                grant_shape_ok(g),
                forall|k: int| 0 <= k < i ==> party(#[trigger] g.recipients@[k].owner),
            decreases g.recipients@.len() - i,
        {
            match g.recipients[i].validate() {
                Ok(()) => {},
                Err(e) => return Err(e),
            }
            i = i + 1;
        }
        if self.find_plan(&g.plan).is_none() {
            return Err(Error::NotFound);
        }
        if self.find_grant(&g.id).is_some() {
            return Err(Error::IdConflict);
        }
        if self.grants.len() >= MAX_REGISTRY {
            return Err(Error::Capacity);
        }
        proof {
            assert(g.total == (Usage { spent: 0, reserved: 0 }));
            lemma_grant_push(self.plans@, self.operations@, self.grants@, self.requests@, self.next_nonce@, g);
        }
        self.grants.push(g);
        Ok(())
    }

    /// Revokes a grant and bumps its revision; requests on it can no longer
    /// advance, but outstanding ledger outcomes still reconcile.
    pub fn revoke(&mut self, caller: &Principal, id: Digest) -> (r: Result<(), Error>)
        requires
            old(self).inv(),
        ensures
            final(self).same_meta(old(self)),
            r is Ok <==> old(self).is_owner(*caller) && grant_exists(old(self).grants@, id)
                && old(self).grants@[grant_at(old(self).grants@, id)].revision < u64::MAX,
            r matches Err(e) ==> *final(self) == *old(self) && if !old(self).is_owner(*caller) {
                e == Error::Unauthorized
            } else if !grant_exists(old(self).grants@, id) {
                e == Error::NotFound
            } else {
                e == Error::Capacity
            },
            r is Ok ==> {
                let j = grant_at(old(self).grants@, id);
                let g = old(self).grants@[j];
                final(self).grants@ == old(self).grants@.update(
                    j,
                    Grant { revoked: true, revision: (g.revision + 1) as u64, ..g },
                )
            },
            r is Ok ==> final(self).plans == old(self).plans && final(self).operations
                == old(self).operations && final(self).requests == old(self).requests
                && final(self).next_nonce == old(self).next_nonce,
            final(self).inv(),
    {
        self.assert_owner(caller)?;
        let j = match self.find_grant(&id) {
            Some(j) => j,
            None => return Err(Error::NotFound),
        };
        proof {
            lemma_grant_at(self.grants@, j as int);
        }
        if self.grants[j].revision == u64::MAX {
            return Err(Error::Capacity);
        }
        let ghost before = self.grants@;
        let rev = self.grants[j].revision + 1;
        self.grants[j].revoked = true;
        self.grants[j].revision = rev;
        proof {
            assert(self.grants@ =~= before.update(j as int, self.grants@[j as int]));
            lemma_grant_update(self.plans@, self.operations@, before, self.requests@, self.next_nonce@, j as int, self.grants@[j as int]);
        }
        Ok(())
    }

    fn request_id(&self, caller: &Principal, nonce: u64) -> (d: Digest)
        ensures
            d@ == sha256(request_id_preimage(self.instance, *caller, nonce)),
    {
        let mut h = Canonical::new("ic-laya/workflow/v1");
        h.bytes(self.instance.as_slice());
        h.bytes(caller.as_slice());
        h.u64(nonce);
        assert(h@ =~= request_id_preimage(self.instance, *caller, nonce));
        h.finish()
    }

    /// Opens a request under `(caller, nonce)`. The caller's next nonce opens a
    /// new request, bound to a snapshot of the operation, grant and plan; an
    /// earlier nonce replays the same answer for the same operation and grant.
    pub fn submit(
        &mut self,
        caller: &Principal,
        nonce: u64,
        operation: Digest,
        grant: Digest,
        now: u64,
    ) -> (r: Result<Digest, Error>)
        requires
            old(self).inv(),
        ensures
            final(self).inv(),
            r matches Ok(id) ==> id@ == sha256(request_id_preimage(old(self).instance, *caller, nonce)),
            r is Err ==> *final(self) == *old(self),
            r matches Err(e) ==> (old(self).paused ==> (e matches Error::Denied(m) && m@ == "paused"@)),
            r matches Err(e) ==> (!old(self).paused && caller@ == anonymous_bytes() ==> e == Error::Unauthorized),
            ({
                let next = nonce_of(old(self).next_nonce@, caller@);
                !old(self).paused && caller@ != anonymous_bytes() ==> {
                    &&& nonce > next ==> r == Err::<Digest, Error>(Error::NonceGap)
                    &&& nonce < next ==> (r is Ok ==> *final(self) == *old(self))
                    &&& nonce == next ==> (r matches Ok(id) ==> submitted(*old(self), *final(self), *caller, nonce, operation, grant, now, id))
                }
            }),
    {
        if self.paused {
            return Err(Error::Denied(String::from_str("paused")));
        }
        let anon = Principal::anonymous();
        if caller.same(&anon) {
            return Err(Error::Unauthorized);
        }
        let slot = self.find_nonce(caller);
        let next = match slot {
            Some(k) => self.next_nonce[k].next,
            None => 0,
        };
        proof {
            if let Some(k) = slot {
                lemma_nonce_at(self.next_nonce@, k as int);
            }
        }
        let id = self.request_id(caller, nonce);
        if nonce < next {
            return match self.find_request(&id) {
                Some(i) => if digest_eq(&self.requests[i].operation, &operation) && digest_eq(&self.requests[i].grant, &grant) {
                    Ok(id)
                } else {
                    Err(Error::IdConflict)
                },
                None => Err(Error::NonceConsumed),
            };
        }
        if nonce > next {
            return Err(Error::NonceGap);
        }
        if self.requests.len() >= MAX_REQUESTS || (slot.is_none() && self.next_nonce.len() >= MAX_REGISTRY) {
            return Err(Error::Capacity);
        }
        let gi = match self.find_grant(&grant) {
            Some(j) => j,
            None => return Err(Error::NotFound),
        };
        let oi = match self.find_operation(&operation) {
            Some(j) => j,
            None => return Err(Error::NotFound),
        };
        self.grants[gi].eligible(caller, &self.operations[oi].proposal, now)?;
        match self.operations[oi].status {
            OperationStatus::Available => {},
            _ => return Err(Error::OperationUsed),
        }
        let pi = match self.find_plan(&self.grants[gi].plan) {
            Some(j) => j,
            None => return Err(Error::NotFound),
        };
        let horizon = match now.checked_add(300_000_000_000) {
            Some(x) => x,
            None => return Err(Error::Expired),
        };
        let g_exp = self.grants[gi].expires_at_ns;
        let expires = if horizon < g_exp { horizon } else { g_exp };
        if next == u64::MAX {
            return Err(Error::Capacity);
        }
        let new_next = next + 1;
        if self.find_request(&id).is_some() {
            return Err(Error::IdConflict);
        }
        proof {
            lemma_grant_at(self.grants@, gi as int);
            lemma_op_at(self.operations@, oi as int);
            lemma_plan_at(self.plans@, pi as int);
        }
        let snapshot = snapshot_of(&self.operations[oi], &self.grants[gi], &self.plans[pi]);
        let record = RequestRecord {
            id,
            caller: caller.clone_principal(),
            nonce,
            operation,
            grant,
            plan: self.grants[gi].plan,
            operation_revision: self.operations[oi].revision,
            grant_revision: self.grants[gi].revision,
            snapshot,
            expires_at_ns: expires,
            status: Status::Received,
            receipts: Vec::new(),
            pending: None,
            reservation: None,
            frozen: None,
            ledger_attempt: 0,
            ever_unknown: false,
        };
        let ghost nn = self.next_nonce@;
        match slot {
            Some(k) => {
                self.next_nonce[k].next = new_next;
            },
            None => {
                self.next_nonce.push(NonceEntry { caller: caller.clone_principal(), next: new_next });
            },
        }
        proof {
            let nn2 = self.next_nonce@;
            assert forall|a: int, b: int| 0 <= a < b < nn2.len() implies #[trigger] nn2[a].caller@ != #[trigger] nn2[b].caller@ by {
                if b < nn.len() {
                    assert(nn[a].caller@ != nn[b].caller@);
                }
            }
            match slot {
                Some(k) => {
                    assert(nn2[k as int].caller@ == caller@);
                },
                None => {
                    assert(nn2[nn.len() as int].caller@ == caller@);
                },
            }
            assert forall|x: Seq<u8>| nonce_exists(nn, x) implies #[trigger] nonce_exists(nn2, x) by {
                let w = choose|w: int| 0 <= w < nn.len() && #[trigger] nn[w].caller@ == x;
                assert(nn2[w].caller@ == x);
            }
            assert forall|a: int, b: int|
                0 <= a < nn2.len() && 0 <= b < nn.len() && #[trigger] nn2[a].caller@ == #[trigger] nn[b].caller@
                implies nn2[a].next >= nn[b].next by {
                if a != b && a < nn.len() {
                    if a < b {
                        assert(nn[a].caller@ != nn[b].caller@);
                    } else {
                        assert(nn[b].caller@ != nn[a].caller@);
                    }
                }
                if a == nn.len() {
                    assert(nn[b].caller@ == caller@);
                }
            }
            assert forall|a: int| 0 <= a < nn2.len() && #[trigger] nn2[a].caller@ == caller@ implies nn2[a].next > nonce by {
                if let Some(k) = slot {
                    if a != k {
                        if a < k {
                            assert(nn[a].caller@ != nn[k as int].caller@);
                        } else if a < nn.len() {
                            assert(nn[k as int].caller@ != nn[a].caller@);
                        }
                    }
                } else {
                    if a < nn.len() {
                        assert(nn[a].caller@ == caller@);
                    }
                }
            }
            assert(!request_exists(self.requests@, id)) by {
                if request_exists(self.requests@, id) {
                    let w = choose|w: int| 0 <= w < self.requests@.len() && #[trigger] self.requests@[w].id == id;
                    assert(self.requests@[w].id != id);
                }
            }
            lemma_submit(self.plans@, self.operations@, self.grants@, self.requests@, nn, nn2, record);
            match slot {
                Some(k) => lemma_nonce_at(nn2, k as int),
                None => lemma_nonce_at(nn2, nn.len() as int),
            }
        }
        let ghost rs = self.requests@;
        self.requests.push(record);
        assert(self.requests@.drop_last() =~= rs);
        Ok(id)
    }

    fn owned(&self, caller: &Principal, id: &Digest) -> (r: Result<usize, Error>)
        requires
            self.inv(),
        ensures
            r matches Ok(i) ==> i < self.requests@.len() && i == request_at(self.requests@, *id)
                && may_act(*self, *caller, self.requests@[i as int]),
            r is Ok <==> request_exists(self.requests@, *id) && may_act(
                *self,
                *caller,
                self.requests@[request_at(self.requests@, *id)],
            ),
            r matches Err(e) ==> if !request_exists(self.requests@, *id) {
                e == Error::NotFound
            } else {
                e == Error::Unauthorized
            },
    {
        let i = match self.find_request(id) {
            Some(i) => i,
            None => {
                proof {
                    if request_exists(self.requests@, *id) {
                        let w = choose|w: int| 0 <= w < self.requests@.len() && #[trigger] self.requests@[w].id == *id;
                        assert(self.requests@[w].id != *id);
                    }
                }
                return Err(Error::NotFound);
            },
        };
        proof {
            lemma_request_at(self.requests@, i as int);
        }
        if !caller.same(&self.requests[i].caller) && !caller.same(&self.owner) {
            return Err(Error::Unauthorized);
        }
        Ok(i)
    }

    fn current(&self, i: usize, now: u64) -> (r: Result<(), Error>)
        requires
            self.inv(),
            i < self.requests@.len(),
        ensures
            r is Ok <==> current_ok(*self, self.requests@[i as int], now),
            r matches Err(e) ==> current_error(*self, self.requests@[i as int], now, e),
    {
        let r = &self.requests[i];
        if self.paused {
            return Err(Error::Denied(String::from_str("paused")));
        }
        if now >= r.expires_at_ns {
            return Err(Error::Expired);
        }
        proof {
            assert(refs_ok(self.operations@, self.grants@, self.next_nonce@, self.requests@[i as int]));
        }
        let oi = match self.find_operation(&r.operation) {
            Some(j) => j,
            None => return Err(Error::NotFound),
        };
        let gi = match self.find_grant(&r.grant) {
            Some(j) => j,
            None => return Err(Error::NotFound),
        };
        let pi = match self.find_plan(&r.plan) {
            Some(j) => j,
            None => return Err(Error::NotFound),
        };
        proof {
            lemma_op_at(self.operations@, oi as int);
            lemma_grant_at(self.grants@, gi as int);
            lemma_plan_at(self.plans@, pi as int);
        }
        let o = &self.operations[oi];
        let g = &self.grants[gi];
        g.eligible(&r.caller, &o.proposal, now)?;
        let snap = snapshot_of(o, g, &self.plans[pi]);
        if o.revision != r.operation_revision || g.revision != r.grant_revision || !digest_eq(&snap, &r.snapshot) {
            return Err(Error::Stale);
        }
        Ok(())
    }

    /// Marks request `i` with `status` and drops its pending evaluation.
    fn mark(&mut self, i: usize, status: Status)
        requires
            old(self).inv(),
            i < old(self).requests@.len(),
            old(self).requests@[i as int].reservation is None,
            !(status is Succeeded) && !(status is Submitted) && !(status is OutcomeUnknown),
        ensures
            marked(*old(self), *final(self), old(self).requests@[i as int].id, status),
            final(self).inv(),
            final(self).instance == old(self).instance && final(self).owner == old(self).owner,
    {
        proof {
            lemma_request_at(self.requests@, i as int);
        }
        let ghost before = self.requests@;
        self.requests[i].status = status;
        self.requests[i].pending = None;
        proof {
            let nr = self.requests@[i as int];
            assert(self.requests@ =~= before.update(i as int, nr));
            assert(nr == RequestRecord { status, pending: None, ..before[i as int] });
            lemma_request_update(self.plans@, self.operations@, self.grants@, before, self.next_nonce@, i as int, nr);
        }
    }

    /// Starts, or resends, the evaluation of the request's next signal. The
    /// request must still be current: otherwise it is marked `Stale` and the
    /// currency error returned. One call at a time (`Busy`), at most two sends.
    pub fn begin_evaluation(&mut self, caller: &Principal, id: Digest, now: u64) -> (r: Result<DecisionRequest, Error>)
        requires
            old(self).inv(),
        ensures
            final(self).inv(),
            r is Err ==> *final(self) == *old(self) || marked(*old(self), *final(self), id, Status::Stale),
            ({
                let s = *old(self);
                let i = request_at(s.requests@, id);
                let rec = s.requests@[i];
                &&& !request_exists(s.requests@, id) ==> r == Err::<DecisionRequest, Error>(Error::NotFound)
                &&& request_exists(s.requests@, id) && !may_act(s, *caller, rec) ==> r == Err::<DecisionRequest, Error>(Error::Unauthorized)
                &&& request_exists(s.requests@, id) && may_act(s, *caller, rec) ==> {
                    &&& !(rec.status is Received || rec.status is Evaluating) ==> r == Err::<DecisionRequest, Error>(Error::Transition)
                    &&& (rec.status is Received || rec.status is Evaluating) && !current_ok(s, rec, now) ==> (r matches Err(e)
                        && current_error(s, rec, now, e) && marked(s, *final(self), id, Status::Stale))
                    &&& (rec.status is Received || rec.status is Evaluating) && current_ok(s, rec, now) ==> match rec.pending {
                        Some(p) => if p.in_flight {
                            r == Err::<DecisionRequest, Error>(Error::Busy)
                        } else if p.sends >= 2 {
                            r == Err::<DecisionRequest, Error>(Error::Capacity)
                        } else {
                            r matches Ok(req) && request_same(req, p.request) && final(self).requests@
                                == s.requests@.update(i, RequestRecord {
                                    pending: Some(PendingEvaluation { in_flight: true, sends: (p.sends + 1) as u8, ..p }),
                                    ..rec
                                })
                        },
                        None => r matches Ok(req) ==> {
                            let pl = s.plans@[plan_at(s.plans@, rec.plan)];
                            let sig = pl.signals@[rec.receipts@.len() as int];
                            &&& rec.receipts@.len() < pl.signals@.len()
                            &&& req.evaluation_id@ == sha256(slot_preimage(id, rec.receipts@.len() as u64, rec.snapshot))
                            &&& req.schema_hash == sig.schema.schema_hash && req.model == pl.model
                            &&& req.calibration == Some(sig.calibration)
                            &&& req.binding == Some(Binding { workflow: id, slot: rec.receipts@.len() as u8, attempt: 0, snapshot: rec.snapshot })
                            &&& req.state@ == s.operations@[op_at(s.operations@, rec.operation)].evidence@
                            &&& req.expires_at_ns == rec.expires_at_ns
                            &&& final(self).requests@[i].status == Status::Evaluating
                            &&& final(self).requests@[i].pending matches Some(np) && np.in_flight && np.sends == 1
                                && request_same(np.request, req)
                        },
                    }
                }
            }),
    {
        let i = self.owned(caller, &id)?;
        match self.requests[i].status {
            Status::Received | Status::Evaluating => {},
            _ => return Err(Error::Transition),
        }
        proof {
            assert(record_ok(self.requests@[i as int]));
        }
        match self.current(i, now) {
            Ok(()) => {},
            Err(e) => {
                self.mark(i, Status::Stale);
                return Err(e);
            },
        }
        let ghost before = self.requests@;
        let ghost rec = self.requests@[i as int];
        if self.requests[i].pending.is_some() {
            let (in_flight, sends) = match &self.requests[i].pending {
                Some(p) => (p.in_flight, p.sends),
                None => (false, 0),
            };
            if in_flight {
                return Err(Error::Busy);
            }
            if sends >= 2 {
                return Err(Error::Capacity);
            }
            let req = match &self.requests[i].pending {
                Some(p) => copy_request(&p.request),
                None => return Err(Error::Transition),
            };
            let old_pending = self.requests[i].pending.take();
            match old_pending {
                Some(p) => {
                    self.requests[i].pending = Some(PendingEvaluation { request: p.request, in_flight: true, sends: sends + 1 });
                },
                None => {},
            }
            proof {
                let nr = self.requests@[i as int];
                assert(self.requests@ =~= before.update(i as int, nr));
                lemma_request_update(self.plans@, self.operations@, self.grants@, before, self.next_nonce@, i as int, nr);
            }
            return Ok(req);
        }
        let pi = match self.find_plan(&self.requests[i].plan) {
            Some(j) => j,
            None => return Err(Error::NotFound),
        };
        proof {
            lemma_plan_at(self.plans@, pi as int);
        }
        let slot = self.requests[i].receipts.len();
        if slot >= self.plans[pi].signals.len() {
            return Err(Error::Transition);
        }
        proof {
            assert(plan_valid(self.plans@[pi as int]) || true);
        }
        let oi = match self.find_operation(&self.requests[i].operation) {
            Some(j) => j,
            None => return Err(Error::NotFound),
        };
        proof {
            lemma_op_at(self.operations@, oi as int);
        }
        if slot > 255 {
            return Err(Error::Transition);
        }
        let mut h = Canonical::new("ic-laya/slot/v1");
        h.bytes(&id);
        h.u64(slot as u64);
        h.bytes(&self.requests[i].snapshot);
        proof {
            assert(h@ =~= slot_preimage(id, slot as u64, self.requests@[i as int].snapshot));
        }
        let evaluation_id = h.finish();
        let sig = &self.plans[pi].signals[slot];
        let req = DecisionRequest {
            evaluation_id,
            schema_hash: sig.schema.schema_hash,
            model: self.plans[pi].model,
            calibration: Some(sig.calibration),
            binding: Some(Binding { workflow: id, slot: slot as u8, attempt: 0, snapshot: self.requests[i].snapshot }),
            state: self.operations[oi].evidence.clone(),
            expires_at_ns: self.requests[i].expires_at_ns,
        };
        let stored = copy_request(&req);
        self.requests[i].pending = Some(PendingEvaluation { request: stored, in_flight: true, sends: 1 });
        self.requests[i].status = Status::Evaluating;
        proof {
            let nr = self.requests@[i as int];
            assert(self.requests@ =~= before.update(i as int, nr));
            lemma_request_update(self.plans@, self.operations@, self.grants@, before, self.next_nonce@, i as int, nr);
        }
        Ok(req)
    }

    /// The engine call for the pending evaluation failed in transport: it may be
    /// resent once; after the second send the request goes to review.
    pub fn engine_transport_failed(&mut self, id: Digest, eval_id: Digest) -> (r: Result<(), Error>)
        requires
            old(self).inv(),
        ensures
            final(self).inv(),
            r is Err ==> *final(self) == *old(self),
            ({
                let s = *old(self);
                let i = request_at(s.requests@, id);
                let rec = s.requests@[i];
                &&& !request_exists(s.requests@, id) ==> r == Err::<(), Error>(Error::NotFound)
                &&& request_exists(s.requests@, id) ==> match rec.pending {
                    Some(p) => if rec.status != Status::Evaluating {
                        r == Err::<(), Error>(Error::Transition)
                    } else if p.request.evaluation_id != eval_id {
                        r == Err::<(), Error>(Error::BindingMismatch)
                    } else if p.sends >= 2 {
                        r is Ok && final(self).requests@[i].status is NeedsReview
                            && final(self).requests@[i].pending is None
                    } else {
                        r is Ok && final(self).requests@ == s.requests@.update(i, RequestRecord {
                            pending: Some(PendingEvaluation { in_flight: false, ..p }),
                            ..rec
                        })
                    },
                    None => r == Err::<(), Error>(Error::Transition),
                }
            }),
    {
        let i = match self.find_request(&id) {
            Some(i) => i,
            None => {
                proof {
                    if request_exists(self.requests@, id) {
                        let w = choose|w: int| 0 <= w < self.requests@.len() && #[trigger] self.requests@[w].id == id;
                        assert(self.requests@[w].id != id);
                    }
                }
                return Err(Error::NotFound);
            },
        };
        proof {
            lemma_request_at(self.requests@, i as int);
            assert(record_ok(self.requests@[i as int]));
        }
        let evaluating = match self.requests[i].status {
            Status::Evaluating => true,
            _ => false,
        };
        let (matches_id, sends) = match &self.requests[i].pending {
            Some(p) => (digest_eq(&p.request.evaluation_id, &eval_id), p.sends),
            None => return Err(Error::Transition),
        };
        if !evaluating {
            return Err(Error::Transition);
        }
        if !matches_id {
            return Err(Error::BindingMismatch);
        }
        let ghost before = self.requests@;
        if sends >= 2 {
            self.mark(i, Status::NeedsReview(String::from_str("engine retry limit")));
            return Ok(());
        }
        let old_pending = self.requests[i].pending.take();
        match old_pending {
            Some(p) => {
                self.requests[i].pending = Some(PendingEvaluation { request: p.request, in_flight: false, sends: p.sends });
            },
            None => {},
        }
        proof {
            let nr = self.requests@[i as int];
            assert(self.requests@ =~= before.update(i as int, nr));
            lemma_request_update(self.plans@, self.operations@, self.grants@, before, self.next_nonce@, i as int, nr);
        }
        Ok(())
    }

    fn find_receipt(rs: &Vec<Receipt>, eval_id: &Digest) -> (r: Option<usize>)
        ensures
            r is None <==> forall|k: int| 0 <= k < rs@.len() ==> #[trigger] rs@[k].stamp.evaluation_id != *eval_id,
            r matches Some(k) ==> k < rs@.len() && rs@[k as int].stamp.evaluation_id == *eval_id
                && forall|j: int| 0 <= j < k ==> #[trigger] rs@[j].stamp.evaluation_id != *eval_id,
    {
        let mut k: usize = 0;
        while k < rs.len()
            invariant
                k <= rs@.len(),
                forall|j: int| 0 <= j < k ==> #[trigger] rs@[j].stamp.evaluation_id != *eval_id,
            decreases rs@.len() - k,
        {
            if digest_eq(&rs[k].stamp.evaluation_id, eval_id) {
                return Some(k);
            }
            k = k + 1;
        }
        None
    }

    /// Records the engine's answer for the pending evaluation. A receipt is kept
    /// only when its stamp matches the request, its token count is in range and
    /// it validates; a failing rule or a bad answer sends the request to review.
    /// The same receipt again returns the current status; a different one under
    /// a recorded evaluation id is `IdConflict`. Called only by the adapter that
    /// holds the outstanding engine call.
    pub fn finish_evaluation(
        &mut self,
        id: Digest,
        eval_id: Digest,
        result: Result<Receipt, Error>,
        now: u64,
    ) -> (r: Result<Status, Error>)
        requires
            old(self).inv(),
        ensures
            final(self).inv(),
            r is Err ==> *final(self) == *old(self) || marked(*old(self), *final(self), id, Status::Stale),
            !request_exists(old(self).requests@, id) ==> r == Err::<Status, Error>(Error::NotFound),
            ({
                let s = *old(self);
                let i = request_at(s.requests@, id);
                let rec = s.requests@[i];
                let recorded = result matches Ok(rc) && exists|k: int|
                    0 <= k < rec.receipts@.len() && #[trigger] rec.receipts@[k].stamp.evaluation_id == eval_id;
                request_exists(s.requests@, id) ==> {
                    &&& recorded ==> *final(self) == *old(self)
                    &&& !recorded && rec.status != Status::Evaluating ==> r == Err::<Status, Error>(Error::Transition)
                    &&& !recorded && rec.status == Status::Evaluating ==> match rec.pending {
                        None => r == Err::<Status, Error>(Error::Transition),
                        Some(p) => if p.request.evaluation_id != eval_id {
                            r == Err::<Status, Error>(Error::BindingMismatch)
                        } else if !current_ok(s, rec, now) {
                            r matches Err(e) && current_error(s, rec, now, e) && marked(s, *final(self), id, Status::Stale)
                        } else {
                            r is Ok ==> {
                                let nr = final(self).requests@[i];
                                let pl = s.plans@[plan_at(s.plans@, rec.plan)];
                                let sig = pl.signals@[rec.receipts@.len() as int];
                                &&& final(self).requests@ == s.requests@.update(i, nr)
                                &&& same_keys(rec, nr) && nr.pending is None
                                &&& final(self).plans == s.plans && final(self).operations == s.operations
                                &&& final(self).grants == s.grants && final(self).next_nonce == s.next_nonce
                                &&& nr.status == r->Ok_0 || (nr.status is NeedsReview && r->Ok_0 is NeedsReview)
                                &&& receipt_accepted(result, p.request, sig) ==> {
                                    let rc = result->Ok_0;
                                    &&& nr.receipts@ == rec.receipts@.push(rc)
                                    &&& receipt_passes(sig, rc) && nr.receipts@.len() == pl.signals@.len()
                                        ==> nr.status == Status::ReadyToDispatch
                                    &&& receipt_passes(sig, rc) && nr.receipts@.len() < pl.signals@.len()
                                        ==> nr.status == Status::Received
                                    &&& !receipt_passes(sig, rc) ==> nr.status is NeedsReview
                                }
                                &&& !receipt_accepted(result, p.request, sig) ==> {
                                    &&& nr.receipts@ == rec.receipts@
                                    &&& nr.status is NeedsReview
                                }
                            }
                        },
                    }
                }
            }),
    {
        let i = match self.find_request(&id) {
            Some(i) => i,
            None => {
                proof {
                    if request_exists(self.requests@, id) {
                        let w = choose|w: int| 0 <= w < self.requests@.len() && #[trigger] self.requests@[w].id == id;
                        assert(self.requests@[w].id != id);
                    }
                }
                return Err(Error::NotFound);
            },
        };
        proof {
            lemma_request_at(self.requests@, i as int);
            assert(record_ok(self.requests@[i as int]));
        }
        if let Ok(incoming) = &result {
            match Self::find_receipt(&self.requests[i].receipts, &eval_id) {
                Some(k) => {
                    if receipt_eq(&self.requests[i].receipts[k], incoming) {
                        return Ok(copy_status(&self.requests[i].status));
                    }
                    return Err(Error::IdConflict);
                },
                None => {},
            }
        }
        let evaluating = match self.requests[i].status {
            Status::Evaluating => true,
            _ => false,
        };
        if !evaluating {
            return Err(Error::Transition);
        }
        let matches_id = match &self.requests[i].pending {
            Some(p) => digest_eq(&p.request.evaluation_id, &eval_id),
            None => return Err(Error::Transition),
        };
        if !matches_id {
            return Err(Error::BindingMismatch);
        }
        match self.current(i, now) {
            Ok(()) => {},
            Err(e) => {
                self.mark(i, Status::Stale);
                return Err(e);
            },
        }
        let pi = match self.find_plan(&self.requests[i].plan) {
            Some(j) => j,
            None => return Err(Error::NotFound),
        };
        proof {
            lemma_plan_at(self.plans@, pi as int);
        }
        let slot = self.requests[i].receipts.len();
        if slot >= self.plans[pi].signals.len() {
            return Err(Error::NotFound);
        }
        let total = self.plans[pi].signals.len();
        let ghost before = self.requests@;
        let ghost rec = self.requests@[i as int];
        let pending = self.requests[i].pending.take();
        let outcome: Result<(Receipt, bool), Error> = match result {
            Err(e) => Err(e),
            Ok(receipt) => {
                let sig = &self.plans[pi].signals[slot];
                let stamp_ok = match &pending {
                    Some(p) => stamp_matches(&receipt.stamp, &p.request, sig),
                    None => false,
                };
                if !stamp_ok || receipt.input_tokens == 0 || receipt.input_tokens as usize > MAX_TOKENS {
                    Err(Error::BindingMismatch)
                } else {
                    match check_rule(sig, &receipt) {
                        Ok(pass) => Ok((receipt, pass)),
                        Err(e) => Err(e),
                    }
                }
            },
        };
        match outcome {
            Ok((receipt, pass)) => {
                self.requests[i].receipts.push(receipt);
                let n = self.requests[i].receipts.len();
                self.requests[i].status = if !pass {
                    Status::NeedsReview(String::from_str("registered rule did not pass"))
                } else if n == total {
                    Status::ReadyToDispatch
                } else {
                    Status::Received
                };
            },
            Err(e) => {
                self.requests[i].status = Status::NeedsReview(e.message());
            },
        }
        proof {
            let nr = self.requests@[i as int];
            assert(self.requests@ =~= before.update(i as int, nr));
            lemma_request_update(self.plans@, self.operations@, self.grants@, before, self.next_nonce@, i as int, nr);
        }
        Ok(copy_status(&self.requests[i].status))
    }

    /// The one-use authorization to dispatch the request's transfer: only when
    /// every required signal has a bound, validated receipt that passes its rule.
    pub fn authorize(&self, caller: &Principal, id: Digest, now: u64) -> (r: Result<AuthorizedTransfer, Error>)
        requires
            self.inv(),
        ensures
            r is Ok <==> authorize_ok(*self, *caller, id, now),
            r matches Ok(a) ==> a.spec_request() == id && a.spec_snapshot()
                == self.requests@[request_at(self.requests@, id)].snapshot,
            !request_exists(self.requests@, id) ==> r == Err::<AuthorizedTransfer, Error>(Error::NotFound),
            request_exists(self.requests@, id) && !may_act(*self, *caller, self.requests@[request_at(self.requests@, id)])
                ==> r == Err::<AuthorizedTransfer, Error>(Error::Unauthorized),
            request_exists(self.requests@, id) && may_act(*self, *caller, self.requests@[request_at(self.requests@, id)])
                && !current_ok(*self, self.requests@[request_at(self.requests@, id)], now)
                ==> (r matches Err(e) && current_error(*self, self.requests@[request_at(self.requests@, id)], now, e)),
    {
        let i = self.owned(caller, &id)?;
        self.current(i, now)?;
        let rec = &self.requests[i];
        let ready = match rec.status {
            Status::ReadyToDispatch => true,
            _ => false,
        };
        if !ready || rec.pending.is_some() {
            return Err(Error::Transition);
        }
        let pi = match self.find_plan(&rec.plan) {
            Some(j) => j,
            None => return Err(Error::NotFound),
        };
        proof {
            lemma_plan_at(self.plans@, pi as int);
        }
        let p = &self.plans[pi];
        if rec.receipts.len() != p.signals.len() {
            return Err(Error::BindingMismatch);
        }
        let live = match self.mode {
            Mode::LimitedLive => true,
            _ => false,
        };
        let mut k: usize = 0;
        while k < rec.receipts.len()
            invariant
                k <= rec.receipts@.len(),
                self.inv(),
                i < self.requests@.len(),
                i == request_at(self.requests@, id),
                request_exists(self.requests@, id),
                rec.id == id,
                may_act(*self, *caller, *rec),
                current_ok(*self, *rec, now),
                plan_exists(self.plans@, rec.plan),
                rec.receipts@.len() == p.signals@.len(),
                *rec == self.requests@[i as int],
                *p == self.plans@[plan_at(self.plans@, rec.plan)],
                live == (self.mode == Mode::LimitedLive),
                forall|q: int| 0 <= q < k ==> #[trigger] receipt_bound(*self, *rec, *p, q),
            decreases rec.receipts@.len() - k,
        {
            let v = &rec.receipts[k];
            let s = &p.signals[k];
            let fixture = match v.stamp.backend {
                BackendKind::SyntheticFixture => true,
                BackendKind::Checkpoint => false,
            };
            if live && fixture {
                assert(!receipt_bound(*self, *rec, *p, k as int));
                return Err(Error::Denied(String::from_str("fixture backend receipt cannot authorize a live transfer")));
            }
            let expected = Some(Binding { workflow: id, slot: k as u8, attempt: 0, snapshot: rec.snapshot });
            let cal = Some(s.calibration);
            if !binding_eq(&v.stamp.binding, &expected) || !digest_eq(&v.stamp.model, &p.model)
                || !digest_eq(&v.stamp.schema_hash, &s.schema.schema_hash) || !opt_digest_eq(&v.stamp.calibration, &cal) {
                assert(!receipt_bound(*self, *rec, *p, k as int));
                return Err(Error::BindingMismatch);
            }
            let pass = match check_rule(s, v) {
                Ok(b) => b,
                Err(e) => {
                    assert(!receipt_bound(*self, *rec, *p, k as int));
                    return Err(e);
                },
            };
            if !pass {
                assert(!receipt_bound(*self, *rec, *p, k as int));
                return Err(Error::BindingMismatch);
            }
            k = k + 1;
        }
        let oi = match self.find_operation(&rec.operation) {
            Some(j) => j,
            None => return Err(Error::NotFound),
        };
        proof {
            lemma_op_at(self.operations@, oi as int);
        }
        match self.operations[oi].status {
            OperationStatus::Available => {},
            _ => return Err(Error::OperationUsed),
        }
        Ok(AuthorizedTransfer { request: id, snapshot: rec.snapshot })
    }

    pub(crate) fn ledger_is_registered(&self, l: &Principal) -> (r: bool)
        ensures
            r == ledger_registered(self.mock_ledgers@, *l),
    {
        let mut k: usize = 0;
        while k < self.mock_ledgers.len()
            invariant
                k <= self.mock_ledgers@.len(),
                forall|q: int| 0 <= q < k ==> #[trigger] self.mock_ledgers@[q]@ != l@,
            decreases self.mock_ledgers@.len() - k,
        {
            if self.mock_ledgers[k].same(l) {
                return true;
            }
            k = k + 1;
        }
        false
    }

    /// Turns an authorization into the ledger command. It re-checks the
    /// authorization; report-only and shadow modes record `Reported` and reserve
    /// nothing; live mode is closed; mock mode needs a registered mock ledger and
    /// reserves the charge on the grant before anything is sent.
    pub fn prepare_dispatch(&mut self, authorization: AuthorizedTransfer, now: u64) -> (r: Result<DispatchCommand, Error>)
        requires
            old(self).inv(),
        ensures
            final(self).inv(),
            r is Err ==> *final(self) == *old(self) || marked(*old(self), *final(self), authorization.spec_request(), Status::Reported),
            r matches Ok(cmd) ==> dispatched(*old(self), *final(self), authorization.spec_request(), now, cmd),
            ({
                let s = *old(self);
                let id = authorization.spec_request();
                let rec = s.requests@[request_at(s.requests@, id)];
                request_exists(s.requests@, id) && authorize_ok(s, rec.caller, id, now)
                    && authorization.spec_snapshot() == rec.snapshot ==> {
                    &&& (s.mode == Mode::ReportOnly || s.mode == Mode::Shadow) ==> (r == Err::<DispatchCommand, Error>(Error::ReportOnly)
                        && marked(s, *final(self), id, Status::Reported))
                    &&& s.mode == Mode::LimitedLive ==> r == Err::<DispatchCommand, Error>(Error::LiveDisabled)
                    &&& s.mode == Mode::Mock ==> (r is Err ==> *final(self) == s)
                    &&& ({
                        let o = s.operations@[op_at(s.operations@, rec.operation)];
                        let g = s.grants@[grant_at(s.grants@, rec.grant)];
                        let charge = (o.proposal.amount + o.proposal.fee) as u128;
                        let epoch = (now / g.window_ns) as u64;
                        s.mode == Mode::Mock && ledger_registered(s.mock_ledgers@, o.proposal.ledger)
                            && o.proposal.amount + o.proposal.fee <= u128::MAX && !reserve_ok(g, charge, epoch) ==> r
                            == Err::<DispatchCommand, Error>(if !has_window(g.windows@, epoch) && g.windows@.len() >= 64 {
                            Error::Capacity
                        } else {
                            Error::Budget
                        })
                    })
                }
            }),
    {
        let id = authorization.request;
        let i = match self.find_request(&id) {
            Some(i) => i,
            None => return Err(Error::NotFound),
        };
        proof {
            lemma_request_at(self.requests@, i as int);
        }
        let caller = self.requests[i].caller.clone_principal();
        self.authorize(&caller, id, now)?;
        if !digest_eq(&authorization.snapshot, &self.requests[i].snapshot) {
            return Err(Error::BindingMismatch);
        }
        proof {
            assert(record_ok(self.requests@[i as int]));
        }
        match self.mode {
            Mode::ReportOnly | Mode::Shadow => {
                self.mark(i, Status::Reported);
                return Err(Error::ReportOnly);
            },
            Mode::LimitedLive => return Err(Error::LiveDisabled),
            Mode::Mock => {},
        }
        let oi = match self.find_operation(&self.requests[i].operation) {
            Some(j) => j,
            None => return Err(Error::NotFound),
        };
        proof {
            lemma_op_at(self.operations@, oi as int);
        }
        if !self.ledger_is_registered(&self.operations[oi].proposal.ledger) {
            return Err(Error::Denied(String::from_str("unregistered mock ledger")));
        }
        let gi = match self.find_grant(&self.requests[i].grant) {
            Some(j) => j,
            None => return Err(Error::NotFound),
        };
        proof {
            lemma_grant_at(self.grants@, gi as int);
            assert(grant_books(self.grants@[gi as int], self.requests@));
        }
        let charge = self.operations[oi].proposal.charge()?;
        let epoch = now / self.grants[gi].window_ns;
        let ghost s0 = *self;
        self.grants[gi].check_reserve(charge, epoch)?;
        let reserved = self.grants[gi].reserve(charge, epoch);
        assert(reserved is Ok);
        let frozen = FrozenTransfer {
            proposal: self.operations[oi].proposal.clone_proposal(),
            memo: id,
            created_at_time_ns: now,
        };
        let kept = frozen.clone_frozen();
        self.requests[i].reservation = Some(Reservation { charge, epoch });
        self.requests[i].frozen = Some(kept);
        self.requests[i].status = Status::Submitted;
        self.requests[i].ledger_attempt = 1;
        self.operations[oi].status = OperationStatus::Reserved(id);
        proof {
            let r2 = self.requests@[i as int];
            let o2 = self.operations@[oi as int];
            let g2 = self.grants@[gi as int];
            assert(self.requests@ =~= s0.requests@.update(i as int, r2));
            assert(self.operations@ =~= s0.operations@.update(oi as int, o2));
            assert(self.grants@ =~= s0.grants@.update(gi as int, g2));
            assert forall|x: u64| x != epoch implies held(r2, s0.grants@[gi as int].id, Some(x)) == held(
                s0.requests@[i as int],
                s0.grants@[gi as int].id,
                Some(x),
            ) by {}
            lemma_ledger_step(
                s0.plans@,
                s0.operations@,
                s0.grants@,
                s0.requests@,
                s0.next_nonce@,
                i as int,
                oi as int,
                gi as int,
                r2,
                o2,
                g2,
                epoch,
                charge as int,
            );
        }
        Ok(DispatchCommand { request: id, attempt: 1, transfer: frozen })
    }

    /// Settles the held reservation of request `i`; under the invariant this
    /// cannot fail.
    fn settle_record(&mut self, i: usize, success: bool, text: String) -> (st: Status)
        requires
            old(self).inv(),
            i < old(self).requests@.len(),
            old(self).requests@[i as int].reservation is Some,
        ensures
            final(self).inv(),
            settled(*old(self), *final(self), i as int, success, text),
            st == final(self).requests@[i as int].status || (st is Succeeded && success) || (st is FailedDefinitive && !success),
            status_view(st) == status_view(final(self).requests@[i as int].status),
            st is Succeeded <==> success,
            st is FailedDefinitive <==> !success,
            final(self).mock_ledgers == old(self).mock_ledgers && final(self).instance == old(self).instance
                && final(self).owner == old(self).owner,
    {
        let ghost s0 = *self;
        let res = match self.requests[i].reservation {
            Some(x) => x,
            None => Reservation { charge: 0, epoch: 0 },
        };
        let rid = self.requests[i].id;
        proof {
            lemma_request_at(self.requests@, i as int);
            assert(refs_ok(self.operations@, self.grants@, self.next_nonce@, self.requests@[i as int]));
        }
        let oi = match self.find_operation(&self.requests[i].operation) {
            Some(j) => j,
            None => {
                assert(false);
                0
            },
        };
        let gi = match self.find_grant(&self.requests[i].grant) {
            Some(j) => j,
            None => {
                assert(false);
                0
            },
        };
        proof {
            lemma_op_at(self.operations@, oi as int);
            lemma_grant_at(self.grants@, gi as int);
            let g = self.grants@[gi as int];
            let rs = self.requests@;
            assert(op_link(rs[i as int], self.operations@[oi as int]));
            assert(window_link(rs[i as int], g));
            assert(grant_books(g, rs));
            lemma_held_ge(rs, i as int, g.id, None);
            lemma_held_ge(rs, i as int, g.id, Some(res.epoch));
            let w = choose|w: int| 0 <= w < g.windows@.len() && #[trigger] g.windows@[w].epoch == res.epoch;
            lemma_window_at(g.windows@, w);
            assert(window_books(g, g.windows@[w], rs));
            assert(settle_ok(g, res.charge, res.epoch, success));
        }
        let settled_ok = self.grants[gi].settle(res.charge, res.epoch, success);
        assert(settled_ok is Ok);
        self.operations[oi].status = if success { OperationStatus::Consumed(rid) } else { OperationStatus::Available };
        let st = if success { Status::Succeeded(text) } else { Status::FailedDefinitive(text) };
        self.requests[i].reservation = None;
        self.requests[i].status = st;
        proof {
            let r2 = self.requests@[i as int];
            let o2 = self.operations@[oi as int];
            let g2 = self.grants@[gi as int];
            assert(self.requests@ =~= s0.requests@.update(i as int, r2));
            assert(self.operations@ =~= s0.operations@.update(oi as int, o2));
            assert(self.grants@ =~= s0.grants@.update(gi as int, g2));
            assert forall|x: u64| x != res.epoch implies held(r2, s0.grants@[gi as int].id, Some(x)) == held(
                s0.requests@[i as int],
                s0.grants@[gi as int].id,
                Some(x),
            ) by {}
            lemma_ledger_step(
                s0.plans@,
                s0.operations@,
                s0.grants@,
                s0.requests@,
                s0.next_nonce@,
                i as int,
                oi as int,
                gi as int,
                r2,
                o2,
                g2,
                res.epoch,
                -(res.charge as int),
            );
        }
        copy_status(&self.requests[i].status)
    }

    fn valid_block_index(b: &[u8]) -> (r: bool)
        ensures
            r == block_index_ok(b@),
    {
        if b.len() == 0 || b.len() > 128 {
            return false;
        }
        let mut k: usize = 0;
        while k < b.len()
            invariant
                k <= b@.len(),
                forall|q: int| 0 <= q < k ==> 48 <= #[trigger] b@[q] <= 57,
            decreases b@.len() - k,
        {
            if b[k] < 48 || b[k] > 57 {
                return false;
            }
            k = k + 1;
        }
        true
    }

    /// Records the ledger's answer to a dispatched command. A success settles the
    /// reservation as spent (once; a late answer cannot undo it); a first
    /// definitive error on the latest attempt, before any unknown outcome,
    /// releases it; anything else leaves the outcome unknown with the
    /// reservation held. A transfer parked for review settles only on success.
    pub fn finish_ledger(&mut self, cmd: &DispatchCommand, outcome: LedgerOutcome) -> (r: Result<Status, Error>)
        requires
            old(self).inv(),
        ensures
            final(self).inv(),
            r is Err ==> *final(self) == *old(self),
            ({
                let s = *old(self);
                let id = cmd.request;
                let i = request_at(s.requests@, id);
                let rec = s.requests@[i];
                let bound = rec.frozen matches Some(f) && f@ == cmd.transfer@ && 0 < cmd.attempt <= rec.ledger_attempt;
                &&& !request_exists(s.requests@, id) ==> r == Err::<Status, Error>(Error::NotFound)
                &&& request_exists(s.requests@, id) && !bound ==> r == Err::<Status, Error>(Error::BindingMismatch)
                &&& request_exists(s.requests@, id) && bound ==> {
                    &&& rec.status is Succeeded ==> (*final(self) == s && r is Ok && r->Ok_0 is Succeeded)
                    &&& (rec.status is Submitted || rec.status is OutcomeUnknown || (rec.status is NeedsReview
                        && rec.reservation is Some)) ==> match outcome {
                        LedgerOutcome::Success(x) => if block_index_ok(sbytes(x)) {
                            r is Ok && r->Ok_0 is Succeeded && settled(s, *final(self), i, true, x)
                        } else {
                            r is Err
                        },
                        LedgerOutcome::Duplicate(x) => if block_index_ok(sbytes(x)) {
                            r is Ok && r->Ok_0 is Succeeded && settled(s, *final(self), i, true, x)
                        } else {
                            r is Err
                        },
                        LedgerOutcome::DefinitiveError(x) => if rec.status is NeedsReview {
                            r == Err::<Status, Error>(Error::OutcomeUnknown)
                        } else if !rec.ever_unknown && cmd.attempt == rec.ledger_attempt {
                            r is Ok && r->Ok_0 is FailedDefinitive && settled(s, *final(self), i, false, x)
                        } else {
                            r is Ok && r->Ok_0 is OutcomeUnknown && final(self).requests@ == s.requests@.update(
                                i,
                                RequestRecord { ever_unknown: true, status: Status::OutcomeUnknown(x), ..rec },
                            ) && final(self).grants == s.grants && final(self).operations == s.operations
                        },
                        LedgerOutcome::Unknown(x) => if rec.status is NeedsReview {
                            r == Err::<Status, Error>(Error::OutcomeUnknown)
                        } else {
                            r is Ok && r->Ok_0 is OutcomeUnknown && final(self).requests@ == s.requests@.update(
                                i,
                                RequestRecord { ever_unknown: true, status: Status::OutcomeUnknown(x), ..rec },
                            ) && final(self).grants == s.grants && final(self).operations == s.operations
                        },
                    }
                    &&& !(rec.status is Succeeded || rec.status is Submitted || rec.status is OutcomeUnknown
                        || (rec.status is NeedsReview && rec.reservation is Some)) ==> r == Err::<Status, Error>(Error::Transition)
                }
            }),
            r matches Ok(st) ==> status_view(st) == status_view(
                final(self).requests@[request_at(old(self).requests@, cmd.request)].status,
            ),
    {
        let i = match self.find_request(&cmd.request) {
            Some(i) => i,
            None => {
                proof {
                    if request_exists(self.requests@, cmd.request) {
                        let w = choose|w: int| 0 <= w < self.requests@.len() && #[trigger] self.requests@[w].id == cmd.request;
                        assert(self.requests@[w].id != cmd.request);
                    }
                }
                return Err(Error::NotFound);
            },
        };
        proof {
            lemma_request_at(self.requests@, i as int);
            assert(record_ok(self.requests@[i as int]));
        }
        let bound = match &self.requests[i].frozen {
            Some(f) => f.same(&cmd.transfer),
            None => false,
        };
        if !bound || cmd.attempt == 0 || cmd.attempt > self.requests[i].ledger_attempt {
            return Err(Error::BindingMismatch);
        }
        match self.requests[i].status {
            Status::Succeeded(_) => return Ok(copy_status(&self.requests[i].status)),
            _ => {},
        }
        let holding = self.requests[i].reservation.is_some();
        let (open, parked) = match self.requests[i].status {
            Status::Submitted | Status::OutcomeUnknown(_) => (true, false),
            Status::NeedsReview(_) => (holding, holding),
            _ => (false, false),
        };
        if !open {
            return Err(Error::Transition);
        }
        match outcome {
            LedgerOutcome::Success(x) | LedgerOutcome::Duplicate(x) => {
                if !Self::valid_block_index(x.as_str().as_bytes()) {
                    return Err(Error::Invalid(String::from_str("block index")));
                }
                Ok(self.settle_record(i, true, x))
            },
            LedgerOutcome::DefinitiveError(x) => {
                if parked {
                    return Err(Error::OutcomeUnknown);
                }
                if !self.requests[i].ever_unknown && cmd.attempt == self.requests[i].ledger_attempt {
                    Ok(self.settle_record(i, false, x))
                } else {
                    Ok(self.mark_unknown(i, x))
                }
            },
            LedgerOutcome::Unknown(x) => {
                if parked {
                    return Err(Error::OutcomeUnknown);
                }
                Ok(self.mark_unknown(i, x))
            },
        }
    }

    fn mark_unknown(&mut self, i: usize, text: String) -> (st: Status)
        requires
            old(self).inv(),
            i < old(self).requests@.len(),
            old(self).requests@[i as int].status is Submitted || old(self).requests@[i as int].status is OutcomeUnknown,
        ensures
            final(self).inv(),
            st is OutcomeUnknown,
            status_view(st) == status_view(final(self).requests@[i as int].status),
            final(self).requests@ == old(self).requests@.update(
                i as int,
                RequestRecord { ever_unknown: true, status: Status::OutcomeUnknown(text), ..old(self).requests@[i as int] },
            ),
            final(self).grants == old(self).grants && final(self).operations == old(self).operations,
            final(self).plans == old(self).plans && final(self).next_nonce == old(self).next_nonce,
            final(self).mode == old(self).mode && final(self).paused == old(self).paused,
            final(self).mock_ledgers == old(self).mock_ledgers,
    {
        let ghost before = self.requests@;
        proof {
            assert(record_ok(before[i as int]));
        }
        self.requests[i].ever_unknown = true;
        self.requests[i].status = Status::OutcomeUnknown(text);
        proof {
            let nr = self.requests@[i as int];
            assert(self.requests@ =~= before.update(i as int, nr));
            lemma_request_update(self.plans@, self.operations@, self.grants@, before, self.next_nonce@, i as int, nr);
        }
        copy_status(&self.requests[i].status)
    }

    /// Resends the identical frozen transfer after an unknown outcome, in mock
    /// mode only, once, and within the ledger's deduplication window. The
    /// reservation is neither released nor doubled.
    pub fn retry_unknown(&mut self, caller: &Principal, id: Digest, now: u64) -> (r: Result<DispatchCommand, Error>)
        requires
            old(self).inv(),
        ensures
            final(self).inv(),
            r is Ok <==> retry_allowed(*old(self), *caller, id, now),
            r matches Err(e) ==> retry_error(*old(self), *caller, id, now, e),
            r is Err ==> *final(self) == *old(self),
            final(self).grants == old(self).grants && final(self).operations == old(self).operations,
            final(self).next_nonce == old(self).next_nonce && final(self).plans == old(self).plans,
            r matches Ok(cmd) ==> {
                let s = *old(self);
                let i = request_at(s.requests@, id);
                let rec = s.requests@[i];
                &&& request_exists(s.requests@, id) && may_act(s, *caller, rec) && current_ok(s, rec, now)
                &&& s.mode == Mode::Mock && rec.status is OutcomeUnknown && rec.ledger_attempt < 2
                &&& rec.frozen matches Some(f) && f.created_at_time_ns <= now
                    && now - f.created_at_time_ns <= MOCK_DEDUP_WINDOW_NS && cmd.transfer@ == f@
                &&& cmd.request == id && cmd.attempt == rec.ledger_attempt + 1
                &&& final(self).requests@ == s.requests@.update(i, RequestRecord {
                    ledger_attempt: (rec.ledger_attempt + 1) as u8,
                    status: Status::Submitted,
                    ..rec
                })
            },
    {
        let i = self.owned(caller, &id)?;
        self.current(i, now)?;
        let mock = match self.mode {
            Mode::Mock => true,
            _ => false,
        };
        let unknown = match self.requests[i].status {
            Status::OutcomeUnknown(_) => true,
            _ => false,
        };
        if !mock || !unknown || self.requests[i].ledger_attempt >= 2 {
            return Err(Error::Transition);
        }
        let frozen = match &self.requests[i].frozen {
            Some(f) => f.clone_frozen(),
            None => return Err(Error::Storage),
        };
        if now < frozen.created_at_time_ns || now - frozen.created_at_time_ns > MOCK_DEDUP_WINDOW_NS {
            return Err(Error::Expired);
        }
        proof {
            lemma_request_at(self.requests@, i as int);
            assert(record_ok(self.requests@[i as int]));
        }
        let ghost before = self.requests@;
        let attempt = self.requests[i].ledger_attempt + 1;
        self.requests[i].ledger_attempt = attempt;
        self.requests[i].status = Status::Submitted;
        proof {
            let nr = self.requests@[i as int];
            assert(self.requests@ =~= before.update(i as int, nr));
            lemma_request_update(self.plans@, self.operations@, self.grants@, before, self.next_nonce@, i as int, nr);
        }
        Ok(DispatchCommand { request: id, attempt, transfer: frozen })
    }

    /// Cancels a request that never reached the ledger. A request with a frozen
    /// transfer or a held reservation cannot be cancelled: its outcome may be
    /// unknown.
    pub fn cancel(&mut self, caller: &Principal, id: Digest) -> (r: Result<(), Error>)
        requires
            old(self).inv(),
        ensures
            final(self).inv(),
            r is Err ==> *final(self) == *old(self),
            ({
                let s = *old(self);
                let i = request_at(s.requests@, id);
                let rec = s.requests@[i];
                &&& !request_exists(s.requests@, id) ==> r == Err::<(), Error>(Error::NotFound)
                &&& request_exists(s.requests@, id) && !may_act(s, *caller, rec) ==> r == Err::<(), Error>(Error::Unauthorized)
                &&& request_exists(s.requests@, id) && may_act(s, *caller, rec) ==> if rec.frozen is Some || rec.reservation is Some {
                    r == Err::<(), Error>(Error::OutcomeUnknown)
                } else {
                    r is Ok && marked(s, *final(self), id, Status::Cancelled)
                }
            }),
    {
        let i = self.owned(caller, &id)?;
        if self.requests[i].frozen.is_some() || self.requests[i].reservation.is_some() {
            return Err(Error::OutcomeUnknown);
        }
        self.mark(i, Status::Cancelled);
        Ok(())
    }

    /// The request, to its caller or the owner.
    pub fn get(&self, caller: &Principal, id: Digest) -> (r: Result<&RequestRecord, Error>)
        requires
            self.inv(),
        ensures
            r is Ok <==> request_exists(self.requests@, id) && may_act(*self, *caller, self.requests@[request_at(self.requests@, id)]),
            r matches Ok(x) ==> *x == self.requests@[request_at(self.requests@, id)],
            r matches Err(e) ==> if !request_exists(self.requests@, id) {
                e == Error::NotFound
            } else {
                e == Error::Unauthorized
            },
    {
        let i = self.owned(caller, &id)?;
        Ok(&self.requests[i])
    }

    /// Conservative restart recovery: an interrupted inference goes to review,
    /// an interrupted ledger call becomes an unknown outcome, and the executor
    /// pauses. No nonce is rewound and no reservation released.
    pub fn recover_after_upgrade(&mut self)
        requires
            old(self).inv(),
        ensures
            final(self).inv(),
            final(self).paused,
            final(self).next_nonce == old(self).next_nonce && final(self).grants == old(self).grants,
            final(self).operations == old(self).operations && final(self).plans == old(self).plans,
            final(self).mode == old(self).mode,
            final(self).requests@.len() == old(self).requests@.len(),
            forall|i: int| 0 <= i < old(self).requests@.len() ==> {
                let a = #[trigger] old(self).requests@[i];
                let b = final(self).requests@[i];
                &&& same_keys(a, b) && b.receipts == a.receipts && b.frozen == a.frozen
                &&& a.status is Evaluating ==> b.status is NeedsReview && b.pending is None
                &&& a.status is Submitted ==> b.status is OutcomeUnknown && b.ever_unknown
                &&& !(a.status is Evaluating || a.status is Submitted) ==> b == a
            },
    {
        let mut i: usize = 0;
        while i < self.requests.len()
            invariant
                i <= self.requests@.len(),
                self.inv(),
                self.requests@.len() == old(self).requests@.len(),
                self.next_nonce == old(self).next_nonce && self.grants == old(self).grants,
                self.operations == old(self).operations && self.plans == old(self).plans,
                self.mode == old(self).mode,
                forall|k: int| i <= k < self.requests@.len() ==> #[trigger] self.requests@[k] == old(self).requests@[k],
                forall|k: int| 0 <= k < i ==> {
                    let a = #[trigger] old(self).requests@[k];
                    let b = self.requests@[k];
                    &&& same_keys(a, b) && b.receipts == a.receipts && b.frozen == a.frozen
                    &&& a.status is Evaluating ==> b.status is NeedsReview && b.pending is None
                    &&& a.status is Submitted ==> b.status is OutcomeUnknown && b.ever_unknown
                    &&& !(a.status is Evaluating || a.status is Submitted) ==> b == a
                },
            decreases self.requests@.len() - i,
        {
            let ghost before = self.requests@;
            proof {
                assert(record_ok(before[i as int]));
            }
            let evaluating = match self.requests[i].status {
                Status::Evaluating => true,
                _ => false,
            };
            let submitted = match self.requests[i].status {
                Status::Submitted => true,
                _ => false,
            };
            if evaluating {
                self.requests[i].status = Status::NeedsReview(String::from_str("upgrade interrupted inference"));
                self.requests[i].pending = None;
            }
            if submitted {
                self.requests[i].status = Status::OutcomeUnknown(String::from_str("upgrade interrupted callback"));
                self.requests[i].ever_unknown = true;
            }
            proof {
                let nr = self.requests@[i as int];
                assert(self.requests@ =~= before.update(i as int, nr));
                lemma_request_update(self.plans@, self.operations@, self.grants@, before, self.next_nonce@, i as int, nr);
            }
            i = i + 1;
        }
        self.paused = true;
    }

    /// The owner stops waiting for an unresolved ledger outcome and parks the
    /// request for review with a reason. The reservation stays; a late success
    /// still settles it.
    pub fn abandon_unknown(&mut self, caller: &Principal, id: Digest, reason: String) -> (r: Result<Status, Error>)
        requires
            old(self).inv(),
        ensures
            final(self).inv(),
            r is Err ==> *final(self) == *old(self),
            ({
                let s = *old(self);
                let i = request_at(s.requests@, id);
                let rec = s.requests@[i];
                &&& !s.is_owner(*caller) ==> r == Err::<Status, Error>(Error::Unauthorized)
                &&& s.is_owner(*caller) && !request_exists(s.requests@, id) ==> r == Err::<Status, Error>(Error::NotFound)
                &&& s.is_owner(*caller) && request_exists(s.requests@, id) ==> if !(rec.status is Submitted || rec.status is OutcomeUnknown) {
                    r == Err::<Status, Error>(Error::Transition)
                } else if all_white(reason@) {
                    r matches Err(e) && e matches Error::Invalid(m) && m@ == "reason"@
                } else {
                    r is Ok && r->Ok_0 is NeedsReview && final(self).requests@ == s.requests@.update(
                        i,
                        RequestRecord { status: Status::NeedsReview(reason), ..rec },
                    ) && final(self).grants == s.grants && final(self).operations == s.operations
                        && final(self).next_nonce == s.next_nonce
                }
            }),
    {
        self.assert_owner(caller)?;
        let i = match self.find_request(&id) {
            Some(i) => i,
            None => {
                proof {
                    if request_exists(self.requests@, id) {
                        let w = choose|w: int| 0 <= w < self.requests@.len() && #[trigger] self.requests@[w].id == id;
                        assert(self.requests@[w].id != id);
                    }
                }
                return Err(Error::NotFound);
            },
        };
        proof {
            lemma_request_at(self.requests@, i as int);
            assert(record_ok(self.requests@[i as int]));
        }
        let unresolved = match self.requests[i].status {
            Status::Submitted | Status::OutcomeUnknown(_) => true,
            _ => false,
        };
        if !unresolved {
            return Err(Error::Transition);
        }
        if is_blank(reason.as_str()) {
            return Err(Error::Invalid(String::from_str("reason")));
        }
        let ghost before = self.requests@;
        self.requests[i].status = Status::NeedsReview(reason);
        proof {
            let nr = self.requests@[i as int];
            assert(self.requests@ =~= before.update(i as int, nr));
            lemma_request_update(self.plans@, self.operations@, self.grants@, before, self.next_nonce@, i as int, nr);
        }
        Ok(copy_status(&self.requests[i].status))
    }

    fn ids_ok(&self) -> (r: bool)
        ensures
            r == (plan_ids_unique(self.plans@) && op_ids_unique(self.operations@) && grant_ids_unique(self.grants@)
                && request_ids_unique(self.requests@) && callers_unique(self.next_nonce@)),
    {
        let mut ps: Vec<Digest> = Vec::new();
        let mut k: usize = 0;
        while k < self.plans.len()
            invariant
                k <= self.plans@.len(),
                ps@.len() == k,
                forall|q: int| 0 <= q < k ==> ps@[q] == #[trigger] self.plans@[q].id,
            decreases self.plans@.len() - k,
        {
            ps.push(self.plans[k].id);
            k = k + 1;
        }
        let mut os: Vec<Digest> = Vec::new();
        let mut k: usize = 0;
        while k < self.operations.len()
            invariant
                k <= self.operations@.len(),
                os@.len() == k,
                forall|q: int| 0 <= q < k ==> os@[q] == #[trigger] self.operations@[q].id,
            decreases self.operations@.len() - k,
        {
            os.push(self.operations[k].id);
            k = k + 1;
        }
        let mut gs: Vec<Digest> = Vec::new();
        let mut k: usize = 0;
        while k < self.grants.len()
            invariant
                k <= self.grants@.len(),
                gs@.len() == k,
                forall|q: int| 0 <= q < k ==> gs@[q] == #[trigger] self.grants@[q].id,
            decreases self.grants@.len() - k,
        {
            gs.push(self.grants[k].id);
            k = k + 1;
        }
        let mut rs: Vec<Digest> = Vec::new();
        let mut k: usize = 0;
        while k < self.requests.len()
            invariant
                k <= self.requests@.len(),
                rs@.len() == k,
                forall|q: int| 0 <= q < k ==> rs@[q] == #[trigger] self.requests@[q].id,
            decreases self.requests@.len() - k,
        {
            rs.push(self.requests[k].id);
            k = k + 1;
        }
        let a = digests_unique(&ps);
        let b = digests_unique(&os);
        let c = digests_unique(&gs);
        let d = digests_unique(&rs);
        proof {
            assert(a == plan_ids_unique(self.plans@)) by {
                assert forall|x: int, y: int| 0 <= x < y < self.plans@.len() implies (ps@[x] != ps@[y]) == (self.plans@[x].id != self.plans@[y].id) by {
                    assert(ps@[x] == self.plans@[x].id);
                    assert(ps@[y] == self.plans@[y].id);
                }
            }
            assert(b == op_ids_unique(self.operations@)) by {
                assert forall|x: int, y: int| 0 <= x < y < self.operations@.len() implies (os@[x] != os@[y]) == (self.operations@[x].id != self.operations@[y].id) by {
                    assert(os@[x] == self.operations@[x].id);
                    assert(os@[y] == self.operations@[y].id);
                }
            }
            assert(c == grant_ids_unique(self.grants@)) by {
                assert forall|x: int, y: int| 0 <= x < y < self.grants@.len() implies (gs@[x] != gs@[y]) == (self.grants@[x].id != self.grants@[y].id) by {
                    assert(gs@[x] == self.grants@[x].id);
                    assert(gs@[y] == self.grants@[y].id);
                }
            }
            assert(d == request_ids_unique(self.requests@)) by {
                assert forall|x: int, y: int| 0 <= x < y < self.requests@.len() implies (rs@[x] != rs@[y]) == (self.requests@[x].id != self.requests@[y].id) by {
                    assert(rs@[x] == self.requests@[x].id);
                    assert(rs@[y] == self.requests@[y].id);
                }
            }
        }
        if !(a && b && c && d) {
            return false;
        }
        let nn = &self.next_nonce;
        let mut y: usize = 0;
        while y < nn.len()
            invariant
                y <= nn@.len(),
                *nn == self.next_nonce,
                forall|p: int, q: int| 0 <= p < q < y ==> #[trigger] nn@[p].caller@ != #[trigger] nn@[q].caller@,
            decreases nn@.len() - y,
        {
            let mut x: usize = 0;
            while x < y
                invariant
                    x <= y < nn@.len(),
                    *nn == self.next_nonce,
                    forall|p: int, q: int| 0 <= p < q < y ==> #[trigger] nn@[p].caller@ != #[trigger] nn@[q].caller@,
                    forall|p: int| 0 <= p < x ==> #[trigger] nn@[p].caller@ != nn@[y as int].caller@,
                decreases y - x,
            {
                if nn[x].caller.same(&nn[y].caller) {
                    assert(!(nn@[x as int].caller@ != nn@[y as int].caller@));
                    return false;
                }
                x = x + 1;
            }
            y = y + 1;
        }
        true
    }

    fn records_ok(&self) -> (r: bool)
        ensures
            r == ((forall|i: int| 0 <= i < self.requests@.len() ==> #[trigger] record_ok(self.requests@[i]))
                && (forall|i: int| 0 <= i < self.requests@.len() ==> #[trigger] refs_ok(
                    self.operations@,
                    self.grants@,
                    self.next_nonce@,
                    self.requests@[i],
                ))),
    {
        let mut i: usize = 0;
        while i < self.requests.len()
            invariant
                i <= self.requests@.len(),
                forall|k: int| 0 <= k < i ==> #[trigger] record_ok(self.requests@[k]),
                forall|k: int| 0 <= k < i ==> #[trigger] refs_ok(self.operations@, self.grants@, self.next_nonce@, self.requests@[k]),
            decreases self.requests@.len() - i,
        {
            let r = &self.requests[i];
            let held_some = r.reservation.is_some();
            let (holding, succeeded, open) = match r.status {
                Status::Submitted | Status::OutcomeUnknown(_) => (true, false, true),
                Status::NeedsReview(_) => (true, false, false),
                Status::Succeeded(_) => (false, true, false),
                _ => (false, false, false),
            };
            if (held_some && !holding) || (succeeded && held_some) || (open && !held_some) {
                assert(!record_ok(self.requests@[i as int]));
                return false;
            }
            if self.find_operation(&r.operation).is_none() || self.find_grant(&r.grant).is_none()
                || self.find_nonce(&r.caller).is_none() {
                assert(!refs_ok(self.operations@, self.grants@, self.next_nonce@, self.requests@[i as int]));
                return false;
            }
            i = i + 1;
        }
        true
    }

    fn links_ok(&self) -> (r: bool)
        ensures
            r == ((forall|i: int, j: int| 0 <= i < self.requests@.len() && 0 <= j < self.operations@.len()
                ==> #[trigger] op_link(self.requests@[i], self.operations@[j])) && (forall|i: int, j: int|
                0 <= i < self.requests@.len() && 0 <= j < self.grants@.len() ==> #[trigger] window_link(
                    self.requests@[i],
                    self.grants@[j],
                )) && (forall|i: int, k: int| 0 <= i < self.requests@.len() && 0 <= k < self.next_nonce@.len()
                ==> #[trigger] nonce_link(self.requests@[i], self.next_nonce@[k]))),
    {
        let mut i: usize = 0;
        while i < self.requests.len()
            invariant
                i <= self.requests@.len(),
                forall|a: int, j: int| 0 <= a < i && 0 <= j < self.operations@.len() ==> #[trigger] op_link(self.requests@[a], self.operations@[j]),
                forall|a: int, j: int| 0 <= a < i && 0 <= j < self.grants@.len() ==> #[trigger] window_link(self.requests@[a], self.grants@[j]),
                forall|a: int, k: int| 0 <= a < i && 0 <= k < self.next_nonce@.len() ==> #[trigger] nonce_link(self.requests@[a], self.next_nonce@[k]),
            decreases self.requests@.len() - i,
        {
            let r = &self.requests[i];
            let succeeded = match r.status {
                Status::Succeeded(_) => true,
                _ => false,
            };
            let mut j: usize = 0;
            while j < self.operations.len()
                invariant
                    j <= self.operations@.len(),
                    i < self.requests@.len(),
                    *r == self.requests@[i as int],
                    succeeded == (r.status is Succeeded),
                    forall|q: int| 0 <= q < j ==> #[trigger] op_link(self.requests@[i as int], self.operations@[q]),
                decreases self.operations@.len() - j,
            {
                let o = &self.operations[j];
                if digest_eq(&r.operation, &o.id) {
                    let reserved_by = match &o.status {
                        OperationStatus::Reserved(x) => digest_eq(x, &r.id),
                        _ => false,
                    };
                    let consumed_by = match &o.status {
                        OperationStatus::Consumed(x) => digest_eq(x, &r.id),
                        _ => false,
                    };
                    if (r.reservation.is_some() && !reserved_by) || (succeeded && !consumed_by) {
                        assert(!op_link(self.requests@[i as int], self.operations@[j as int]));
                        return false;
                    }
                }
                j = j + 1;
            }
            let mut j: usize = 0;
            while j < self.grants.len()
                invariant
                    j <= self.grants@.len(),
                    i < self.requests@.len(),
                    *r == self.requests@[i as int],
                    forall|q: int| 0 <= q < j ==> #[trigger] window_link(self.requests@[i as int], self.grants@[q]),
                decreases self.grants@.len() - j,
            {
                let g = &self.grants[j];
                if digest_eq(&r.grant, &g.id) {
                    if let Some(x) = r.reservation {
                        let mut w: usize = 0;
                        let mut found = false;
                        while w < g.windows.len()
                            invariant
                                w <= g.windows@.len(),
                                found ==> has_window(g.windows@, x.epoch),
                                !found ==> forall|q: int| 0 <= q < w ==> #[trigger] g.windows@[q].epoch != x.epoch,
                            decreases g.windows@.len() - w,
                        {
                            if g.windows[w].epoch == x.epoch {
                                found = true;
                            }
                            w = w + 1;
                        }
                        if !found {
                            assert(!window_link(self.requests@[i as int], self.grants@[j as int]));
                            return false;
                        }
                    }
                }
                j = j + 1;
            }
            let mut k: usize = 0;
            while k < self.next_nonce.len()
                invariant
                    k <= self.next_nonce@.len(),
                    i < self.requests@.len(),
                    *r == self.requests@[i as int],
                    forall|q: int| 0 <= q < k ==> #[trigger] nonce_link(self.requests@[i as int], self.next_nonce@[q]),
                decreases self.next_nonce@.len() - k,
            {
                let n = &self.next_nonce[k];
                if n.caller.same(&r.caller) && n.next <= r.nonce {
                    assert(!nonce_link(self.requests@[i as int], self.next_nonce@[k as int]));
                    return false;
                }
                k = k + 1;
            }
            i = i + 1;
        }
        true
    }

    /// `Ok` when the grant's books balance; `Storage` when a sum disagrees,
    /// `Budget` when a cap is exceeded.
    fn books_ok(&self, j: usize) -> (r: Result<(), Error>)
        requires
            j < self.grants@.len(),
        ensures
            r is Ok <==> grant_books(self.grants@[j as int], self.requests@),
            r matches Err(e) ==> e == Error::Storage || e == Error::Budget,
    {
        let g = &self.grants[j];
        let ghost gv = self.grants@[j as int];
        let mut b: usize = 0;
        while b < g.windows.len()
            invariant
                b <= g.windows@.len(),
                j < self.grants@.len(),
                *g == gv,
                gv == self.grants@[j as int],
                forall|x: int, y: int| 0 <= x < y < b ==> #[trigger] g.windows@[x].epoch != #[trigger] g.windows@[y].epoch,
            decreases g.windows@.len() - b,
        {
            let mut a: usize = 0;
            while a < b
                invariant
                    a <= b < g.windows@.len(),
                    j < self.grants@.len(),
                    *g == gv,
                    gv == self.grants@[j as int],
                    forall|x: int, y: int| 0 <= x < y < b ==> #[trigger] g.windows@[x].epoch != #[trigger] g.windows@[y].epoch,
                    forall|x: int| 0 <= x < a ==> #[trigger] g.windows@[x].epoch != g.windows@[b as int].epoch,
                decreases b - a,
            {
                if g.windows[a].epoch == g.windows[b].epoch {
                    assert(!(g.windows@[a as int].epoch != g.windows@[b as int].epoch));
                    return Err(Error::Storage);
                }
                a = a + 1;
            }
            b = b + 1;
        }
        if g.window_ns == 0 {
            return Err(Error::Storage);
        }
        match held_total(&self.requests, &g.id, None) {
            Some(v) => {
                if v != g.total.reserved {
                    return Err(Error::Storage);
                }
            },
            None => return Err(Error::Storage),
        }
        match g.total.spent.checked_add(g.total.reserved) {
            Some(t) => {
                if t > g.total_cap {
                    return Err(Error::Budget);
                }
            },
            None => return Err(Error::Budget),
        }
        let mut k: usize = 0;
        while k < g.windows.len()
            invariant
                k <= g.windows@.len(),
                *g == gv,
                j < self.grants@.len(),
                gv == self.grants@[j as int],
                forall|q: int| 0 <= q < k ==> #[trigger] window_books(gv, gv.windows@[q], self.requests@),
            decreases g.windows@.len() - k,
        {
            let w = g.windows[k];
            match held_total(&self.requests, &g.id, Some(w.epoch)) {
                Some(v) => {
                    if v != w.usage.reserved {
                        assert(!window_books(gv, gv.windows@[k as int], self.requests@));
                        return Err(Error::Storage);
                    }
                },
                None => {
                    assert(!window_books(gv, gv.windows@[k as int], self.requests@));
                    return Err(Error::Storage);
                },
            }
            match w.usage.spent.checked_add(w.usage.reserved) {
                Some(t) => {
                    if t > g.window_cap {
                        assert(!window_books(gv, gv.windows@[k as int], self.requests@));
                        return Err(Error::Budget);
                    }
                },
                None => {
                    assert(!window_books(gv, gv.windows@[k as int], self.requests@));
                    return Err(Error::Budget);
                },
            }
            k = k + 1;
        }
        Ok(())
    }

    /// Checks the invariant on a state loaded from storage.
    pub fn check_invariants(&self) -> (r: Result<(), Error>)
        ensures
            r is Ok <==> self.inv(),
            r matches Err(e) ==> e == Error::Storage || e == Error::Budget,
    {
        if !self.ids_ok() || !self.records_ok() || !self.links_ok() {
            return Err(Error::Storage);
        }
        let mut j: usize = 0;
        while j < self.grants.len()
            invariant
                j <= self.grants@.len(),
                forall|q: int| 0 <= q < j ==> #[trigger] grant_books(self.grants@[q], self.requests@),
            decreases self.grants@.len() - j,
        {
            self.books_ok(j)?;
            j = j + 1;
        }
        Ok(())
    }
}


/// The masses sum to the mass before `k` plus the mass from `k` on.
proof fn lemma_mass_split(m: Seq<u32>, k: int)
    requires
        0 <= k <= m.len(),
    ensures
        mass_sum(m) == mass_sum(m.subrange(0, k)) + mass_sum(m.subrange(k, m.len() as int)),
    decreases m.len(),
{
    if m.len() > k {
        lemma_mass_split(m.drop_last(), k);
        assert(m.drop_last().subrange(0, k) =~= m.subrange(0, k));
        assert(m.subrange(k, m.len() as int).drop_last() =~= m.drop_last().subrange(k, m.len() - 1));
    } else {
        assert(m.subrange(0, k) =~= m);
        assert(m.subrange(k, m.len() as int) =~= Seq::<u32>::empty());
    }
}

/// The tie flag of correct diagnostics says whether another slot shares the
/// largest mass.
proof fn lemma_tied(m: Seq<u32>, d: crate::types::Diagnostics)
    requires
        diag_of(m, d),
    ensures
        is_first_max(m, first_max(m)),
        d.tied <==> exists|j: int| 0 <= j < m.len() && j != first_max(m) && #[trigger] m[j] == m[first_max(m)],
{
    let k = choose|k: int| is_first_max(m, k) && d.top1_ppm == m[k] && d.margin_ppm <= d.top1_ppm && is_runner_up(
        m,
        k,
        (d.top1_ppm - d.margin_ppm) as u32,
    ) && d.tied == (d.margin_ppm == 0);
    lemma_first_max_unique(m, k, first_max(m));
}

/// How an assessed receipt that `check_rule` accepts is judged, in terms of its
/// masses `m`: `NoulTrue` passes when "true" holds at least the minimum and
/// "false" does not hold as much; `ChoiceIs` passes exactly when the named
/// option holds strictly more mass than every other option and at least the
/// minimum; `ScoreTailAtMost` passes when everything outside the bins below
/// the first bad one is at most the maximum.
pub proof fn law_rule_verdicts(sig: RequiredSignal, rc: Receipt)
    requires
        rule_fits(sig),
        receipt_valid(sig, rc),
        rc.outcome is Assessed,
    ensures
        ({
            let m = rc.outcome->Assessed_0.spec_masses();
            let opts = sig.schema.schema.options@;
            match sig.rule {
                Rule::NoulTrue { minimum_ppm } => receipt_passes(sig, rc) <==> m[1] >= minimum_ppm && m[0] != m[1],
                Rule::ChoiceIs { option_id, minimum_ppm } => receipt_passes(sig, rc) <==> exists|k: int|
                    0 <= k < m.len() && k < opts.len() && opts[k].id@ == option_id@ && m[k] >= minimum_ppm && forall|j: int|
                        0 <= j < m.len() && j != k ==> m[j] < m[k],
                Rule::ScoreTailAtMost { first_bad_bin, maximum_ppm } => receipt_passes(sig, rc) <==> PPM - mass_sum(
                    m.subrange(0, first_bad_bin as int),
                ) <= maximum_ppm,
            }
        }),
{
    let v = rc.outcome->Assessed_0;
    let m = v.spec_masses();
    let d = rc.diagnostics->0;
    let opts = sig.schema.schema.options@;
    lemma_tied(m, d);
    let k0 = first_max(m);
    match sig.rule {
        Rule::NoulTrue { minimum_ppm } => {
            assert(m.len() == 2);
            if m[0] == m[1] {
                if k0 == 0 {
                    assert(m[1] == m[k0]);
                } else {
                    assert(m[0] == m[k0]);
                }
            }
        },
        Rule::ChoiceIs { option_id, minimum_ppm } => {
            let want = exists|k: int|
                0 <= k < m.len() && k < opts.len() && opts[k].id@ == option_id@ && m[k] >= minimum_ppm && forall|j: int|
                    0 <= j < m.len() && j != k ==> m[j] < m[k];
            if receipt_passes(sig, rc) {
                assert forall|j: int| 0 <= j < m.len() && j != k0 implies m[j] < m[k0] by {
                    assert(m[j] <= m[k0]);
                    if m[j] == m[k0] {
                        assert(d.tied);
                    }
                }
                assert(m.len() == opts.len());
                assert(want);
            }
            if want {
                let k = choose|k: int|
                    0 <= k < m.len() && k < opts.len() && opts[k].id@ == option_id@ && m[k] >= minimum_ppm && forall|j: int|
                        0 <= j < m.len() && j != k ==> m[j] < m[k];
                assert(is_first_max(m, k));
                lemma_first_max_unique(m, k, k0);
                assert(!d.tied);
            }
        },
        Rule::ScoreTailAtMost { first_bad_bin, maximum_ppm } => {
            lemma_mass_split(m, first_bad_bin as int);
        },
    }
}

} // verus!
