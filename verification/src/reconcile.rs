//! The executor's ledger adapter decisions: registering a mock ledger after its
//! handshake, reading a ledger's reply to a transfer, and reconciling a transfer
//! whose reply was lost by looking it up again. Reconciliation never sends a
//! transfer; only matching evidence settles a reservation.
use vstd::prelude::*;
use vstd::string::StringExecFns;
use crate::icrc::Lookup;
use crate::mock_ledger::fingerprint;
use crate::snapshot::MOCK_MAGIC;
use crate::text::str_eq;
use crate::types::{digest_eq, sbytes, Digest, Error, Principal};
use crate::workflow::{
    block_index_ok, ledger_registered, may_act, request_at, request_exists, settled, DispatchCommand, ExecutorState, LedgerOutcome, RequestRecord,
    Status,
};

verus! {

/// Mock ledgers an executor accepts.
pub const MAX_MOCK_LEDGERS: usize = 8;

/// What the ledger call came back with.
#[derive(Debug, Clone, PartialEq, Eq)]
pub enum LedgerReply {
    /// The transfer committed at this block index (decimal).
    Committed(String),
    /// The ledger already holds this transfer at this block index (decimal).
    Duplicate(String),
    /// Any other refusal, as the ledger reported it.
    Refused(String),
    /// A reply that did not decode.
    Undecodable,
    /// The call failed or timed out.
    Unreachable,
}

/// The outcome a reply proves. A failed or undecodable call proves nothing
/// about execution, so it is `Unknown`.
pub fn ledger_outcome(reply: LedgerReply) -> (o: LedgerOutcome)
    ensures
        match reply {
            LedgerReply::Committed(x) => o == LedgerOutcome::Success(x),
            LedgerReply::Duplicate(x) => o == LedgerOutcome::Duplicate(x),
            LedgerReply::Refused(x) => o == LedgerOutcome::DefinitiveError(x),
            LedgerReply::Undecodable => o matches LedgerOutcome::Unknown(m) && m@ == "undecodable ledger response"@,
            LedgerReply::Unreachable => o matches LedgerOutcome::Unknown(m) && m@ == "ledger call failed or timed out"@,
        },
{
    match reply {
        LedgerReply::Committed(x) => LedgerOutcome::Success(x),
        LedgerReply::Duplicate(x) => LedgerOutcome::Duplicate(x),
        LedgerReply::Refused(x) => LedgerOutcome::DefinitiveError(x),
        LedgerReply::Undecodable => LedgerOutcome::Unknown(String::from_str("undecodable ledger response")),
        LedgerReply::Unreachable => LedgerOutcome::Unknown(String::from_str("ledger call failed or timed out")),
    }
}

/// The handshake marker of a mock ledger.
pub fn is_mock_marker(marker: &str) -> (r: bool)
    ensures
        r == (marker@ == MOCK_MAGIC@),
{
    str_eq(marker, MOCK_MAGIC)
}

/// The first step of reconciliation: a settled request answers at once; an
/// open transfer with a held reservation is looked up at its mock ledger.
#[derive(Debug)]
pub enum Reconcile {
    Settled(Status),
    Lookup { cmd: DispatchCommand, parked: bool },
}

/// The refusal `reconcile_step` gives for a request the caller may see.
pub open spec fn reconcile_refusal(s: ExecutorState, rec: RequestRecord, e: Error) -> bool {
    if !(rec.status is Submitted || rec.status is OutcomeUnknown || rec.status is NeedsReview) || rec.reservation is None {
        e == Error::Transition
    } else if rec.frozen is None {
        e == Error::Storage
    } else {
        e == Error::Unauthorized
    }
}

/// The request may be looked up: an open transfer with a held reservation, a
/// frozen transfer, and a registered mock ledger.
pub open spec fn reconcilable(s: ExecutorState, rec: RequestRecord) -> bool {
    &&& rec.status is Submitted || rec.status is OutcomeUnknown || rec.status is NeedsReview
    &&& rec.reservation is Some
    &&& rec.frozen matches Some(f) && ledger_registered(s.mock_ledgers@, f.proposal.ledger)
}

impl ExecutorState {
    /// Owner-only: accepts a mock ledger whose handshake succeeded; at most
    /// eight, and a known one is accepted again without change.
    pub fn add_mock_ledger(&mut self, caller: &Principal, ledger: &Principal) -> (r: Result<(), Error>)
        requires
            old(self).inv(),
        ensures
            final(self).inv(),
            !old(self).is_owner(*caller) ==> r == Err::<(), Error>(Error::Unauthorized),
            old(self).is_owner(*caller) && ledger_registered(old(self).mock_ledgers@, *ledger) ==> r is Ok,
            old(self).is_owner(*caller) && !ledger_registered(old(self).mock_ledgers@, *ledger)
                && old(self).mock_ledgers@.len() >= MAX_MOCK_LEDGERS ==> r == Err::<(), Error>(Error::Capacity),
            r is Ok && !ledger_registered(old(self).mock_ledgers@, *ledger) ==> final(self).mock_ledgers@.len()
                == old(self).mock_ledgers@.len() + 1 && final(self).mock_ledgers@.last()@ == ledger@
                && final(self).mock_ledgers@.drop_last() == old(self).mock_ledgers@,
            r is Err || ledger_registered(old(self).mock_ledgers@, *ledger) ==> *final(self) == *old(self),
            final(self).same_registries_but_ledgers(old(self)),
    {
        self.assert_owner(caller)?;
        if self.ledger_is_registered(ledger) {
            return Ok(());
        }
        if self.mock_ledgers.len() >= MAX_MOCK_LEDGERS {
            return Err(Error::Capacity);
        }
        self.mock_ledgers.push(ledger.clone_principal());
        Ok(())
    }

    /// Everything but the mock ledger list as in `other`.
    pub open spec fn same_registries_but_ledgers(&self, other: &Self) -> bool {
        &&& self.instance == other.instance && self.owner == other.owner && self.engine == other.engine
        &&& self.mode == other.mode && self.paused == other.paused
        &&& self.plans == other.plans && self.operations == other.operations
        &&& self.grants == other.grants && self.requests == other.requests && self.next_nonce == other.next_nonce
    }

    /// The first step of reconciling request `id` for `caller`, who must be its
    /// requester or the owner. A request that already succeeded answers with its
    /// status; otherwise it must hold an open transfer (submitted, unknown, or
    /// parked for review) with its reservation, and its frozen transfer must go to
    /// a registered mock ledger. Nothing changes.
    pub fn reconcile_step(&self, caller: &Principal, id: Digest) -> (r: Result<Reconcile, Error>)
        requires
            self.inv(),
        ensures
            !request_exists(self.requests@, id) ==> r == Err::<Reconcile, Error>(Error::NotFound),
            request_exists(self.requests@, id) ==> {
                let rec = self.requests@[request_at(self.requests@, id)];
                &&& !may_act(*self, *caller, rec) ==> r == Err::<Reconcile, Error>(Error::Unauthorized)
                &&& may_act(*self, *caller, rec) && rec.status is Succeeded ==> r == Ok::<Reconcile, Error>(Reconcile::Settled(rec.status))
                &&& may_act(*self, *caller, rec) && !(rec.status is Succeeded) && reconcilable(*self, rec) ==> (match r {
                    Ok(Reconcile::Lookup { cmd, parked }) => cmd.request == id && cmd.attempt == rec.ledger_attempt
                        && cmd.transfer@ == rec.frozen->Some_0@ && parked == rec.status is NeedsReview,
                    _ => false,
                })
                &&& may_act(*self, *caller, rec) && !(rec.status is Succeeded) && !reconcilable(*self, rec) ==> (match r {
                    Err(e) => reconcile_refusal(*self, rec, e),
                    Ok(_) => false,
                })
            },
            r matches Ok(Reconcile::Lookup { cmd, parked }) ==> looked_up(*self, cmd, parked),
    {
        let rec = match self.get(caller, id) {
            Ok(rec) => rec,
            Err(e) => {
                return Err(e);
            },
        };
        match &rec.status {
            Status::Succeeded(x) => {
                return Ok(Reconcile::Settled(Status::Succeeded(x.clone())));
            },
            _ => {},
        }
        let open = match &rec.status {
            Status::Submitted => true,
            Status::OutcomeUnknown(_) => true,
            Status::NeedsReview(_) => true,
            _ => false,
        };
        if !open || rec.reservation.is_none() {
            return Err(Error::Transition);
        }
        let parked = match &rec.status {
            Status::NeedsReview(_) => true,
            _ => false,
        };
        let transfer = match &rec.frozen {
            Some(f) => f.clone_frozen(),
            None => {
                return Err(Error::Storage);
            },
        };
        if !self.ledger_is_registered(&transfer.proposal.ledger) {
            return Err(Error::Unauthorized);
        }
        Ok(Reconcile::Lookup { cmd: DispatchCommand { request: id, attempt: rec.ledger_attempt, transfer }, parked })
    }
}

/// What the ledger's lookup proves for the command: a receipt for this exact
/// frozen transfer is a success at its block index; a receipt for another
/// transfer is a binding mismatch; no receipt proves nothing, so a parked
/// transfer stays parked and any other becomes (or stays) unknown.
pub fn reconcile_outcome(cmd: &DispatchCommand, parked: bool, lookup: Option<Lookup>) -> (r: Result<LedgerOutcome, Error>)
    ensures
        match lookup {
            Some(found) => if found.frozen_hash@ == fingerprint(cmd.transfer) {
                r == Ok::<LedgerOutcome, Error>(LedgerOutcome::Success(found.block_index))
            } else {
                r == Err::<LedgerOutcome, Error>(Error::BindingMismatch)
            },
            None => if parked {
                r == Err::<LedgerOutcome, Error>(Error::OutcomeUnknown)
            } else {
                r matches Ok(LedgerOutcome::Unknown(m)) && m@ == "not found is not proof of non-execution"@
            },
        },
{
    match lookup {
        Some(found) => {
            let d: Digest = cmd.transfer.digest();
            if digest_eq(&found.frozen_hash, &d) {
                Ok(LedgerOutcome::Success(found.block_index))
            } else {
                Err(Error::BindingMismatch)
            }
        },
        None => {
            if parked {
                Err(Error::OutcomeUnknown)
            } else {
                Ok(LedgerOutcome::Unknown(String::from_str("not found is not proof of non-execution")))
            }
        },
    }
}

/// The command came from `reconcile_step`: it names an existing request that
/// holds an open transfer with its reservation, binds that request's frozen
/// transfer and its latest attempt, and is parked exactly when the request
/// waits for review.
pub open spec fn looked_up(s: ExecutorState, cmd: DispatchCommand, parked: bool) -> bool {
    let rec = s.requests@[request_at(s.requests@, cmd.request)];
    &&& request_exists(s.requests@, cmd.request)
    &&& rec.status is Submitted || rec.status is OutcomeUnknown || rec.status is NeedsReview
    &&& rec.reservation is Some
    &&& rec.frozen matches Some(f) && f@ == cmd.transfer@ && cmd.attempt == rec.ledger_attempt
    &&& parked == rec.status is NeedsReview
}

impl ExecutorState {
    /// The end of a reconciliation round: what the mock ledger's lookup proves
    /// (`reconcile_outcome`) is recorded (`finish_ledger`). Only a receipt for
    /// this exact frozen transfer settles the reservation, as a success at its
    /// block index; no receipt keeps the reservation and the frozen transfer,
    /// leaving the outcome unknown (a parked transfer stays parked and the
    /// answer is `OutcomeUnknown`); a receipt for another transfer changes
    /// nothing. No transfer is sent. The clauses on `looked_up` speak of a
    /// command whose transfer went out (attempt 1 or later).
    pub fn finish_reconcile(&mut self, cmd: &DispatchCommand, parked: bool, lookup: Option<Lookup>) -> (r: Result<Status, Error>)
        requires
            old(self).inv(),
        ensures
            final(self).inv(),
            r is Err ==> *final(self) == *old(self),
            lookup is None && parked ==> r == Err::<Status, Error>(Error::OutcomeUnknown),
            lookup matches Some(f) && f.frozen_hash@ != fingerprint(cmd.transfer) ==> r == Err::<Status, Error>(Error::BindingMismatch),
            ({
                let s = *old(self);
                let i = request_at(s.requests@, cmd.request);
                let rec = s.requests@[i];
                let found = lookup->Some_0;
                let matching = lookup is Some && found.frozen_hash@ == fingerprint(cmd.transfer);
                &&& looked_up(s, *cmd, parked) && cmd.attempt > 0 && lookup is None && !parked ==> (r matches Ok(Status::OutcomeUnknown(m))
                    && m@ == "not found is not proof of non-execution"@)
                    && final(self).requests@[i].reservation == rec.reservation && final(self).requests@[i].frozen == rec.frozen
                    && final(self).grants == s.grants && final(self).operations == s.operations
                &&& looked_up(s, *cmd, parked) && cmd.attempt > 0 && matching ==> if block_index_ok(sbytes(found.block_index)) {
                    (r matches Ok(Status::Succeeded(x)) && x@ == found.block_index@) && settled(s, *final(self), i, true, found.block_index)
                } else {
                    r is Err
                }
                &&& looked_up(s, *cmd, parked) && cmd.attempt > 0 && !matching ==> final(self).requests@[i].reservation == rec.reservation
                    && final(self).grants == s.grants
            }),
    {
        let outcome = reconcile_outcome(cmd, parked, lookup)?;
        self.finish_ledger(cmd, outcome)
    }
}

} // verus!
