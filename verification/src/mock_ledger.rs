//! The ICRC-1 transfer test double: an owner-set fault, per-caller balances
//! with a fixed opening grant, and deduplication of a caller's frozen transfers.
//! It holds no real assets.
use vstd::prelude::*;
use vstd::string::StringExecFns;
use crate::icrc::{from_icrc, icrc_error, icrc_ok, Lookup, TransferArg};
use crate::text::{decimal, decimal_bytes, lemma_decimal_ascii};
use crate::types::{anonymous_bytes, ascii_chars, ascii_string, error_text, sha256, Digest, Error, Principal};
use crate::workflow::{frozen_preimage, FrozenTransfer, MOCK_DEDUP_WINDOW_NS};

verus! {

/// The only fee the double accepts.
pub const MOCK_FEE: u128 = 10;
/// The balance a caller starts with.
pub const OPENING_BALANCE: u128 = 1_000_000_000_000;
/// Committed transfers the double keeps.
pub const MAX_RECORDS: usize = 2048;
/// Distinct callers the double keeps balances for.
pub const MAX_CALLERS: usize = 64;
/// How far in the future a creation time may lie.
pub const FUTURE_SLACK_NS: u64 = 1_000_000_000;

/// The failure the owner injects.
#[derive(Debug, Clone, Copy, PartialEq, Eq, Structural)]
pub enum Fault {
    NoFault,
    BadFee,
    TooOld,
    CommitThenCallbackTrap,
}

/// An ICRC-1 transfer error; ledger numbers are held as `u128`.
#[derive(Debug, Clone, PartialEq, Eq)]
pub enum TransferError {
    BadFee { expected_fee: u128 },
    BadBurn { min_burn_amount: u128 },
    InsufficientFunds { balance: u128 },
    TooOld,
    CreatedInFuture { ledger_time: u64 },
    TemporarilyUnavailable,
    Duplicate { duplicate_of: u128 },
    GenericError { error_code: u128, message: String },
}

/// A committed transfer: who sent it, the frozen transfer's fingerprint, its index.
#[derive(Debug, Clone)]
pub struct MockRecord {
    pub caller: Principal,
    pub fingerprint: Digest,
    pub index: u64,
}

/// A caller's balance.
#[derive(Debug, Clone)]
pub struct MockBalance {
    pub caller: Principal,
    pub balance: u128,
}

/// The double's state.
#[derive(Debug, Clone)]
pub struct MockLedger {
    pub owner: Principal,
    pub fault: Fault,
    pub next: u64,
    pub records: Vec<MockRecord>,
    pub balances: Vec<MockBalance>,
}

/// Owner, fault, next index, records as (caller, fingerprint, index), balances as (caller, balance).
pub type LedgerView = (Seq<u8>, Fault, u64, Seq<(Seq<u8>, Seq<u8>, u64)>, Seq<(Seq<u8>, u128)>);

impl View for MockLedger {
    type V = LedgerView;

    open spec fn view(&self) -> LedgerView {
        (
            self.owner@,
            self.fault,
            self.next,
            self.records@.map_values(|r: MockRecord| (r.caller@, r.fingerprint@, r.index)),
            self.balances@.map_values(|b: MockBalance| (b.caller@, b.balance)),
        )
    }
}

/// The position of the caller's record of `fp`, or -1.
pub open spec fn rec_index(rs: Seq<(Seq<u8>, Seq<u8>, u64)>, c: Seq<u8>, fp: Seq<u8>) -> int
    decreases rs.len(),
{
    if rs.len() == 0 {
        -1
    } else if rs.last().0 == c && rs.last().1 == fp {
        rs.len() - 1
    } else {
        rec_index(rs.drop_last(), c, fp)
    }
}

/// The position of the caller's balance, or -1.
pub open spec fn bal_index(bs: Seq<(Seq<u8>, u128)>, c: Seq<u8>) -> int
    decreases bs.len(),
{
    if bs.len() == 0 {
        -1
    } else if bs.last().0 == c {
        bs.len() - 1
    } else {
        bal_index(bs.drop_last(), c)
    }
}

/// The caller's balance, or the opening balance for a new caller.
pub open spec fn balance_of(l: LedgerView, c: Seq<u8>) -> u128 {
    let k = bal_index(l.4, c);
    if k >= 0 { l.4[k].1 } else { OPENING_BALANCE }
}

/// Records index their own position, no caller commits one fingerprint twice,
/// no caller has two balances, and both stay within their bounds.
pub open spec fn ledger_inv(l: LedgerView) -> bool {
    &&& l.2 as int == l.3.len() && l.3.len() <= MAX_RECORDS && l.4.len() <= MAX_CALLERS
    &&& forall|i: int| 0 <= i < l.3.len() ==> (#[trigger] l.3[i]).2 == i
    &&& forall|i: int, j: int| 0 <= i < j < l.3.len() ==> !((#[trigger] l.3[i]).0 == (#[trigger] l.3[j]).0 && l.3[i].1 == l.3[j].1)
    &&& forall|i: int, j: int| 0 <= i < j < l.4.len() ==> (#[trigger] l.4[i]).0 != (#[trigger] l.4[j]).0
}

pub open spec fn sat_sub(a: u64, b: u64) -> int {
    if a >= b { a - b } else { 0 }
}

pub open spec fn sat_add(a: u64, b: u64) -> int {
    if a + b <= u64::MAX { a + b } else { u64::MAX as int }
}

/// Why the double refuses a transfer of `f` (fingerprint `fp`) from `c` at `now`,
/// in the order it checks; `None` when it commits.
pub open spec fn refusal(l: LedgerView, c: Seq<u8>, fp: Seq<u8>, f: FrozenTransfer, now: u64) -> Option<TransferError> {
    let k = rec_index(l.3, c, fp);
    if k >= 0 {
        Some(TransferError::Duplicate { duplicate_of: l.3[k].2 as u128 })
    } else if l.1 == Fault::BadFee {
        Some(TransferError::BadFee { expected_fee: MOCK_FEE })
    } else if l.1 == Fault::TooOld || sat_sub(now, f.created_at_time_ns) > MOCK_DEDUP_WINDOW_NS {
        Some(TransferError::TooOld)
    } else if f.created_at_time_ns > sat_add(now, FUTURE_SLACK_NS) {
        Some(TransferError::CreatedInFuture { ledger_time: now })
    } else if f.proposal.fee != MOCK_FEE {
        Some(TransferError::BadFee { expected_fee: MOCK_FEE })
    } else if l.3.len() >= MAX_RECORDS || (bal_index(l.4, c) < 0 && l.4.len() >= MAX_CALLERS) {
        Some(TransferError::TemporarilyUnavailable)
    } else if f.proposal.amount + f.proposal.fee > balance_of(l, c) {
        Some(TransferError::InsufficientFunds { balance: balance_of(l, c) })
    } else {
        None
    }
}

/// The state after committing: the next index, the record, and the charge taken
/// from the caller's balance.
pub open spec fn committed(l: LedgerView, c: Seq<u8>, fp: Seq<u8>, f: FrozenTransfer) -> LedgerView {
    let k = bal_index(l.4, c);
    let left = (balance_of(l, c) - (f.proposal.amount + f.proposal.fee)) as u128;
    (
        l.0,
        l.1,
        (l.2 + 1) as u64,
        l.3.push((c, fp, l.2)),
        if k >= 0 { l.4.update(k, (c, left)) } else { l.4.push((c, left)) },
    )
}

/// The fingerprint a frozen transfer is deduplicated by.
pub open spec fn fingerprint(f: FrozenTransfer) -> Seq<u8> {
    sha256(frozen_preimage(f))
}

proof fn lemma_rec_index(rs: Seq<(Seq<u8>, Seq<u8>, u64)>, c: Seq<u8>, fp: Seq<u8>)
    ensures
        -1 <= rec_index(rs, c, fp) < rs.len(),
        rec_index(rs, c, fp) >= 0 ==> rs[rec_index(rs, c, fp)].0 == c && rs[rec_index(rs, c, fp)].1 == fp,
        rec_index(rs, c, fp) < 0 ==> forall|i: int| 0 <= i < rs.len() ==> !((#[trigger] rs[i]).0 == c && rs[i].1 == fp),
    decreases rs.len(),
{
    if rs.len() > 0 {
        lemma_rec_index(rs.drop_last(), c, fp);
        if rec_index(rs, c, fp) < 0 {
            assert forall|i: int| 0 <= i < rs.len() implies !((#[trigger] rs[i]).0 == c && rs[i].1 == fp) by {
                if i < rs.len() - 1 {
                    assert(rs[i] == rs.drop_last()[i]);
                }
            }
        }
    }
}

proof fn lemma_bal_index(bs: Seq<(Seq<u8>, u128)>, c: Seq<u8>)
    ensures
        -1 <= bal_index(bs, c) < bs.len(),
        bal_index(bs, c) >= 0 ==> bs[bal_index(bs, c)].0 == c,
        bal_index(bs, c) < 0 ==> forall|i: int| 0 <= i < bs.len() ==> (#[trigger] bs[i]).0 != c,
    decreases bs.len(),
{
    if bs.len() > 0 {
        lemma_bal_index(bs.drop_last(), c);
        if bal_index(bs, c) < 0 {
            assert forall|i: int| 0 <= i < bs.len() implies (#[trigger] bs[i]).0 != c by {
                if i < bs.len() - 1 {
                    assert(bs[i] == bs.drop_last()[i]);
                }
            }
        }
    }
}

/// With distinct keys, a record found by any search is the one `rec_index` names.
proof fn lemma_rec_unique(rs: Seq<(Seq<u8>, Seq<u8>, u64)>, c: Seq<u8>, fp: Seq<u8>, i: int)
    requires
        forall|a: int, b: int| 0 <= a < b < rs.len() ==> !((#[trigger] rs[a]).0 == (#[trigger] rs[b]).0 && rs[a].1 == rs[b].1),
        0 <= i < rs.len(),
        rs[i].0 == c && rs[i].1 == fp,
    ensures
        rec_index(rs, c, fp) == i,
{
    lemma_rec_index(rs, c, fp);
    let k = rec_index(rs, c, fp);
    if k != i {
        if k < i {
            assert(!(rs[k].0 == rs[i].0 && rs[k].1 == rs[i].1));
        } else {
            assert(!(rs[i].0 == rs[k].0 && rs[i].1 == rs[k].1));
        }
    }
}

proof fn lemma_bal_unique(bs: Seq<(Seq<u8>, u128)>, c: Seq<u8>, i: int)
    requires
        forall|a: int, b: int| 0 <= a < b < bs.len() ==> (#[trigger] bs[a]).0 != (#[trigger] bs[b]).0,
        0 <= i < bs.len(),
        bs[i].0 == c,
    ensures
        bal_index(bs, c) == i,
{
    lemma_bal_index(bs, c);
    let k = bal_index(bs, c);
    if k != i {
        if k < i {
            assert(bs[k].0 != bs[i].0);
        } else {
            assert(bs[i].0 != bs[k].0);
        }
    }
}

/// Committing keeps the invariant.
proof fn lemma_commit_inv(l: LedgerView, c: Seq<u8>, fp: Seq<u8>, f: FrozenTransfer, now: u64)
    requires
        ledger_inv(l),
        refusal(l, c, fp, f, now) is None,
    ensures
        ledger_inv(committed(l, c, fp, f)),
{
    lemma_rec_index(l.3, c, fp);
    lemma_bal_index(l.4, c);
    let n = committed(l, c, fp, f);
    let k = bal_index(l.4, c);
    assert forall|i: int| 0 <= i < n.3.len() implies (#[trigger] n.3[i]).2 == i by {
        if i < l.3.len() {
            assert(n.3[i] == l.3[i]);
        }
    }
    assert forall|i: int, j: int| 0 <= i < j < n.3.len() implies !((#[trigger] n.3[i]).0 == (#[trigger] n.3[j]).0 && n.3[i].1 == n.3[j].1) by {
        assert(n.3[i] == l.3[i]);
        if j < l.3.len() {
            assert(n.3[j] == l.3[j]);
        }
    }
    assert forall|i: int, j: int| 0 <= i < j < n.4.len() implies (#[trigger] n.4[i]).0 != (#[trigger] n.4[j]).0 by {
        if k >= 0 {
            if i != k && j != k {
                assert(n.4[i] == l.4[i] && n.4[j] == l.4[j]);
            } else if i == k {
                assert(n.4[j] == l.4[j]);
                assert(l.4[k].0 != l.4[j].0);
            } else {
                assert(n.4[i] == l.4[i]);
                assert(l.4[i].0 != l.4[k].0);
            }
        } else {
            assert(n.4[i] == l.4[i]);
            if j < l.4.len() {
                assert(n.4[j] == l.4[j]);
            }
        }
    }
}

/// A transfer the double committed is never committed again for that caller:
/// any later transfer with the same fingerprint is answered `Duplicate` with the
/// first index, whatever its time.
pub proof fn law_committed_transfer_is_deduplicated(
    l: LedgerView,
    c: Seq<u8>,
    fp: Seq<u8>,
    f: FrozenTransfer,
    g: FrozenTransfer,
    now: u64,
    later: u64,
)
    requires
        ledger_inv(l),
        refusal(l, c, fp, f, now) is None,
    ensures
        refusal(committed(l, c, fp, f), c, fp, g, later) == Some(TransferError::Duplicate { duplicate_of: l.2 as u128 }),
{
    lemma_commit_inv(l, c, fp, f, now);
    let n = committed(l, c, fp, f);
    assert(n.3[l.3.len() as int] == (c, fp, l.2));
    lemma_rec_unique(n.3, c, fp, l.3.len() as int);
}

/// A committed transfer takes exactly its amount and fee from the caller's
/// balance, and nobody else's balance changes.
pub proof fn law_commit_moves_only_the_charge(l: LedgerView, c: Seq<u8>, fp: Seq<u8>, f: FrozenTransfer, now: u64, d: Seq<u8>)
    requires
        ledger_inv(l),
        refusal(l, c, fp, f, now) is None,
    ensures
        balance_of(committed(l, c, fp, f), c) == balance_of(l, c) - f.proposal.amount - f.proposal.fee,
        d != c ==> balance_of(committed(l, c, fp, f), d) == balance_of(l, d),
{
    lemma_commit_inv(l, c, fp, f, now);
    lemma_bal_index(l.4, c);
    lemma_bal_index(l.4, d);
    let n = committed(l, c, fp, f);
    let k = bal_index(l.4, c);
    let kc = if k >= 0 { k } else { l.4.len() as int };
    assert(n.4[kc].0 == c);
    lemma_bal_unique(n.4, c, kc);
    if d != c {
        lemma_bal_index(n.4, d);
        let kd = bal_index(l.4, d);
        if kd >= 0 {
            assert(kd != kc);
            assert(n.4[kd] == l.4[kd]);
            lemma_bal_unique(n.4, d, kd);
        } else {
            assert forall|i: int| 0 <= i < n.4.len() implies (#[trigger] n.4[i]).0 != d by {
                if i != kc {
                    assert(n.4[i] == l.4[i]);
                }
            }
        }
    }
}

impl MockLedger {
    pub open spec fn inv(&self) -> bool {
        ledger_inv(self@)
    }

    /// A fresh double owned by `owner`, with no fault.
    pub fn new(owner: Principal) -> (l: MockLedger)
        ensures
            l.inv(),
            l@ == (owner@, Fault::NoFault, 0u64, Seq::<(Seq<u8>, Seq<u8>, u64)>::empty(), Seq::<(Seq<u8>, u128)>::empty()),
    {
        let l = MockLedger { owner, fault: Fault::NoFault, next: 0, records: Vec::new(), balances: Vec::new() };
        assert(l@.3 =~= Seq::<(Seq<u8>, Seq<u8>, u64)>::empty());
        assert(l@.4 =~= Seq::<(Seq<u8>, u128)>::empty());
        l
    }

    /// The owner sets the injected fault; anyone else is `Unauthorized`.
    pub fn set_fault(&mut self, caller: &Principal, fault: Fault) -> (r: Result<(), Error>)
        requires
            old(self).inv(),
        ensures
            final(self).inv(),
            r is Ok <==> caller@ == old(self).owner@,
            r matches Err(e) ==> e == Error::Unauthorized,
            r is Ok ==> final(self)@ == (old(self)@.0, fault, old(self)@.2, old(self)@.3, old(self)@.4),
            r is Err ==> final(self)@ == old(self)@,
    {
        if !caller.same(&self.owner) {
            return Err(Error::Unauthorized);
        }
        self.fault = fault;
        Ok(())
    }

    /// The number of committed transfers.
    pub fn committed_transfers(&self) -> (n: u64)
        ensures
            n == self.next,
    {
        self.next
    }

    fn find_record(&self, caller: &Principal, fp: &Digest) -> (r: Option<usize>)
        requires
            self.inv(),
        ensures
            r matches Some(i) ==> i == rec_index(self@.3, caller@, fp@) && i < self.records@.len(),
            r is None ==> rec_index(self@.3, caller@, fp@) < 0,
    {
        let ghost rs = self@.3;
        proof {
            lemma_rec_index(rs, caller@, fp@);
        }
        let mut i: usize = 0;
        while i < self.records.len()
            invariant
                i <= self.records@.len(),
                rs == self@.3,
                self.inv(),
                forall|j: int| 0 <= j < i ==> !((#[trigger] rs[j]).0 == caller@ && rs[j].1 == fp@),
            decreases self.records@.len() - i,
        {
            let r = &self.records[i];
            proof {
                assert(rs[i as int] == (r.caller@, r.fingerprint@, r.index));
            }
            if r.caller.same(caller) && crate::types::digest_eq(&r.fingerprint, fp) {
                proof {
                    lemma_rec_unique(rs, caller@, fp@, i as int);
                }
                return Some(i);
            }
            i = i + 1;
        }
        proof {
            if rec_index(rs, caller@, fp@) >= 0 {
                let k = rec_index(rs, caller@, fp@);
                assert(!(rs[k].0 == caller@ && rs[k].1 == fp@));
            }
        }
        None
    }

    fn find_balance(&self, caller: &Principal) -> (r: Option<usize>)
        requires
            self.inv(),
        ensures
            r matches Some(i) ==> i == bal_index(self@.4, caller@) && i < self.balances@.len(),
            r is None ==> bal_index(self@.4, caller@) < 0,
    {
        let ghost bs = self@.4;
        proof {
            lemma_bal_index(bs, caller@);
        }
        let mut i: usize = 0;
        while i < self.balances.len()
            invariant
                i <= self.balances@.len(),
                bs == self@.4,
                self.inv(),
                forall|j: int| 0 <= j < i ==> (#[trigger] bs[j]).0 != caller@,
            decreases self.balances@.len() - i,
        {
            proof {
                assert(bs[i as int] == (self.balances@[i as int].caller@, self.balances@[i as int].balance));
            }
            if self.balances[i].caller.same(caller) {
                proof {
                    lemma_bal_unique(bs, caller@, i as int);
                }
                return Some(i);
            }
            i = i + 1;
        }
        proof {
            if bal_index(bs, caller@) >= 0 {
                let k = bal_index(bs, caller@);
                assert(bs[k].0 != caller@);
            }
        }
        None
    }

    /// Applies the double's rules to a frozen transfer from `caller` at `now`:
    /// the committed index and whether the owner asked for a trap after commit,
    /// or the refusal, which changes nothing.
    pub fn transfer(&mut self, caller: &Principal, f: &FrozenTransfer, now: u64) -> (r: Result<(u64, bool), TransferError>)
        requires
            old(self).inv(),
        ensures
            final(self).inv(),
            match refusal(old(self)@, caller@, fingerprint(*f), *f, now) {
                Some(e) => r == Err::<(u64, bool), TransferError>(e) && final(self)@ == old(self)@,
                None => r == Ok::<(u64, bool), TransferError>((old(self).next, old(self).fault == Fault::CommitThenCallbackTrap))
                    && final(self)@ == committed(old(self)@, caller@, fingerprint(*f), *f),
            },
    {
        let ghost l = self@;
        let fp = f.digest();
        match self.find_record(caller, &fp) {
            Some(i) => {
                proof {
                    assert(l.3[i as int] == (self.records@[i as int].caller@, self.records@[i as int].fingerprint@, self.records@[i as int].index));
                }
                return Err(TransferError::Duplicate { duplicate_of: self.records[i].index as u128 });
            },
            None => {},
        }
        if self.fault == Fault::BadFee {
            return Err(TransferError::BadFee { expected_fee: MOCK_FEE });
        }
        let age = if now >= f.created_at_time_ns { now - f.created_at_time_ns } else { 0 };
        if self.fault == Fault::TooOld || age > MOCK_DEDUP_WINDOW_NS {
            return Err(TransferError::TooOld);
        }
        let horizon = if now <= u64::MAX - FUTURE_SLACK_NS { now + FUTURE_SLACK_NS } else { u64::MAX };
        if f.created_at_time_ns > horizon {
            return Err(TransferError::CreatedInFuture { ledger_time: now });
        }
        if f.proposal.fee != MOCK_FEE {
            return Err(TransferError::BadFee { expected_fee: MOCK_FEE });
        }
        let slot = self.find_balance(caller);
        if self.records.len() >= MAX_RECORDS || (slot.is_none() && self.balances.len() >= MAX_CALLERS) {
            return Err(TransferError::TemporarilyUnavailable);
        }
        let balance = match slot {
            Some(k) => {
                proof {
                    assert(l.4[k as int] == (self.balances@[k as int].caller@, self.balances@[k as int].balance));
                }
                self.balances[k].balance
            },
            None => OPENING_BALANCE,
        };
        let charge = match f.proposal.amount.checked_add(f.proposal.fee) {
            Some(c) => c,
            None => {
                return Err(TransferError::InsufficientFunds { balance });
            },
        };
        if charge > balance {
            return Err(TransferError::InsufficientFunds { balance });
        }
        let index = self.next;
        self.next = self.next + 1;
        let left = balance - charge;
        match slot {
            Some(k) => {
                let ghost before = self.balances@;
                self.balances.set(k, MockBalance { caller: caller.clone_principal(), balance: left });
                proof {
                    assert(self@.4 =~= l.4.update(k as int, (caller@, left)));
                }
            },
            None => {
                self.balances.push(MockBalance { caller: caller.clone_principal(), balance: left });
                proof {
                    assert(self@.4 =~= l.4.push((caller@, left)));
                }
            },
        }
        self.records.push(MockRecord { caller: caller.clone_principal(), fingerprint: fp, index });
        proof {
            assert(self@.3 =~= l.3.push((caller@, fp@, index)));
            lemma_commit_inv(l, caller@, fp@, *f, now);
        }
        Ok((index, self.fault == Fault::CommitThenCallbackTrap))
    }

    /// `icrc1_transfer`: anonymous callers and arguments that do not convert are
    /// refused with a generic error (codes 1 and 2); the rest go to `transfer`.
    pub fn icrc1_transfer(&mut self, caller: &Principal, arg: &TransferArg, ledger: &Principal, now: u64) -> (r: Result<(u64, bool), TransferError>)
        requires
            old(self).inv(),
        ensures
            final(self).inv(),
            caller@ == anonymous_bytes() ==> final(self)@ == old(self)@ && (match r {
                Err(TransferError::GenericError { error_code, message }) => error_code == 1 && message@ == "anonymous"@,
                _ => false,
            }),
            caller@ != anonymous_bytes() && !icrc_ok(*arg, *ledger) ==> final(self)@ == old(self)@ && (match r {
                Err(TransferError::GenericError { error_code, message }) => error_code == 2
                    && exists|e: Error| #[trigger] icrc_error(*arg, *ledger, e) && message@ == error_text(e),
                _ => false,
            }),
            caller@ != anonymous_bytes() && icrc_ok(*arg, *ledger) ==> exists|f: FrozenTransfer| #[trigger] converted(*arg, *ledger, f)
                && match refusal(old(self)@, caller@, fingerprint(f), f, now) {
                    Some(e) => r == Err::<(u64, bool), TransferError>(e) && final(self)@ == old(self)@,
                    None => r == Ok::<(u64, bool), TransferError>((old(self).next, old(self).fault == Fault::CommitThenCallbackTrap))
                        && final(self)@ == committed(old(self)@, caller@, fingerprint(f), f),
                },
    {
        if caller.same(&Principal::anonymous()) {
            return Err(TransferError::GenericError { error_code: 1, message: String::from_str("anonymous") });
        }
        let f = match from_icrc(arg, ledger) {
            Ok(f) => f,
            Err(e) => {
                return Err(TransferError::GenericError { error_code: 2, message: e.message() });
            },
        };
        let r = self.transfer(caller, &f, now);
        proof {
            assert(converted(*arg, *ledger, f));
        }
        r
    }

    /// `ic_laya_lookup`: the caller's committed transfer for the argument's
    /// frozen transfer, with its index in decimal; `None` if the argument does
    /// not convert or was never committed by this caller.
    pub fn lookup(&self, caller: &Principal, arg: &TransferArg, ledger: &Principal) -> (r: Option<Lookup>)
        requires
            self.inv(),
        ensures
            !icrc_ok(*arg, *ledger) ==> r is None,
            icrc_ok(*arg, *ledger) ==> exists|f: FrozenTransfer| #[trigger] converted(*arg, *ledger, f) && ({
                let k = rec_index(self@.3, caller@, fingerprint(f));
                &&& k < 0 ==> r is None
                &&& k >= 0 ==> (match r {
                    Some(x) => x.frozen_hash@ == fingerprint(f) && x.block_index@ == ascii_chars(decimal(self@.3[k].2 as nat)),
                    None => false,
                })
            }),
    {
        let f = match from_icrc(arg, ledger) {
            Ok(f) => f,
            Err(_) => {
                return None;
            },
        };
        proof {
            assert(converted(*arg, *ledger, f));
        }
        let fp = f.digest();
        match self.find_record(caller, &fp) {
            None => None,
            Some(i) => {
                let index = self.records[i].index;
                proof {
                    assert(self@.3[i as int] == (self.records@[i as int].caller@, self.records@[i as int].fingerprint@, index));
                    lemma_decimal_ascii(index as nat);
                }
                let digits = decimal_bytes(index);
                Some(Lookup { frozen_hash: fp, block_index: ascii_string(digits) })
            },
        }
    }
}

/// `f` is what `from_icrc` gives for the argument.
pub open spec fn converted(a: TransferArg, ledger: Principal, f: FrozenTransfer) -> bool {
    &&& crate::icrc::arg_proposal(a, ledger, f.proposal)
    &&& crate::icrc::opt_bytes(a.memo, f.memo@)
    &&& Some(f.created_at_time_ns) == a.created_at_time
}

/// A committed transfer is found again: right after the commit, the caller's
/// record for the transfer's fingerprint is the new one, at the block index
/// the commit assigned, so `lookup` reports that block and reconciling the
/// frozen transfer against it answers `Success` at that block.
pub proof fn law_committed_transfer_is_found(l: LedgerView, c: Seq<u8>, f: FrozenTransfer, now: u64)
    requires
        ledger_inv(l),
        refusal(l, c, fingerprint(f), f, now) is None,
    ensures
        ({
            let n = committed(l, c, fingerprint(f), f);
            let k = rec_index(n.3, c, fingerprint(f));
            &&& k == l.3.len()
            &&& n.3[k].2 == l.2
        }),
{
}

} // verus!
