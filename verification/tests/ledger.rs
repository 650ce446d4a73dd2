use ic_laya_core::icrc::{from_icrc, to_icrc, IcrcAccount, NatValue, TransferArg};
use ic_laya_core::mock_ledger::{Fault, MockLedger, TransferError, OPENING_BALANCE};
use ic_laya_core::types::{Account, Error, Principal, TransferProposal};
use ic_laya_core::workflow::FrozenTransfer;

fn principal(b: &[u8]) -> Principal {
    Principal::from_slice(b)
}

fn frozen(amount: u128, fee: u128, created: u64) -> FrozenTransfer {
    FrozenTransfer {
        proposal: TransferProposal {
            ledger: principal(&[1, 2]),
            from_subaccount: [3; 32],
            to: Account { owner: principal(&[7]), subaccount: [9; 32] },
            amount,
            fee,
        },
        memo: [5; 32],
        created_at_time_ns: created,
    }
}

fn invalid(m: &str) -> Error {
    Error::Invalid(m.to_string())
}

#[test]
fn icrc_round_trip() {
    let f = frozen(100, 10, 1_000);
    let a = to_icrc(&f);
    assert_eq!(a.from_subaccount, Some(vec![3; 32]));
    assert_eq!(a.to.subaccount, Some(vec![9; 32]));
    assert_eq!(a.amount, NatValue::Fits(100));
    assert_eq!(a.fee, Some(NatValue::Fits(10)));
    assert_eq!(a.memo, Some(vec![5; 32]));
    assert_eq!(a.created_at_time, Some(1_000));
    assert_eq!(from_icrc(&a, &f.proposal.ledger), Ok(f));
}

#[test]
fn icrc_absent_subaccounts_are_zero() {
    let f = frozen(100, 10, 1_000);
    let mut a = to_icrc(&f);
    a.from_subaccount = None;
    a.to.subaccount = None;
    let g = from_icrc(&a, &f.proposal.ledger).unwrap();
    assert_eq!(g.proposal.from_subaccount, [0; 32]);
    assert_eq!(g.proposal.to.subaccount, [0; 32]);
}

#[test]
fn icrc_refusals_in_order() {
    let f = frozen(100, 10, 1_000);
    let ledger = f.proposal.ledger.clone();
    let base = to_icrc(&f);
    let mut a = base.clone();
    a.from_subaccount = Some(vec![1; 31]);
    a.amount = NatValue::TooLarge;
    assert_eq!(from_icrc(&a, &ledger), Err(invalid("subaccount length")));
    let mut a = base.clone();
    a.to.subaccount = Some(vec![1; 33]);
    assert_eq!(from_icrc(&a, &ledger), Err(invalid("subaccount length")));
    let mut a = base.clone();
    a.amount = NatValue::TooLarge;
    a.fee = None;
    assert_eq!(from_icrc(&a, &ledger), Err(invalid("Nat out of u128 range")));
    let mut a = base.clone();
    a.fee = None;
    assert_eq!(from_icrc(&a, &ledger), Err(invalid("explicit fee required")));
    let mut a = base.clone();
    a.fee = Some(NatValue::TooLarge);
    assert_eq!(from_icrc(&a, &ledger), Err(invalid("Nat out of u128 range")));
    let mut a = base.clone();
    a.to = IcrcAccount { owner: Principal::anonymous(), subaccount: None };
    a.memo = None;
    assert_eq!(from_icrc(&a, &ledger), Err(invalid("recipient principal")));
    let mut a = base.clone();
    a.amount = NatValue::Fits(0);
    assert_eq!(from_icrc(&a, &ledger), Err(invalid("transfer proposal")));
    assert_eq!(from_icrc(&base, &Principal::management_canister()), Err(invalid("transfer proposal")));
    let mut a = base.clone();
    a.amount = NatValue::Fits(u128::MAX);
    assert_eq!(from_icrc(&a, &ledger), Err(Error::Budget));
    let mut a = base.clone();
    a.memo = None;
    assert_eq!(from_icrc(&a, &ledger), Err(invalid("memo required")));
    let mut a = base.clone();
    a.memo = Some(vec![0; 8]);
    assert_eq!(from_icrc(&a, &ledger), Err(invalid("memo length")));
    let mut a: TransferArg = base.clone();
    a.created_at_time = None;
    assert_eq!(from_icrc(&a, &ledger), Err(invalid("timestamp required")));
}

fn owner() -> Principal {
    principal(&[42])
}

const NOW: u64 = 100_000_000_000;

#[test]
fn mock_commits_then_deduplicates() {
    let mut l = MockLedger::new(owner());
    let alice = principal(&[10]);
    let f = frozen(100, 10, NOW - 5);
    assert_eq!(l.transfer(&alice, &f, NOW), Ok((0, false)));
    assert_eq!(l.committed_transfers(), 1);
    assert_eq!(l.balances[0].balance, OPENING_BALANCE - 110);
    // Same caller, same frozen transfer: the first index, nothing charged.
    assert_eq!(l.transfer(&alice, &f, NOW + 1), Err(TransferError::Duplicate { duplicate_of: 0 }));
    assert_eq!(l.committed_transfers(), 1);
    assert_eq!(l.balances[0].balance, OPENING_BALANCE - 110);
    // Another caller may send the same transfer.
    let bob = principal(&[11]);
    assert_eq!(l.transfer(&bob, &f, NOW), Ok((1, false)));
    assert_eq!(l.transfer(&alice, &frozen(200, 10, NOW), NOW), Ok((2, false)));
    assert_eq!(l.balances[0].balance, OPENING_BALANCE - 320);
    assert_eq!(l.balances.len(), 2);
}

#[test]
fn mock_refusals() {
    let mut l = MockLedger::new(owner());
    let alice = principal(&[10]);
    assert_eq!(l.transfer(&alice, &frozen(100, 10, NOW - 60_000_000_001), NOW), Err(TransferError::TooOld));
    assert!(l.transfer(&alice, &frozen(100, 10, NOW - 60_000_000_000), NOW).is_ok());
    assert_eq!(
        l.transfer(&alice, &frozen(100, 10, NOW + 1_000_000_001), NOW),
        Err(TransferError::CreatedInFuture { ledger_time: NOW })
    );
    assert_eq!(l.transfer(&alice, &frozen(100, 11, NOW), NOW), Err(TransferError::BadFee { expected_fee: 10 }));
    let left = OPENING_BALANCE - 110;
    assert_eq!(
        l.transfer(&alice, &frozen(left - 9, 10, NOW), NOW),
        Err(TransferError::InsufficientFunds { balance: left })
    );
    assert_eq!(l.transfer(&alice, &frozen(left - 10, 10, NOW), NOW), Ok((1, false)));
    assert_eq!(l.balances[0].balance, 0);
    assert_eq!(l.committed_transfers(), 2);
}

#[test]
fn mock_faults_are_owner_only() {
    let mut l = MockLedger::new(owner());
    let alice = principal(&[10]);
    assert_eq!(l.set_fault(&alice, Fault::BadFee), Err(Error::Unauthorized));
    assert_eq!(l.set_fault(&owner(), Fault::BadFee), Ok(()));
    assert_eq!(l.transfer(&alice, &frozen(100, 10, NOW), NOW), Err(TransferError::BadFee { expected_fee: 10 }));
    l.set_fault(&owner(), Fault::TooOld).unwrap();
    assert_eq!(l.transfer(&alice, &frozen(100, 10, NOW), NOW), Err(TransferError::TooOld));
    l.set_fault(&owner(), Fault::CommitThenCallbackTrap).unwrap();
    assert_eq!(l.transfer(&alice, &frozen(100, 10, NOW), NOW), Ok((0, true)));
    l.set_fault(&owner(), Fault::NoFault).unwrap();
    assert_eq!(l.transfer(&alice, &frozen(101, 10, NOW), NOW), Ok((1, false)));
}

#[test]
fn mock_caller_capacity() {
    let mut l = MockLedger::new(owner());
    for i in 0..64u8 {
        assert!(l.transfer(&principal(&[100, i]), &frozen(1, 10, NOW), NOW).is_ok());
    }
    assert_eq!(l.transfer(&principal(&[200]), &frozen(1, 10, NOW), NOW), Err(TransferError::TemporarilyUnavailable));
    // Known callers may still send.
    assert!(l.transfer(&principal(&[100, 0]), &frozen(2, 10, NOW), NOW).is_ok());
}

#[test]
fn mock_icrc_entry_and_lookup() {
    let mut l = MockLedger::new(owner());
    let me = principal(&[1, 2]);
    let alice = principal(&[10]);
    let f = frozen(100, 10, NOW);
    let arg = to_icrc(&f);
    match l.icrc1_transfer(&Principal::anonymous(), &arg, &me, NOW) {
        Err(TransferError::GenericError { error_code, message }) => {
            assert_eq!(error_code, 1);
            assert_eq!(message, "anonymous");
        },
        other => panic!("unexpected {other:?}"),
    }
    let mut bad = arg.clone();
    bad.memo = None;
    match l.icrc1_transfer(&alice, &bad, &me, NOW) {
        Err(TransferError::GenericError { error_code, message }) => {
            assert_eq!(error_code, 2);
            assert_eq!(message, "invalid input: memo required");
        },
        other => panic!("unexpected {other:?}"),
    }
    assert_eq!(l.lookup(&alice, &arg, &me), None);
    assert_eq!(l.icrc1_transfer(&alice, &arg, &me, NOW), Ok((0, false)));
    let found = l.lookup(&alice, &arg, &me).unwrap();
    assert_eq!(found.frozen_hash, f.digest());
    assert_eq!(found.block_index, "0");
    assert_eq!(l.lookup(&principal(&[11]), &arg, &me), None);
    assert_eq!(l.lookup(&alice, &bad, &me), None);
}
