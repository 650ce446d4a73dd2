//! ICRC-1 transfer arguments: the frozen transfer a ledger call carries, and the
//! strict conversion back that a ledger applies before it trusts an argument.
use vstd::prelude::*;
use vstd::string::StringExecFns;
use crate::types::{proposal_error, proposal_valid, Account, Digest, Error, Principal, TransferProposal};
use crate::workflow::FrozenTransfer;

verus! {

/// An unbounded ledger number as this library holds it: its value when it fits
/// in `u128`.
#[derive(Debug, Clone, Copy, PartialEq, Eq, Structural)]
pub enum NatValue {
    Fits(u128),
    TooLarge,
}

/// An ICRC-1 account: an owner and an optional 32-byte subaccount.
#[derive(Debug, Clone, PartialEq, Eq)]
pub struct IcrcAccount {
    pub owner: Principal,
    pub subaccount: Option<Vec<u8>>,
}

/// An ICRC-1 transfer argument.
#[derive(Debug, Clone, PartialEq, Eq)]
pub struct TransferArg {
    pub from_subaccount: Option<Vec<u8>>,
    pub to: IcrcAccount,
    pub amount: NatValue,
    pub fee: Option<NatValue>,
    pub memo: Option<Vec<u8>>,
    pub created_at_time: Option<u64>,
}

/// A subaccount field: absent means all zeros; present must be 32 bytes.
pub open spec fn sub_ok(v: Option<Vec<u8>>) -> bool {
    match v {
        None => true,
        Some(x) => x@.len() == 32,
    }
}

pub open spec fn sub_value(v: Option<Vec<u8>>) -> Seq<u8> {
    match v {
        None => Seq::new(32, |i: int| 0u8),
        Some(x) => x@,
    }
}

/// The field is present and holds exactly `b`.
pub open spec fn opt_bytes(v: Option<Vec<u8>>, b: Seq<u8>) -> bool {
    match v {
        Some(m) => m@ == b,
        None => false,
    }
}

pub open spec fn invalid(e: Error, m: Seq<char>) -> bool {
    e matches Error::Invalid(s) && s@ == m
}

/// The proposal an argument names for `ledger`, once its fields convert.
pub open spec fn arg_proposal(a: TransferArg, ledger: Principal, p: TransferProposal) -> bool {
    &&& p.ledger@ == ledger@
    &&& p.from_subaccount@ == sub_value(a.from_subaccount)
    &&& p.to.owner@ == a.to.owner@ && p.to.subaccount@ == sub_value(a.to.subaccount)
    &&& a.amount == NatValue::Fits(p.amount)
    &&& a.fee == Some(NatValue::Fits(p.fee))
}

/// The first check an argument fails, in the order the conversion makes them.
pub open spec fn icrc_error(a: TransferArg, ledger: Principal, e: Error) -> bool {
    if !sub_ok(a.from_subaccount) || !sub_ok(a.to.subaccount) {
        invalid(e, "subaccount length"@)
    } else if a.amount == NatValue::TooLarge {
        invalid(e, "Nat out of u128 range"@)
    } else if a.fee is None {
        invalid(e, "explicit fee required"@)
    } else if a.fee == Some(NatValue::TooLarge) {
        invalid(e, "Nat out of u128 range"@)
    } else {
        let p = TransferProposal {
            ledger,
            from_subaccount: arbitrary(),
            to: Account { owner: a.to.owner, subaccount: arbitrary() },
            amount: a.amount->Fits_0,
            fee: a.fee->Some_0->Fits_0,
        };
        if !proposal_valid(p) {
            proposal_error(p, e)
        } else if a.memo is None {
            invalid(e, "memo required"@)
        } else if a.memo->Some_0@.len() != 32 {
            invalid(e, "memo length"@)
        } else {
            invalid(e, "timestamp required"@)
        }
    }
}

/// Every field converts and the proposal is valid.
pub open spec fn icrc_ok(a: TransferArg, ledger: Principal) -> bool {
    &&& sub_ok(a.from_subaccount) && sub_ok(a.to.subaccount)
    &&& a.amount is Fits
    &&& a.fee matches Some(NatValue::Fits(_))
    &&& proposal_valid(TransferProposal {
        ledger,
        from_subaccount: arbitrary(),
        to: Account { owner: a.to.owner, subaccount: arbitrary() },
        amount: a.amount->Fits_0,
        fee: a.fee->Some_0->Fits_0,
    })
    &&& a.memo matches Some(m) && m@.len() == 32
    &&& a.created_at_time is Some
}

fn digest_of(v: &Vec<u8>) -> (d: Digest)
    requires
        v@.len() == 32,
    ensures
        d@ == v@,
{
    let d: Digest = [v[0], v[1], v[2], v[3], v[4], v[5], v[6], v[7], v[8], v[9], v[10], v[11], v[12], v[13], v[14], v[15], v[16], v[17], v[18], v[19], v[20], v[21], v[22], v[23], v[24], v[25], v[26], v[27], v[28], v[29], v[30], v[31]];
    assert(d@ =~= v@);
    d
}

/// A ledger receipt the mock ledger can look up again.
#[derive(Debug, Clone, PartialEq, Eq)]
pub struct Lookup {
    pub frozen_hash: Digest,
    pub block_index: String,
}

/// An optional ICRC subaccount as 32 bytes: absent is all zeros, anything but
/// exactly 32 bytes is `Invalid`.
pub fn sub(v: &Option<Vec<u8>>) -> (r: Result<Digest, Error>)
    ensures
        v is None ==> (r matches Ok(d) && d@ == Seq::new(32, |i: int| 0u8)),
        v matches Some(x) ==> (r is Ok <==> x@.len() == 32),
        v matches Some(x) ==> (r matches Ok(d) ==> d@ == x@),
        r matches Err(e) ==> invalid(e, "subaccount length"@),
{
    let mut out: [u8; 32] = [0u8; 32];
    match v {
        None => {
            assert(out@ =~= Seq::new(32, |i: int| 0u8));
            Ok(out)
        },
        Some(x) => {
            if x.len() != 32 {
                return Err(Error::Invalid(String::from_str("subaccount length")));
            }
            let mut i: usize = 0;
            while i < 32
                invariant
                    x@.len() == 32,
                    i <= 32,
                    forall|j: int| 0 <= j < i ==> out@[j] == x@[j],
                decreases 32 - i,
            {
                out.set(i, x[i]);
                i = i + 1;
            }
            assert(out@ =~= x@);
            Ok(out)
        },
    }
}

fn nat_u128(n: &NatValue) -> (r: Result<u128, Error>)
    ensures
        r is Ok <==> *n is Fits,
        r matches Ok(v) ==> *n == NatValue::Fits(v),
        r matches Err(e) ==> invalid(e, "Nat out of u128 range"@),
{
    match n {
        NatValue::Fits(v) => Ok(*v),
        NatValue::TooLarge => Err(Error::Invalid(String::from_str("Nat out of u128 range"))),
    }
}

/// The frozen transfer an ICRC-1 argument describes for `ledger`, under the same
/// rules a proposal is validated by: explicit fee, 32-byte memo and subaccounts,
/// and a creation time.
pub fn from_icrc(a: &TransferArg, ledger: &Principal) -> (r: Result<FrozenTransfer, Error>)
    ensures
        r is Ok <==> icrc_ok(*a, *ledger),
        r matches Ok(f) ==> arg_proposal(*a, *ledger, f.proposal) && opt_bytes(a.memo, f.memo@)
            && Some(f.created_at_time_ns) == a.created_at_time,
        r matches Err(e) ==> icrc_error(*a, *ledger, e),
{
    let from_subaccount = self::sub(&a.from_subaccount)?;
    let to_sub = self::sub(&a.to.subaccount)?;
    let amount = nat_u128(&a.amount)?;
    let fee = match &a.fee {
        None => {
            return Err(Error::Invalid(String::from_str("explicit fee required")));
        },
        Some(n) => nat_u128(n)?,
    };
    let proposal = TransferProposal {
        ledger: ledger.clone_principal(),
        from_subaccount,
        to: Account { owner: a.to.owner.clone_principal(), subaccount: to_sub },
        amount,
        fee,
    };
    proof {
        let q = TransferProposal {
            ledger: *ledger,
            from_subaccount: arbitrary(),
            to: Account { owner: a.to.owner, subaccount: arbitrary() },
            amount,
            fee,
        };
        assert(proposal_valid(proposal) == proposal_valid(q));
    }
    match proposal.validate() {
        Ok(()) => {},
        Err(e) => {
            return Err(e);
        },
    }
    let memo = match &a.memo {
        None => {
            return Err(Error::Invalid(String::from_str("memo required")));
        },
        Some(m) => {
            if m.len() != 32 {
                return Err(Error::Invalid(String::from_str("memo length")));
            }
            digest_of(m)
        },
    };
    let created_at_time_ns = match a.created_at_time {
        None => {
            return Err(Error::Invalid(String::from_str("timestamp required")));
        },
        Some(t) => t,
    };
    Ok(FrozenTransfer { proposal, memo, created_at_time_ns })
}

fn digest_vec(d: &Digest) -> (v: Vec<u8>)
    ensures
        v@ == d@,
{
    let mut v: Vec<u8> = Vec::new();
    let mut i: usize = 0;
    while i < 32
        invariant
            i <= 32,
            v@ == d@.take(i as int),
        decreases 32 - i,
    {
        v.push(d[i]);
        assert(d@.take(i + 1) =~= d@.take(i as int).push(d@[i as int]));
        i = i + 1;
    }
    assert(d@.take(32) =~= d@);
    v
}

/// The ICRC-1 argument that carries a frozen transfer: every optional field
/// present, subaccounts and memo as 32 bytes.
pub fn to_icrc(f: &FrozenTransfer) -> (a: TransferArg)
    ensures
        a.from_subaccount matches Some(s) && s@ == f.proposal.from_subaccount@,
        a.to.owner@ == f.proposal.to.owner@,
        a.to.subaccount matches Some(s) && s@ == f.proposal.to.subaccount@,
        a.amount == NatValue::Fits(f.proposal.amount),
        a.fee == Some(NatValue::Fits(f.proposal.fee)),
        a.memo matches Some(m) && m@ == f.memo@,
        a.created_at_time == Some(f.created_at_time_ns),
{
    TransferArg {
        from_subaccount: Some(digest_vec(&f.proposal.from_subaccount)),
        to: IcrcAccount { owner: f.proposal.to.owner.clone_principal(), subaccount: Some(digest_vec(&f.proposal.to.subaccount)) },
        amount: NatValue::Fits(f.proposal.amount),
        fee: Some(NatValue::Fits(f.proposal.fee)),
        memo: Some(digest_vec(&f.memo)),
        created_at_time: Some(f.created_at_time_ns),
    }
}

/// Converting a valid frozen transfer to an ICRC-1 argument and back, for its own
/// ledger, gives the same transfer.
pub proof fn law_icrc_round_trip(f: FrozenTransfer, a: TransferArg)
    requires
        proposal_valid(f.proposal),
        a.from_subaccount matches Some(s) && s@ == f.proposal.from_subaccount@,
        a.to.owner@ == f.proposal.to.owner@,
        a.to.subaccount matches Some(s) && s@ == f.proposal.to.subaccount@,
        a.amount == NatValue::Fits(f.proposal.amount),
        a.fee == Some(NatValue::Fits(f.proposal.fee)),
        a.memo matches Some(m) && m@ == f.memo@,
        a.created_at_time == Some(f.created_at_time_ns),
    ensures
        icrc_ok(a, f.proposal.ledger),
        forall|g: FrozenTransfer| arg_proposal(a, f.proposal.ledger, g.proposal) && opt_bytes(a.memo, g.memo@)
            && Some(g.created_at_time_ns) == a.created_at_time ==> #[trigger] g@ == f@,
{
    let q = TransferProposal {
        ledger: f.proposal.ledger,
        from_subaccount: arbitrary(),
        to: Account { owner: a.to.owner, subaccount: arbitrary() },
        amount: a.amount->Fits_0,
        fee: a.fee->Some_0->Fits_0,
    };
    assert(proposal_valid(q) == proposal_valid(f.proposal));
    assert forall|g: FrozenTransfer| arg_proposal(a, f.proposal.ledger, g.proposal) && opt_bytes(a.memo, g.memo@)
        && Some(g.created_at_time_ns) == a.created_at_time implies #[trigger] g@ == f@ by {
        assert(g.proposal@ == f.proposal@);
        assert(g.memo@ == f.memo@);
    }
}

} // verus!
