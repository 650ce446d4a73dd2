//! Caller-funded update execution: the fee is three times the configured
//! execution tariff applied to the measured instructions.
use vstd::prelude::*;
use vstd::string::StringExecFns;
use crate::text::{decimal, decimal_bytes_wide, lemma_decimal_ascii};
use crate::types::{ascii_chars, ascii_string, Error};

verus! {

pub const MULTIPLIER: u64 = 3;
/// ICP's per-update instruction limit.
pub const UPDATE_BUDGET: u64 = 40_000_000_000;
/// ICP's per-query instruction limit.
pub const QUERY_BUDGET: u64 = 5_000_000_000;

/// The subnet execution tariff (not the model's estimated instruction count).
#[derive(Clone, Copy, Debug, PartialEq, Eq)]
pub struct ExecutionPricing {
    pub base_cycles: u64,
    pub instruction_cycles_numerator: u64,
    pub instruction_cycles_denominator: u64,
}

/// Every part of the tariff is positive.
pub open spec fn pricing_valid(p: ExecutionPricing) -> bool {
    p.base_cycles != 0 && p.instruction_cycles_numerator != 0
        && p.instruction_cycles_denominator != 0
}

/// `⌈a / d⌉` for positive `d`.
pub open spec fn ceil_div(a: int, d: int) -> int {
    (a + d - 1) / d
}

/// Three times (base + the instruction cost rounded up to a whole cycle).
pub open spec fn spec_fee(p: ExecutionPricing, instructions: u64) -> int {
    (ceil_div(
        instructions * p.instruction_cycles_numerator,
        p.instruction_cycles_denominator as int,
    ) + p.base_cycles) * MULTIPLIER
}

/// The refusal of a tariff with a part that is not positive.
pub open spec fn pricing_refused(e: Error) -> bool {
    e matches Error::Invalid(m) && m@ == "execution pricing must be positive"@
}

impl ExecutionPricing {
    /// The tariff itself when every part is positive; `Invalid` otherwise.
    pub fn validate(self) -> (r: Result<ExecutionPricing, Error>)
        ensures
            r is Ok <==> pricing_valid(self),
            r matches Ok(p) ==> p == self,
            r matches Err(e) ==> pricing_refused(e),
    {
        if self.base_cycles == 0 || self.instruction_cycles_numerator == 0
            || self.instruction_cycles_denominator == 0 {
            return Err(Error::Invalid(String::from_str("execution pricing must be positive")));
        }
        Ok(self)
    }

    /// The fee for a measured instruction count: `Invalid` for a bad tariff,
    /// `Budget` when it does not fit in 128 bits.
    pub fn fee(self, instructions: u64) -> (r: Result<u128, Error>)
        ensures
            r is Ok <==> pricing_valid(self) && spec_fee(self, instructions) <= u128::MAX,
            r matches Ok(v) ==> v == spec_fee(self, instructions),
            r matches Err(e) ==> if pricing_valid(self) {
                e == Error::Budget
            } else {
                pricing_refused(e)
            },
    {
        self.validate()?;
        let a = instructions as u128;
        let n = self.instruction_cycles_numerator as u128;
        let d = self.instruction_cycles_denominator as u128;
        proof {
            vstd::arithmetic::mul::lemma_mul_upper_bound(
                a as int,
                0xffff_ffff_ffff_ffff,
                n as int,
                0xffff_ffff_ffff_ffff,
            );
        }
        let product = a * n;
        let variable = (product + (d - 1)) / d;
        match variable.checked_add(self.base_cycles as u128) {
            Some(cost) => match cost.checked_mul(MULTIPLIER as u128) {
                Some(v) => Ok(v),
                None => Err(Error::Budget),
            },
            None => Err(Error::Budget),
        }
    }

    /// Admits a call only when the attached cycles cover the fee of a full
    /// update budget.
    pub fn require_attachment(self, available: u128) -> (r: Result<(), Error>)
        ensures
            r is Ok <==> pricing_valid(self) && spec_fee(self, UPDATE_BUDGET) <= u128::MAX
                && available >= spec_fee(self, UPDATE_BUDGET),
            r matches Err(e) ==> if pricing_valid(self) {
                e == Error::Budget
            } else {
                pricing_refused(e)
            },
    {
        let needed = self.fee(UPDATE_BUDGET)?;
        if available < needed {
            Err(Error::Budget)
        } else {
            Ok(())
        }
    }
}

/// The published quote.
#[derive(Clone, Copy, Debug, PartialEq, Eq)]
pub struct CyclesPricing {
    pub execution: ExecutionPricing,
    pub multiplier: u64,
    pub instruction_limit: u64,
    /// Attach this upper bound; only the measured fee is accepted.
    pub required_attachment: u128,
}

/// The quote for the configured tariff; `Denied` while none is configured.
pub fn quote(configured: Option<ExecutionPricing>) -> (r: Result<CyclesPricing, Error>)
    ensures
        r is Ok <==> (configured matches Some(p) && pricing_valid(p) && spec_fee(p, UPDATE_BUDGET)
            <= u128::MAX),
        r matches Ok(q) ==> configured == Some(q.execution) && q.multiplier == MULTIPLIER
            && q.instruction_limit == UPDATE_BUDGET && q.required_attachment == spec_fee(
            q.execution,
            UPDATE_BUDGET,
        ),
        r matches Err(e) ==> match configured {
            None => e is Denied,
            Some(p) => if pricing_valid(p) {
                e == Error::Budget
            } else {
                pricing_refused(e)
            },
        },
{
    let execution = match configured {
        Some(p) => p,
        None => {
            return Err(Error::Denied(String::from_str("execution pricing not configured")));
        },
    };
    let required_attachment = execution.fee(UPDATE_BUDGET)?;
    Ok(
        CyclesPricing {
            execution,
            multiplier: MULTIPLIER,
            instruction_limit: UPDATE_BUDGET,
            required_attachment,
        },
    )
}


/// Admission of a paid update: a tariff is configured and the attached cycles
/// cover the fee of a full update budget; no work starts otherwise.
pub fn admission(configured: Option<ExecutionPricing>, available: u128) -> (r: Result<ExecutionPricing, Error>)
    ensures
        r is Ok <==> (configured matches Some(p) && pricing_valid(p) && spec_fee(p, UPDATE_BUDGET) <= u128::MAX
            && available >= spec_fee(p, UPDATE_BUDGET)),
        r matches Ok(p) ==> configured == Some(p),
        r matches Err(e) ==> match configured {
            None => e is Denied,
            Some(p) => if pricing_valid(p) {
                e == Error::Budget
            } else {
                pricing_refused(e)
            },
        },
{
    let q = quote(configured)?;
    q.execution.require_attachment(available)?;
    Ok(q.execution)
}

/// The refusal text for a quoted attachment outside the operator's limit:
/// "required attachment {required} exceeds --max-cycles {maximum} or is zero",
/// both numbers in decimal.
pub open spec fn attachment_refusal(required: u128, maximum: u128) -> Seq<char> {
    "required attachment "@ + ascii_chars(decimal(required as nat)) + " exceeds --max-cycles "@
        + ascii_chars(decimal(maximum as nat)) + " or is zero"@
}

fn decimal_string(n: u128) -> (s: String)
    ensures
        s@ == ascii_chars(decimal(n as nat)),
{
    let d = decimal_bytes_wide(n);
    proof {
        lemma_decimal_ascii(n as nat);
    }
    ascii_string(d)
}

fn attachment_refusal_text(required: u128, maximum: u128) -> (s: String)
    ensures
        s@ == attachment_refusal(required, maximum),
{
    let r = decimal_string(required);
    let m = decimal_string(maximum);
    String::from_str("required attachment ").concat(r.as_str()).concat(" exceeds --max-cycles ").concat(m.as_str()).concat(
        " or is zero",
    )
}

/// A quote can never raise the operator's spending limit: a zero quote or one
/// above `maximum` is refused.
pub fn check_attachment(required: u128, maximum: u128) -> (r: Result<(), String>)
    ensures
        r is Ok <==> 0 < required <= maximum,
        r matches Err(m) ==> m@ == attachment_refusal(required, maximum),
{
    if required == 0 || required > maximum {
        return Err(attachment_refusal_text(required, maximum));
    }
    Ok(())
}

} // verus!
