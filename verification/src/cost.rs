//! The pre-flight instruction budget guard of the inference canister: a linear
//! cost model with a safety margin, and the token ceiling it advertises.
use vstd::prelude::*;
use vstd::string::StringExecFns;
use crate::billing::{QUERY_BUDGET, UPDATE_BUDGET};
use crate::types::Error;

verus! {

/// Policy bound on one input.
pub const MAX_INPUT_TOKENS: u32 = 128;
/// Per-row INT8 cost estimate: fixed part of one forward pass.
pub const COST_FIXED: u64 = 170_000_000;
/// Per-row INT8 cost estimate: marginal cost of one token.
pub const COST_PER_TOKEN: u64 = 90_000_000;
/// Margin for reply encoding and tokenization, in thousandths.
pub const BUDGET_MARGIN_PERMILLE: u64 = 1005;

/// The owner's cost model and policy bounds.
#[derive(Clone, Copy, Debug, PartialEq, Eq)]
pub struct CostModel {
    pub cost_fixed: u64,
    pub cost_per_token: u64,
    pub budget: u64,
    pub max_input_tokens: u32,
}

/// Saturation at `u64::MAX`.
pub open spec fn sat(x: int) -> int {
    if x > u64::MAX {
        u64::MAX as int
    } else {
        x
    }
}

/// `(fixed + per_token·tokens)·1005/1000`, each step saturating at `u64::MAX`.
pub open spec fn spec_projected(fixed: u64, per_token: u64, tokens: int) -> int {
    sat(sat(fixed + sat(per_token * tokens)) * BUDGET_MARGIN_PERMILLE) / 1000
}

/// The guard admits `tokens` under `budget`: the projection fits.
pub open spec fn admits(s: CostModel, tokens: int, budget: u64) -> bool {
    spec_projected(s.cost_fixed, s.cost_per_token, tokens) <= budget
}

/// The largest count in `0..=t` the guard admits (0 when none is).
pub open spec fn largest_admitted(s: CostModel, budget: u64, t: nat) -> nat
    decreases t,
{
    if t == 0 || admits(s, t as int, budget) {
        t
    } else {
        largest_admitted(s, budget, (t - 1) as nat)
    }
}

/// The advertised ceiling: the largest token count the guard admits under
/// `budget`, capped by the policy bound; 0 without a slope or when not even
/// the fixed cost fits.
pub open spec fn spec_max_tokens(s: CostModel, budget: u64) -> int {
    if s.cost_per_token == 0 || !admits(s, 0, budget) {
        0
    } else {
        largest_admitted(s, budget, s.max_input_tokens as nat) as int
    }
}

/// More tokens never cost less.
pub proof fn lemma_projected_monotone(fixed: u64, per_token: u64, a: int, b: int)
    requires
        0 <= a <= b,
    ensures
        spec_projected(fixed, per_token, a) <= spec_projected(fixed, per_token, b),
{
    assert(per_token * a <= per_token * b) by (nonlinear_arith)
        requires
            0 <= a <= b,
            per_token >= 0,
    ;
    let x = sat(fixed + sat(per_token * a));
    let y = sat(fixed + sat(per_token * b));
    assert(x <= y);
    assert(sat(x * BUDGET_MARGIN_PERMILLE) <= sat(y * BUDGET_MARGIN_PERMILLE)) by {
        assert(x * 1005 <= y * 1005) by (nonlinear_arith)
            requires
                0 <= x <= y,
        ;
    }
    assert(sat(x * 1005) / 1000 <= sat(y * 1005) / 1000) by (nonlinear_arith)
        requires
            0 <= sat(x * 1005) <= sat(y * 1005),
    ;
}

/// An admitted `t` that is at `n` or whose successor is refused is the
/// largest admitted count up to `n`.
proof fn lemma_largest_is(s: CostModel, budget: u64, t: nat, n: nat)
    requires
        t <= n,
        admits(s, t as int, budget),
        t == n || !admits(s, t + 1int, budget),
    ensures
        largest_admitted(s, budget, n) == t,
    decreases n,
{
    if n > t {
        lemma_projected_monotone(s.cost_fixed, s.cost_per_token, t + 1int, n as int);
        assert(!admits(s, n as int, budget));
        if n - 1 > t {
            lemma_largest_is(s, budget, t, (n - 1) as nat);
        } else {
            assert(largest_admitted(s, budget, t) == t);
        }
    }
}

fn sat_mul(a: u64, b: u64) -> (r: u64)
    ensures
        r == sat(a * b),
{
    match a.checked_mul(b) {
        Some(v) => v,
        None => u64::MAX,
    }
}

fn cost(fixed: u64, per_token: u64, tokens: usize) -> (r: u64)
    ensures
        r == spec_projected(fixed, per_token, tokens as int),
{
    fixed.saturating_add(sat_mul(per_token, tokens as u64)).checked_mul(BUDGET_MARGIN_PERMILLE)
        .unwrap_or(u64::MAX) / 1000
}

pub fn default_cost_fixed() -> (r: u64)
    ensures
        r == COST_FIXED,
{
    COST_FIXED
}

pub fn default_cost_per_token() -> (r: u64)
    ensures
        r == COST_PER_TOKEN,
{
    COST_PER_TOKEN
}

pub fn default_budget() -> (r: u64)
    ensures
        r == crate::billing::UPDATE_BUDGET,
{
    crate::billing::UPDATE_BUDGET
}

/// Projected instructions for one forward pass of `tokens` tokens, with margin.
pub fn projected(s: &CostModel, tokens: usize) -> (r: u64)
    ensures
        r == spec_projected(s.cost_fixed, s.cost_per_token, tokens as int),
{
    cost(s.cost_fixed, s.cost_per_token, tokens)
}

/// Refuses (`Capacity`) before a call whose projection exceeds `budget`.
pub fn guard_cost(fixed: u64, per_token: u64, tokens: usize, budget: u64) -> (r: Result<(), Error>)
    ensures
        r is Ok <==> spec_projected(fixed, per_token, tokens as int) <= budget,
        r matches Err(e) ==> e == Error::Capacity,
{
    if cost(fixed, per_token, tokens) > budget {
        Err(Error::Capacity)
    } else {
        Ok(())
    }
}

pub fn guard_within(s: &CostModel, tokens: usize, budget: u64) -> (r: Result<(), Error>)
    ensures
        r is Ok <==> spec_projected(s.cost_fixed, s.cost_per_token, tokens as int) <= budget,
        r matches Err(e) ==> e == Error::Capacity,
{
    guard_cost(s.cost_fixed, s.cost_per_token, tokens, budget)
}

/// The update-path guard, against the owner's own budget.
pub fn guard_budget(s: &CostModel, tokens: usize) -> (r: Result<(), Error>)
    ensures
        r is Ok <==> spec_projected(s.cost_fixed, s.cost_per_token, tokens as int) <= s.budget,
        r matches Err(e) ==> e == Error::Capacity,
{
    guard_within(s, tokens, s.budget)
}

/// Largest token count the guard admits under `budget`, capped by the policy
/// bound: the guard admits the result, and admits one more only past the cap.
/// Without a slope, or when the fixed cost alone does not fit, it is 0.
pub fn max_tokens_within(s: &CostModel, budget: u64) -> (r: u32)
    ensures
        r == spec_max_tokens(*s, budget),
        r <= s.max_input_tokens,
        s.cost_per_token > 0 && admits(*s, 0, budget) ==> admits(*s, r as int, budget) && (r == s.max_input_tokens
            || !admits(*s, r + 1, budget)),
{
    if s.cost_per_token == 0 || cost(s.cost_fixed, s.cost_per_token, 0) > budget {
        return 0;
    }
    let cap = s.max_input_tokens;
    let net = sat_mul(budget, 1000) / BUDGET_MARGIN_PERMILLE;
    let tokens = net.saturating_sub(s.cost_fixed) / s.cost_per_token;
    let t32: u32 = if tokens > u32::MAX as u64 { u32::MAX } else { tokens as u32 };
    let mut t: u32 = if t32 > cap { cap } else { t32 };
    while t > 0 && cost(s.cost_fixed, s.cost_per_token, t as usize) > budget
        invariant
            t <= cap,
            cap == s.max_input_tokens,
        decreases t,
    {
        t = t - 1;
    }
    while t < cap && cost(s.cost_fixed, s.cost_per_token, (t + 1) as usize) <= budget
        invariant
            t <= cap,
            cap == s.max_input_tokens,
            admits(*s, t as int, budget),
        decreases cap - t,
    {
        t = t + 1;
    }
    proof {
        lemma_largest_is(*s, budget, t as nat, cap as nat);
    }
    t
}

/// What the query path advertises: its budget and margin, the longest input it
/// admits, and the installed cost model.
#[derive(Clone, Copy, Debug, PartialEq, Eq)]
pub struct QueryLimits {
    pub budget: u64,
    pub margin_permille: u64,
    pub max_tokens: u32,
    pub max_input_tokens: u32,
    pub cost_fixed: u64,
    pub cost_per_token: u64,
}

/// The limits of the query path under the installed cost model.
pub fn query_limits(s: &CostModel) -> (q: QueryLimits)
    ensures
        q.budget == QUERY_BUDGET && q.margin_permille == BUDGET_MARGIN_PERMILLE,
        q.max_tokens == spec_max_tokens(*s, QUERY_BUDGET),
        q.max_input_tokens == s.max_input_tokens,
        q.cost_fixed == s.cost_fixed && q.cost_per_token == s.cost_per_token,
{
    QueryLimits {
        budget: QUERY_BUDGET,
        margin_permille: BUDGET_MARGIN_PERMILLE,
        max_tokens: max_tokens_within(s, QUERY_BUDGET),
        max_input_tokens: s.max_input_tokens,
        cost_fixed: s.cost_fixed,
        cost_per_token: s.cost_per_token,
    }
}

impl CostModel {
    /// Installs a cost fit and update budget: all three must be positive and the
    /// budget at most the update limit, else `Invalid("cost model")` and nothing changes.
    pub fn set_cost_model(&mut self, cost_fixed: u64, cost_per_token: u64, budget: u64) -> (r: Result<(), Error>)
        ensures
            r is Ok <==> cost_fixed != 0 && cost_per_token != 0 && budget != 0 && budget <= UPDATE_BUDGET,
            r is Ok ==> *final(self) == (CostModel { cost_fixed, cost_per_token, budget, max_input_tokens: old(self).max_input_tokens }),
            r is Err ==> *final(self) == *old(self),
            r matches Err(e) ==> e matches Error::Invalid(m) && m@ == "cost model"@,
    {
        if cost_fixed == 0 || cost_per_token == 0 || budget == 0 || budget > UPDATE_BUDGET {
            return Err(Error::Invalid(String::from_str("cost model")));
        }
        self.cost_fixed = cost_fixed;
        self.cost_per_token = cost_per_token;
        self.budget = budget;
        Ok(())
    }
}

/// The advertised length is never refused by the guard, and it is the longest
/// the guard admits up to the policy bound: whenever there is a slope and the
/// fixed cost alone fits the budget.
pub proof fn law_advertised_length_is_admitted(s: CostModel, budget: u64)
    requires
        s.cost_per_token > 0,
        admits(s, 0, budget),
    ensures
        admits(s, spec_max_tokens(s, budget), budget),
        spec_max_tokens(s, budget) <= s.max_input_tokens,
        forall|t: int| spec_max_tokens(s, budget) < t <= s.max_input_tokens ==> !admits(s, t, budget),
{
    lemma_largest_facts(s, budget, s.max_input_tokens as nat);
}

proof fn lemma_largest_facts(s: CostModel, budget: u64, n: nat)
    requires
        admits(s, 0, budget),
    ensures
        admits(s, largest_admitted(s, budget, n) as int, budget),
        largest_admitted(s, budget, n) <= n,
        forall|t: int| largest_admitted(s, budget, n) < t <= n ==> !admits(s, t, budget),
    decreases n,
{
    if n > 0 && !admits(s, n as int, budget) {
        lemma_largest_facts(s, budget, (n - 1) as nat);
    }
}

} // verus!
