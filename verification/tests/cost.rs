use ic_laya_core::billing::{QUERY_BUDGET, UPDATE_BUDGET};
use ic_laya_core::cost::{
    guard_budget, guard_within, max_tokens_within, projected, query_limits, CostModel, BUDGET_MARGIN_PERMILLE,
    COST_FIXED, COST_PER_TOKEN, MAX_INPUT_TOKENS,
};
use ic_laya_core::types::Error;

fn state(cost_fixed: u64, cost_per_token: u64) -> CostModel {
    CostModel { cost_fixed, cost_per_token, budget: UPDATE_BUDGET, max_input_tokens: MAX_INPUT_TOKENS }
}

#[test]
fn the_default_model_advertises_fifty_two_query_tokens() {
    let s = state(COST_FIXED, COST_PER_TOKEN);
    assert_eq!(max_tokens_within(&s, QUERY_BUDGET), 53);
    assert!(guard_within(&s, 53, QUERY_BUDGET).is_ok());
    assert!(matches!(guard_within(&s, 54, QUERY_BUDGET), Err(Error::Capacity)));
    assert_eq!(max_tokens_within(&s, UPDATE_BUDGET), 128);
}

#[test]
fn stored_pre_optimization_fit_keeps_its_existing_query_policy() {
    let s = state(48_746_986, 121_028_580);
    let restored = s;
    assert_eq!(max_tokens_within(&restored, QUERY_BUDGET), 40);
    assert_eq!(restored.cost_fixed, 48_746_986);
    assert_eq!(restored.cost_per_token, 121_028_580);
}

#[test]
fn the_measured_slope_raises_the_query_ceiling() {
    let s = state(254_400_000, 306_804_548);
    assert_eq!(max_tokens_within(&s, QUERY_BUDGET), 15);
}

#[test]
fn the_measured_fit_relaxes_the_update_ceiling_to_the_policy_bound() {
    let s = state(159_525_640, 306_804_548);
    assert_eq!(max_tokens_within(&s, UPDATE_BUDGET), MAX_INPUT_TOKENS);
    assert!(guard_within(&s, MAX_INPUT_TOKENS as usize, UPDATE_BUDGET).is_ok());
}

#[test]
fn the_update_guard_still_pins_the_measured_ceiling() {
    let s = state(254_400_000, 327_600_000);
    assert!(guard_budget(&s, 120).is_ok());
    assert!(matches!(guard_budget(&s, 126), Err(Error::Capacity)));
    let fitted = state(159_525_640, 306_804_548);
    assert!(matches!(guard_budget(&s, 121), Err(Error::Capacity)));
    assert!(guard_budget(&fitted, 121).is_ok());
    assert!(guard_budget(&fitted, 128).is_ok());
}

#[test]
fn the_advertised_length_is_never_refused_by_the_guard() {
    for per_token in [COST_PER_TOKEN, 306_804_548, 121_000_000] {
        for budget in [QUERY_BUDGET, UPDATE_BUDGET] {
            let s = state(COST_FIXED, per_token);
            let t = max_tokens_within(&s, budget) as usize;
            assert!(guard_within(&s, t, budget).is_ok(), "T={t} per_token={per_token} budget={budget}");
        }
    }
}

#[test]
fn projection_adds_half_a_percent_margin() {
    let s = state(1_000, 1_000);
    assert_eq!(projected(&s, 0), 1_005);
    assert_eq!(projected(&s, 1), 2_010);
    let huge = state(u64::MAX, u64::MAX);
    assert_eq!(projected(&huge, 10), u64::MAX / 1000);
}

#[test]
fn query_limits_report_the_query_path() {
    let s = state(COST_FIXED, COST_PER_TOKEN);
    let q = query_limits(&s);
    assert_eq!(q.budget, QUERY_BUDGET);
    assert_eq!(q.margin_permille, BUDGET_MARGIN_PERMILLE);
    assert_eq!(q.max_tokens, 53);
    assert_eq!(q.max_input_tokens, MAX_INPUT_TOKENS);
    assert_eq!((q.cost_fixed, q.cost_per_token), (COST_FIXED, COST_PER_TOKEN));
}

#[test]
fn cost_model_updates_are_checked() {
    let mut s = state(COST_FIXED, COST_PER_TOKEN);
    let before = s;
    for (f, p, b) in [(0, 1, 1), (1, 0, 1), (1, 1, 0), (1, 1, UPDATE_BUDGET + 1)] {
        assert_eq!(s.set_cost_model(f, p, b), Err(Error::Invalid("cost model".into())));
        assert_eq!(s, before);
    }
    assert_eq!(s.set_cost_model(48_746_986, 121_028_580, UPDATE_BUDGET), Ok(()));
    assert_eq!(s, CostModel { cost_fixed: 48_746_986, cost_per_token: 121_028_580, budget: UPDATE_BUDGET, max_input_tokens: MAX_INPUT_TOKENS });
    assert_eq!(query_limits(&s).max_tokens, 40);
}

#[test]
fn the_advertised_length_is_the_longest_the_guard_admits() {
    let s = CostModel { cost_fixed: 1, cost_per_token: 1, budget: 1000, max_input_tokens: 1024 };
    assert_eq!(max_tokens_within(&s, 1000), 995);
    assert!(guard_within(&s, 995, 1000).is_ok());
    assert!(matches!(guard_within(&s, 996, 1000), Err(Error::Capacity)));
    let tight = CostModel { cost_fixed: 2_000, cost_per_token: 1, budget: 1000, max_input_tokens: 1024 };
    assert_eq!(max_tokens_within(&tight, 1000), 0);
}
