use ic_laya_core::billing::{admission, check_attachment, quote, ExecutionPricing, QUERY_BUDGET, UPDATE_BUDGET};
use ic_laya_core::types::Error;

fn tariff() -> ExecutionPricing {
    ExecutionPricing { base_cycles: 5_000_000, instruction_cycles_numerator: 1, instruction_cycles_denominator: 1 }
}

#[test]
fn charges_three_times_execution_not_three_times_the_deposit() {
    let p = tariff();
    assert_eq!(p.fee(1_000_000_000).unwrap(), 3_015_000_000);
    let deposit = p.fee(UPDATE_BUDGET).unwrap();
    assert_eq!(deposit, 120_015_000_000);
    assert!(p.require_attachment(deposit).is_ok());
    assert_eq!(p.require_attachment(deposit - 1), Err(Error::Budget));
    assert_eq!(p.require_attachment(0), Err(Error::Budget));
    assert_eq!(deposit - p.fee(1_000_000_000).unwrap(), 117_000_000_000);
}

#[test]
fn fractional_tariff_and_large_instruction_counts_do_not_undercharge() {
    let p = ExecutionPricing { base_cycles: 13_076_923, instruction_cycles_numerator: 34, instruction_cycles_denominator: 13 };
    assert_eq!(p.fee(13).unwrap(), 3 * (13_076_923 + 34));
    assert_eq!(p.fee(1).unwrap(), 3 * (13_076_923 + 3));
    assert!(p.fee(u64::MAX).is_ok());
    let huge = ExecutionPricing { base_cycles: u64::MAX, instruction_cycles_numerator: u64::MAX, instruction_cycles_denominator: 1 };
    assert_eq!(huge.fee(u64::MAX), Err(Error::Budget));
}

#[test]
fn zero_tariffs_are_rejected() {
    assert!(ExecutionPricing { base_cycles: 0, ..tariff() }.validate().is_err());
    assert!(ExecutionPricing { instruction_cycles_numerator: 0, ..tariff() }.validate().is_err());
    assert!(ExecutionPricing { instruction_cycles_denominator: 0, ..tariff() }.validate().is_err());
}

#[test]
fn the_query_budget_is_the_protocol_limit() {
    assert_eq!(QUERY_BUDGET, 5_000_000_000);
    assert_eq!(UPDATE_BUDGET, 40_000_000_000);
}

#[test]
fn quote_cannot_raise_the_operator_spending_limit() {
    assert!(check_attachment(120_015_000_000, 120_015_000_000).is_ok());
    assert!(check_attachment(120_015_000_001, 120_015_000_000).is_err());
    assert!(check_attachment(0, u128::MAX).is_err());
}

#[test]
fn quote_requires_a_configured_tariff() {
    assert!(matches!(quote(None), Err(Error::Denied(_))));
    let q = quote(Some(tariff())).unwrap();
    assert_eq!(q.required_attachment, 120_015_000_000);
    assert_eq!(q.multiplier, 3);
    assert_eq!(q.instruction_limit, UPDATE_BUDGET);
}

#[test]
fn refusal_text_names_both_amounts() {
    let e = check_attachment(5, 4).unwrap_err();
    assert_eq!(e, "required attachment 5 exceeds --max-cycles 4 or is zero");
}

#[test]
fn refusal_names_both_amounts() {
    assert_eq!(
        check_attachment(120_015_000_001, 120_015_000_000),
        Err("required attachment 120015000001 exceeds --max-cycles 120015000000 or is zero".to_string())
    );
    assert_eq!(
        check_attachment(0, u128::MAX),
        Err(format!("required attachment 0 exceeds --max-cycles {} or is zero", u128::MAX))
    );
}

#[test]
fn paid_updates_start_only_when_funded() {
    assert!(matches!(admission(None, u128::MAX), Err(Error::Denied(_))));
    let deposit = tariff().fee(UPDATE_BUDGET).unwrap();
    assert_eq!(admission(Some(tariff()), deposit), Ok(tariff()));
    assert_eq!(admission(Some(tariff()), deposit - 1), Err(Error::Budget));
    let broken = ExecutionPricing { base_cycles: 0, instruction_cycles_numerator: 1, instruction_cycles_denominator: 1 };
    assert!(matches!(admission(Some(broken), u128::MAX), Err(Error::Invalid(_))));
}

#[test]
fn a_bad_tariff_is_refused_with_one_text() {
    let broken = ExecutionPricing { base_cycles: 1, instruction_cycles_numerator: 0, instruction_cycles_denominator: 1 };
    let refusal = Error::Invalid("execution pricing must be positive".into());
    assert_eq!(broken.fee(10), Err(refusal.clone()));
    assert_eq!(quote(Some(broken)).err(), Some(refusal));
}
