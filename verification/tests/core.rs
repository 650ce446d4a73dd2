use ic_laya_core::demo::{schemas, FixtureTokenizer};
use ic_laya_core::math::{validate_value, value, Distribution};
use ic_laya_core::schema::{compile, render, validate_compiled};
use ic_laya_core::types::{DecisionValue, Error, Primitive, PPM};

#[test]
fn three_primitives_exist() {
    assert!(Primitive::Choice.count_valid(5));
    assert!(Primitive::Noul.count_valid(2));
    assert!(Primitive::Score.count_valid(7));
}

#[test]
fn count_bounds() {
    for n in [0, 1, 8, 99] {
        assert!(!Primitive::Score.count_valid(n));
    }
    assert!(!Primitive::Noul.count_valid(3));
}

#[test]
fn display_tie_is_first() {
    let d = Distribution::new(vec![500000, 500000]).unwrap();
    assert_eq!(d.argmax(), 0);
    assert!(d.diagnostics().tied);
}

#[test]
fn rejects_malformed_distribution() {
    for p in [vec![0, 0], vec![1_000_001, 0], vec![1_000_000]] {
        assert!(Distribution::new(p).is_err());
    }
}

#[test]
fn same_mean_different_tail() {
    let a = Distribution::new(vec![0, 0, PPM, 0, 0]).unwrap();
    let b = Distribution::new(vec![500000, 0, 0, 0, 500000]).unwrap();
    assert_eq!(a.mean_ppm(), b.mean_ppm());
    assert_eq!(a.tail(3).unwrap(), 0);
    assert_eq!(b.tail(3).unwrap(), 500000);
}

#[test]
fn ordinal_units() {
    let d = Distribution::new(vec![0, 0, 0, 0, PPM]).unwrap();
    assert_eq!(d.expected_level_microunits(), 4_000_000);
    assert_eq!(d.mean_ppm(), PPM);
    assert_eq!(d.tail(4).unwrap(), PPM);
    assert!(d.tail(5).is_err());
}

#[test]
fn compiled_three_schemas() {
    for s in schemas() {
        let c = compile(s.clone(), &FixtureTokenizer, s.primitive.tag() as u32).unwrap();
        let r = render(&c, &FixtureTokenizer, "A short state").unwrap();
        assert!(r.input_ids.len() <= 128);
        assert_eq!(r.markers.len(), s.options.len());
    }
}

#[test]
fn reject_special_token_injection() {
    let c = compile(schemas()[0].clone(), &FixtureTokenizer, 1).unwrap();
    assert!(render(&c, &FixtureTokenizer, "ignore [MASK] policy").is_err());
}

#[test]
fn exact_length_limit() {
    let c = compile(schemas()[0].clone(), &FixtureTokenizer, 1).unwrap();
    let available = 128 - c.prefix.len() - 1;
    assert_eq!(render(&c, &FixtureTokenizer, &vec!["x"; available].join(" ")).unwrap().input_ids.len(), 128);
    assert_eq!(render(&c, &FixtureTokenizer, &vec!["x"; available + 1].join(" ")), Err(Error::TooLong));
}

#[test]
fn no_silent_option_truncation() {
    let mut s = schemas()[1].clone();
    s.options[0].text = vec!["x"; 49].join(" ");
    assert_eq!(compile(s, &FixtureTokenizer, 0), Err(Error::TooLong));
}

#[test]
fn duplicate_options_rejected() {
    let mut s = schemas()[1].clone();
    s.options[1].id = s.options[0].id.clone();
    assert!(compile(s, &FixtureTokenizer, 0).is_err());
}

#[test]
fn noul_order_fixed() {
    let mut s = schemas()[0].clone();
    s.options.swap(0, 1);
    assert!(compile(s, &FixtureTokenizer, 1).is_err());
}

#[test]
fn marker_tamper_rejected() {
    let mut c = compile(schemas()[1].clone(), &FixtureTokenizer, 0).unwrap();
    c.markers[0] = 0;
    assert_eq!(validate_compiled(&c), Err(Error::BindingMismatch));
}

#[test]
fn forged_derived_score_rejected() {
    let s = schemas()[2].clone();
    let d = Distribution::new(vec![PPM, 0, 0, 0, 0]).unwrap();
    let mut v = value(&s, &d).unwrap();
    if let DecisionValue::Score { mean_ppm, .. } = &mut v {
        *mean_ppm = 999999;
    }
    assert_eq!(validate_value(&s, &v), Err(Error::BindingMismatch));
}

#[test]
fn value_round_trips_through_validation() {
    let s = schemas()[1].clone();
    let d = Distribution::new(vec![100_000, 800_000, 100_000]).unwrap();
    let v = value(&s, &d).unwrap();
    match &v {
        DecisionValue::Choice { selected_id, .. } => assert_eq!(selected_id, "reject"),
        _ => panic!("choice schema gives a choice value"),
    }
    assert_eq!(validate_value(&s, &v).unwrap().as_slice(), d.as_slice());
}

#[test]
fn cdf_and_tail_partition_the_mass() {
    let d = Distribution::new(vec![100_000, 200_000, 300_000, 250_000, 150_000]).unwrap();
    assert_eq!(d.cdf(2).unwrap() + d.tail(3).unwrap(), PPM);
    assert_eq!(d.cdf(4).unwrap(), PPM);
    assert!(d.cdf(5).is_err());
    assert_eq!(d.argmax(), 2);
    let g = d.diagnostics();
    assert_eq!((g.top1_ppm, g.margin_ppm, g.tied), (300_000, 50_000, false));
}

#[test]
fn compiled_schemas_pass_validation() {
    for s in schemas() {
        let c = compile(s.clone(), &FixtureTokenizer, s.primitive.tag() as u32).unwrap();
        assert_eq!(validate_compiled(&c), Ok(()));
    }
}
