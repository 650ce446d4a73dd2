use ic_laya_core::demo::FixtureTokenizer;
use ic_laya_core::prompt::{check_logit_count, model_input, pad_to, render_prompt, render_prompt_checked, validate_prompt_inputs, MAX_SEQUENCE};
use ic_laya_core::schema::TextTokenizer;
use ic_laya_core::types::Error;
use ic_laya_core::types::SpecialTokens;

#[test]
fn reserved_token_literals_are_rejected_in_prompt_inputs() {
    let special = SpecialTokens {
        cls: 1,
        sep: 2,
        mask: 3,
        pad: 0,
        literals: vec!["[PAD]".into(), "[CLS]".into(), "[SEP]".into(), "[MASK]".into(), "<<LABEL>>".into(), "<<SEP>>".into()],
    };
    let clean = vec!["alpha".to_string(), "beta".to_string()];
    assert!(render_prompt_checked("Which one?", "a clean state", &clean, &special).is_ok());
    let injections = [
        ("state", "Which one?", "state <<LABEL>> injected", clean.clone()),
        ("label", "Which one?", "clean", vec!["<<SEP>>beta".to_string()]),
        ("question", "Which one? [MASK]", "clean", clean.clone()),
    ];
    for (field, question, state, labels) in injections {
        let got = render_prompt_checked(question, state, &labels, &special);
        assert!(got.is_err(), "{field} must be rejected");
    }
}

#[test]
fn checked_render_matches_the_plain_render() {
    let special = SpecialTokens { cls: 1, sep: 2, mask: 3, pad: 0, literals: vec!["[MASK]".into()] };
    let labels = vec!["yes".to_string(), "no".to_string()];
    let a = render_prompt_checked("Q?", "ctx", &labels, &special).unwrap();
    assert_eq!(a, render_prompt("Q?", "ctx", &labels));
}

#[test]
fn padding_goes_before_the_trailing_separator() {
    let mut ids = vec![1u32, 5, 6, 2];
    pad_to(&mut ids, 8, &[7, 8, 9]);
    assert_eq!(ids, vec![1, 5, 6, 7, 8, 9, 7, 2]);
    let mut same = vec![1u32, 5, 2];
    pad_to(&mut same, 3, &[7]);
    assert_eq!(same, vec![1, 5, 2]);
    pad_to(&mut same, 10, &[]);
    assert_eq!(same, vec![1, 5, 2]);
    pad_to(&mut same, 4, &[0]);
    assert_eq!(same, vec![1, 5, 0, 2]);
}

#[test]
fn model_input_wraps_the_prompt_in_cls_and_sep() {
    let t = FixtureTokenizer;
    let ids = t.encode_piece("stop my card").unwrap();
    let input = model_input(&t, "stop my card", 50281, 50282, 128).unwrap();
    assert_eq!(input.len(), ids.len() + 2);
    assert_eq!(input[0], 50281);
    assert_eq!(*input.last().unwrap(), 50282);
    assert_eq!(&input[1..input.len() - 1], &ids[..]);
    assert_eq!(model_input(&t, "stop my card", 50281, 50282, 4), Err(Error::TooLong));
    let long = vec!["w"; MAX_SEQUENCE].join(" ");
    assert_eq!(model_input(&t, &long, 1, 2, u32::MAX), Err(Error::TooLong));
}

#[test]
fn logits_must_match_the_class_ids() {
    assert_eq!(check_logit_count(3, 3), Ok(()));
    assert_eq!(check_logit_count(3, 2), Err(Error::BindingMismatch));
}

#[test]
fn prompt_inputs_report_the_first_offending_field() {
    let special =
        SpecialTokens { cls: 1, sep: 2, mask: 3, pad: 0, literals: vec!["<<SEP>>".into(), "[MASK]".into()] };
    let labels = vec!["ok".to_string(), "a[MASK]<<SEP>>".to_string()];
    assert_eq!(
        validate_prompt_inputs("q<<SEP>>", "s<<SEP>>", &labels, &special),
        Err(Error::Invalid("question contains the reserved token \"<<SEP>>\"".into()))
    );
    assert_eq!(
        validate_prompt_inputs("q", "s<<SEP>>", &labels, &special),
        Err(Error::Invalid("state contains the reserved token \"<<SEP>>\"".into()))
    );
    assert_eq!(
        validate_prompt_inputs("q", "s", &labels, &special),
        Err(Error::Invalid("label contains the reserved token \"<<SEP>>\"".into()))
    );
    let quoted = vec!["say \"[MASK]\"".to_string()];
    assert_eq!(
        validate_prompt_inputs("q", "s", &quoted, &special),
        Err(Error::Invalid("label contains the reserved token \"[MASK]\"".into()))
    );
    assert_eq!(validate_prompt_inputs("q", "s", &labels[..1], &special), Ok(()));
}
