use ic_laya_core::batch::{
    batch_layout, decide_layout, guard_public_query_text, BatchQuestion, OptionSpec, MAX_PUBLIC_QUERY_ID_BYTES,
    MAX_PUBLIC_QUERY_OPTION_BYTES, MAX_PUBLIC_QUERY_QUESTION_BYTES, MAX_PUBLIC_QUERY_TEXT_BYTES,
};
use ic_laya_core::types::Error;

#[test]
fn public_query_rejects_oversized_text_before_tokenization() {
    let mut state = String::from("Min holes");
    let mut question = String::new();
    let mut options = vec![OptionSpec { id: "0".into(), text: "min holes".into() }];
    assert!(guard_public_query_text(&state, &question, &options).is_ok());
    question = "q".repeat(MAX_PUBLIC_QUERY_QUESTION_BYTES + 1);
    assert!(matches!(guard_public_query_text(&state, &question, &options), Err(Error::TooLong)));
    question.clear();
    options[0].text = "x".repeat(MAX_PUBLIC_QUERY_OPTION_BYTES + 1);
    assert!(matches!(guard_public_query_text(&state, &question, &options), Err(Error::TooLong)));
    options[0].text = "min holes".into();
    options[0].id = "i".repeat(MAX_PUBLIC_QUERY_ID_BYTES + 1);
    assert!(matches!(guard_public_query_text(&state, &question, &options), Err(Error::TooLong)));
    options[0].id = "0".into();
    state = " ".repeat(MAX_PUBLIC_QUERY_TEXT_BYTES);
    assert!(matches!(guard_public_query_text(&state, &question, &options), Err(Error::TooLong)));
}

fn question(id: &str) -> BatchQuestion {
    BatchQuestion {
        id: id.into(),
        question: "choose".into(),
        options: vec![OptionSpec { id: "yes".into(), text: "yes".into() }],
        abstention: true,
    }
}

#[test]
fn batch_rejects_ambiguous_ids() {
    assert!(batch_layout(&[question("")]).is_err());
    assert!(batch_layout(&[question("one"), question("one")]).is_err());
    let mut q = question("one");
    q.options.push(q.options[0].clone());
    assert!(batch_layout(&[q]).is_err());
    let mut q = question("one");
    q.options[0].id = "__insufficient_evidence__".into();
    assert!(batch_layout(&[q]).is_err());
}

#[test]
fn batch_layout_shares_option_ids_across_questions() {
    let qs = vec![question("one"), question("two")];
    let (labels, ids, counts) = batch_layout(&qs).unwrap();
    assert_eq!(counts, vec![2, 2]);
    assert_eq!(ids.len(), 4);
    assert_eq!(labels.len(), 4);
}

fn opt(id: &str, text: &str) -> OptionSpec {
    OptionSpec { id: id.into(), text: text.into() }
}

#[test]
fn decide_layout_appends_abstention() {
    let options = vec![opt("a", "apple"), opt("b", "banana")];
    let (ids, labels) = decide_layout("state", &options, true, true).unwrap();
    assert_eq!(ids, vec!["a", "b", "__insufficient_evidence__"]);
    assert_eq!(labels, vec!["apple", "banana", "insufficient evidence"]);
    let (ids, labels) = decide_layout("state", &options, false, true).unwrap();
    assert_eq!(ids, vec!["a", "b"]);
    assert_eq!(labels, vec!["apple", "banana"]);
}

#[test]
fn decide_layout_checks_in_order() {
    let options = vec![opt("a", "apple"), opt("a", "")];
    assert_eq!(decide_layout("", &options, false, false), Err(Error::TooLong));
    assert_eq!(decide_layout(&"s".repeat(16385), &options, false, false), Err(Error::TooLong));
    assert_eq!(decide_layout("s", &[], false, false), Err(Error::TooLong));
    let many: Vec<OptionSpec> = (0..25).map(|i| opt(&i.to_string(), "x")).collect();
    assert_eq!(decide_layout("s", &many, false, true), Err(Error::TooLong));
    assert!(decide_layout("s", &many[..24], true, true).is_ok());
    assert_eq!(decide_layout("s", &options, false, false), Err(Error::Numeric));
    assert_eq!(decide_layout("s", &options, false, true), Err(Error::Invalid("option".into())));
    let dup = vec![opt("a", "apple"), opt("a", "again")];
    assert_eq!(decide_layout("s", &dup, false, true), Err(Error::Invalid("duplicate option id".into())));
    let taken = vec![opt("__insufficient_evidence__", "none")];
    assert!(decide_layout("s", &taken, false, true).is_ok());
    assert_eq!(decide_layout("s", &taken, true, true), Err(Error::Invalid("duplicate option id".into())));
}
