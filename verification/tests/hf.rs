use ic_laya_core::hf::HfTokenizer;
use ic_laya_core::schema::{compile, render, TextTokenizer};
use ic_laya_core::types::{hash, Error, OptionDef, Primitive, Schema, SpecialTokens};

/// A word-level tokenizer: `[PAD]`, `[CLS]`, `[SEP]`, `[MASK]`, `[UNK]` as ids 0 to 4
/// (all added special tokens), then `t5` to `t21` as ids 5 to 21.
const TINY: &str = r#"{"version":"1.0","truncation":null,"padding":null,"added_tokens":[{"id":0,"content":"[PAD]","single_word":false,"lstrip":false,"rstrip":false,"normalized":false,"special":true},{"id":1,"content":"[CLS]","single_word":false,"lstrip":false,"rstrip":false,"normalized":false,"special":true},{"id":2,"content":"[SEP]","single_word":false,"lstrip":false,"rstrip":false,"normalized":false,"special":true},{"id":3,"content":"[MASK]","single_word":false,"lstrip":false,"rstrip":false,"normalized":false,"special":true},{"id":4,"content":"[UNK]","single_word":false,"lstrip":false,"rstrip":false,"normalized":false,"special":true}],"normalizer":null,"pre_tokenizer":{"type":"Whitespace"},"post_processor":null,"decoder":null,"model":{"type":"WordLevel","vocab":{"[PAD]":0,"[CLS]":1,"[SEP]":2,"[MASK]":3,"[UNK]":4,"t5":5,"t6":6,"t7":7,"t8":8,"t9":9,"t10":10,"t11":11,"t12":12,"t13":13,"t14":14,"t15":15,"t16":16,"t17":17,"t18":18,"t19":19,"t20":20,"t21":21},"unk_token":"[UNK]"}}"#;

fn special() -> SpecialTokens {
    SpecialTokens { cls: 1, sep: 2, mask: 3, pad: 0, literals: vec!["[PAD]".into(), "[CLS]".into(), "[SEP]".into(), "[MASK]".into()] }
}

#[test]
fn tiny_wordlevel_adapter() {
    let bytes = TINY.as_bytes();
    let t = HfTokenizer::from_bytes(bytes, special()).unwrap();
    assert_eq!(t.encode_piece("t5 t7").unwrap(), vec![5, 7]);
    assert_eq!(t.encode_piece("unseen_word").unwrap(), vec![4]);
    assert!(t.special_tokens().literals.contains(&"[UNK]".into()));
    let s = Schema {
        id: "Tiny".into(),
        version: 1,
        primitive: Primitive::Noul,
        instructions: "t9".into(),
        options: vec![OptionDef { id: "false".into(), text: "t10".into() }, OptionDef { id: "true".into(), text: "t11".into() }],
    };
    let c = compile(s, &t, 1).unwrap();
    let inp = render(&c, &t, "t20 t21").unwrap();
    assert_eq!(&inp.input_ids[inp.input_ids.len() - 3..], &[20, 21, 2]);
    assert!(render(&c, &t, "[UNK]").is_err());
}

#[test]
fn adapter_keeps_literals_sorted_and_fingerprints_the_bytes() {
    let t = HfTokenizer::from_bytes(TINY.as_bytes(), special()).unwrap();
    let lits = t.special_tokens().literals;
    assert_eq!(lits, vec!["[CLS]", "[MASK]", "[PAD]", "[SEP]", "[UNK]"]);
    assert_eq!(t.fingerprint(), hash(TINY.as_bytes()));
    let sp = t.special_tokens();
    assert_eq!((sp.cls, sp.sep, sp.mask, sp.pad), (1, 2, 3, 0));
}

#[test]
fn adapter_refuses_empty_and_malformed_configurations() {
    assert_eq!(HfTokenizer::from_bytes(&[], special()).err(), Some(Error::TooLong));
    assert!(matches!(HfTokenizer::from_bytes(b"{not json", special()).err(), Some(Error::Invalid(_))));
}

#[test]
fn adapter_checks_the_control_ids() {
    let mut sp = special();
    sp.cls = 99;
    assert_eq!(HfTokenizer::from_bytes(TINY.as_bytes(), sp).err(), Some(Error::Invalid("special token id".into())));
    let mut sp = special();
    sp.literals.retain(|l| l != "[SEP]");
    assert_eq!(HfTokenizer::from_bytes(TINY.as_bytes(), sp).err(), Some(Error::Invalid("special literal list".into())));
}

#[test]
fn adapter_refuses_a_tokenizer_with_dropout() {
    let bpe = r#"{"version":"1.0","truncation":null,"padding":null,"added_tokens":[],"normalizer":null,"pre_tokenizer":{"type":"Whitespace"},"post_processor":null,"decoder":null,"model":{"type":"BPE","dropout":0.5,"unk_token":null,"continuing_subword_prefix":null,"end_of_word_suffix":null,"fuse_unk":false,"byte_fallback":false,"ignore_merges":false,"vocab":{"[PAD]":0,"[CLS]":1,"[SEP]":2,"[MASK]":3,"a":4},"merges":[]}}"#;
    assert_eq!(HfTokenizer::from_bytes(bpe.as_bytes(), special()).err(), Some(Error::Invalid("tokenizer dropout".into())));
    let plain = bpe.replace("\"dropout\":0.5", "\"dropout\":null");
    assert!(HfTokenizer::from_bytes(plain.as_bytes(), special()).is_ok());
}
