use ic_laya_core::config::Activation;
use ic_laya_core::pack_cli::{check_layer_types, check_random, parse_pack_args, projector_activation, source_revision};

fn args(items: &[&str]) -> Vec<String> {
    items.iter().map(|s| s.to_string()).collect()
}

const REQUIRED: [&str; 8] = ["--safetensors", "m.st", "--config", "c.json", "--tokenizer", "t.json", "--out", "out"];

#[test]
fn pack_args_read_required_paths_and_defaults() {
    let a = parse_pack_args(&args(&REQUIRED)).unwrap();
    assert_eq!((a.source.as_str(), a.config.as_str(), a.tokenizer.as_str(), a.out.as_str()), ("m.st", "c.json", "t.json", "out"));
    assert_eq!(a.repo, "heman10x/rlcd-modernbert-151m");
    assert_eq!(a.revision, "");
    assert!(!a.test && !a.random);
}

#[test]
fn pack_args_last_value_wins() {
    let mut v = args(&REQUIRED);
    v.extend(args(&["--test", "--out", "elsewhere", "--source-repo", "me/model", "--random", "--source-revision", "abc"]));
    let a = parse_pack_args(&v).unwrap();
    assert_eq!(a.out, "elsewhere");
    assert_eq!(a.repo, "me/model");
    assert_eq!(a.revision, "abc");
    assert!(a.test && a.random);
}

#[test]
fn pack_args_report_the_first_missing_path() {
    assert_eq!(parse_pack_args(&args(&[])), Err("--safetensors is required".to_string()));
    assert_eq!(parse_pack_args(&args(&["--safetensors", "m"])), Err("--config is required".to_string()));
    assert_eq!(
        parse_pack_args(&args(&["--safetensors", "m", "--config", "c", "--out", "o"])),
        Err("--tokenizer is required".to_string())
    );
    assert_eq!(
        parse_pack_args(&args(&["--safetensors", "m", "--config", "c", "--tokenizer", "t"])),
        Err("--out is required".to_string())
    );
}

#[test]
fn pack_args_refuse_a_flag_without_value() {
    let mut v = args(&REQUIRED);
    v.push("--source-repo".to_string());
    assert_eq!(parse_pack_args(&v), Err("missing argument value".to_string()));
}

#[test]
fn pack_random_weights_need_a_test_pack() {
    let mut v = args(&REQUIRED);
    v.push("--random".to_string());
    let a = parse_pack_args(&v).unwrap();
    assert_eq!(check_random(&a), Err("--random requires --test".to_string()));
    v.push("--test".to_string());
    let b = parse_pack_args(&v).unwrap();
    assert_eq!(check_random(&b), Ok(()));
}

#[test]
fn pack_revision_rules() {
    assert_eq!(source_revision(&String::new(), true), Ok("0".repeat(40)));
    assert_eq!(source_revision(&"abc".to_string(), true), Ok("abc".to_string()));
    let commit = "0123456789abcdefABCDEF0123456789abcdef01".to_string();
    assert_eq!(source_revision(&commit, false), Ok(commit.clone()));
    let refused = Err("real pack requires a 40-hex source revision".to_string());
    assert_eq!(source_revision(&String::new(), false), refused);
    assert_eq!(source_revision(&"g".repeat(40), false), refused);
    assert_eq!(source_revision(&"a".repeat(39), false), refused);
}

#[test]
fn pack_projector_activation_names() {
    assert_eq!(projector_activation(None), Ok(Activation::Gelu));
    assert_eq!(projector_activation(Some("gelu")), Ok(Activation::Gelu));
    assert_eq!(projector_activation(Some("relu")), Ok(Activation::Relu));
    assert_eq!(projector_activation(Some("silu")), Err("unsupported projector_hidden_act silu".to_string()));
}

#[test]
fn pack_layer_types_follow_the_global_period() {
    let full = Some("full_attention".to_string());
    let slide = Some("sliding_attention".to_string());
    let good = vec![full.clone(), slide.clone(), slide.clone(), full.clone(), slide.clone()];
    assert_eq!(check_layer_types(&good, 3), Ok(()));
    assert_eq!(check_layer_types(&Vec::new(), 0), Ok(()));
    let refused = Err("layer_types disagrees with global_attn_every_n_layers".to_string());
    assert_eq!(check_layer_types(&good, 2), refused);
    assert_eq!(check_layer_types(&vec![full.clone(), None], 3), refused);
    assert_eq!(check_layer_types(&vec![slide], 1), refused);
}
