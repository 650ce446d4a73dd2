use ic_laya_core::upload_cli::{parse_args, MAX_CHUNK, MIN_CHUNK};

fn args(items: &[&str]) -> Vec<String> {
    items.iter().map(|s| s.to_string()).collect()
}

#[test]
fn upload_flags_default_to_the_local_replica() {
    let a = parse_args(&args(&["--pem", "id.pem"])).unwrap();
    assert_eq!(a.url, "http://127.0.0.1:8000");
    assert_eq!(a.canister, "");
    assert_eq!(a.pem, "id.pem");
    assert_eq!((a.cls, a.sep, a.mask, a.pad), (50281, 50282, 50284, 50283));
    assert_eq!(a.chunk, 1024 * 1024);
    assert!(!a.print_principal && !a.no_upload && !a.warm_only && !a.decide && !a.decide_batch);
    assert_eq!(a.decide_many, 0);
    assert_eq!(a.pack, None);
    assert_eq!(a.half, None);
}

#[test]
fn upload_flags_are_read_in_order() {
    let a = parse_args(&args(&[
        "--url", "https://ic0.app", "--canister", "aaaaa-aa", "--pem", "a.pem", "--pem", "b.pem",
        "--pack", "pack", "--tokenizer", "tok.json", "--cls", "1", "--sep", "2", "--mask", "3", "--pad", "0",
        "--print-principal", "--warm-only", "--decide", "--decide-batch", "--profile-detailed",
        "--allow-caller", "2vxsx-fae", "--infer", "hello", "--profile", "p", "--bench", "b", "--quant", "q",
        "--int8", "i",
    ]))
    .unwrap();
    assert_eq!(a.url, "https://ic0.app");
    assert_eq!(a.canister, "aaaaa-aa");
    assert_eq!(a.pem, "b.pem");
    assert_eq!(a.pack.as_deref(), Some("pack"));
    assert_eq!(a.tokenizer.as_deref(), Some("tok.json"));
    assert_eq!((a.cls, a.sep, a.mask, a.pad), (1, 2, 3, 0));
    assert!(a.print_principal && a.warm_only && a.decide && a.decide_batch && a.profile_detailed);
    assert!(!a.no_upload);
    assert_eq!(a.allow_caller.as_deref(), Some("2vxsx-fae"));
    assert_eq!(a.infer.as_deref(), Some("hello"));
    assert_eq!(a.profile.as_deref(), Some("p"));
    assert_eq!(a.bench.as_deref(), Some("b"));
    assert_eq!(a.quant.as_deref(), Some("q"));
    assert_eq!(a.int8.as_deref(), Some("i"));
}

#[test]
fn upload_half_precision_flag_takes_a_value() {
    let flag = format!("--f{}", 16);
    let a = parse_args(&args(&["--pem", "id.pem", flag.as_str(), "bench.txt"])).unwrap();
    assert_eq!(a.half.as_deref(), Some("bench.txt"));
    assert_eq!(parse_args(&args(&["--pem", "id.pem", flag.as_str()])), Err(format!("{flag} needs a value")));
}

#[test]
fn upload_refuses_unknown_flags() {
    assert_eq!(parse_args(&args(&["--pem", "id.pem", "--verbose"])), Err("unknown argument --verbose".to_string()));
    assert_eq!(parse_args(&args(&["extra"])), Err("unknown argument extra".to_string()));
}

#[test]
fn upload_refuses_a_missing_value() {
    assert_eq!(parse_args(&args(&["--url"])), Err("--url needs a value".to_string()));
    assert_eq!(parse_args(&args(&["--pem", "id.pem", "--cls"])), Err("--cls needs a value".to_string()));
}

#[test]
fn upload_requires_an_identity() {
    assert_eq!(parse_args(&args(&[])), Err("--pem is required".to_string()));
    assert_eq!(parse_args(&args(&["--no-upload"])), Err("--pem is required".to_string()));
}

#[test]
fn upload_chunk_is_clamped() {
    let small = parse_args(&args(&["--pem", "p", "--chunk", "10"])).unwrap();
    assert_eq!(small.chunk, MIN_CHUNK);
    let big = parse_args(&args(&["--pem", "p", "--chunk", "99999999"])).unwrap();
    assert_eq!(big.chunk, MAX_CHUNK);
    let mid = parse_args(&args(&["--pem", "p", "--chunk", "4096"])).unwrap();
    assert_eq!(mid.chunk, 4096);
    assert_eq!(
        parse_args(&args(&["--pem", "p", "--chunk", "x"])),
        Err("--chunk: invalid digit found in string".to_string())
    );
}

#[test]
fn upload_number_flags_report_parse_errors() {
    assert_eq!(
        parse_args(&args(&["--pem", "p", "--cls", "abc"])),
        Err("--cls: invalid digit found in string".to_string())
    );
    assert_eq!(
        parse_args(&args(&["--pem", "p", "--pad", "4294967296"])),
        Err("--pad: number too large to fit in target type".to_string())
    );
    assert_eq!(
        parse_args(&args(&["--pem", "p", "--sep", ""])),
        Err("--sep: cannot parse integer from empty string".to_string())
    );
}

#[test]
fn upload_decide_many_falls_back_to_zero() {
    assert_eq!(parse_args(&args(&["--pem", "p", "--decide-many", "12"])).unwrap().decide_many, 12);
    assert_eq!(parse_args(&args(&["--pem", "p", "--decide-many", "lots"])).unwrap().decide_many, 0);
    assert_eq!(parse_args(&args(&["--pem", "p", "--decide-many", "+7"])).unwrap().decide_many, 7);
}
