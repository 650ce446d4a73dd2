use ic_laya_core::profile::PhaseCostDto;
use ic_laya_core::upload_cli::parse_args;
use ic_laya_core::upload_plan::{
    aggregate_phases, bench_shape, check_inputs, half_shape, int8_shape, next_chunk, parse_ids, quant_shape,
};

fn args(items: &[&str]) -> Vec<String> {
    items.iter().map(|s| s.to_string()).collect()
}

#[test]
fn token_lists_skip_blank_pieces() {
    assert_eq!(parse_ids("1, 2,,3"), Ok(vec![1, 2, 3]));
    assert_eq!(parse_ids(""), Ok(vec![]));
    assert_eq!(parse_ids(" , \t"), Ok(vec![]));
    assert_eq!(parse_ids("50281,7,50282"), Ok(vec![50281, 7, 50282]));
    assert_eq!(parse_ids("+4"), Ok(vec![4]));
}

#[test]
fn token_lists_report_the_first_bad_piece() {
    assert_eq!(parse_ids("1, x ,y"), Err("id  x : invalid digit found in string".to_string()));
    assert_eq!(parse_ids("4294967296"), Err("id 4294967296: number too large to fit in target type".to_string()));
    assert_eq!(parse_ids("1,-2"), Err("id -2: invalid digit found in string".to_string()));
}

#[test]
fn bench_shapes_read_four_numbers() {
    assert_eq!(bench_shape("64, 64, 768, 3"), Ok((64, 64, 768, 3)));
    assert_eq!(bench_shape("a,1,2,3"), Ok((0, 1, 2, 3)));
    assert_eq!(bench_shape("4294967297,1,2,3"), Ok((1, 1, 2, 3)));
    assert_eq!(bench_shape("1,2,3"), Err("--bench wants m,n,k,iterations".to_string()));
    assert_eq!(int8_shape("1,2,3,4"), Ok((1, 2, 3, 4)));
    assert_eq!(int8_shape("1,2,3,4,5"), Err("--int8 wants m,n,k,iterations".to_string()));
    assert_eq!(int8_shape("1,2,3,4294967296"), Ok((1, 2, 3, 0)));
    assert_eq!(half_shape("1,2"), Err(format!("--f{} wants m,n,k,iterations", 16)));
    assert_eq!(half_shape(" 9 ,8,7,6 "), Ok((9, 8, 7, 6)));
}

#[test]
fn quant_shapes_carry_the_element_type() {
    assert_eq!(quant_shape("1,2,3,4, q8_0 "), Ok(((1, 2, 3, 4), "q8_0".to_string())));
    assert_eq!(quant_shape("1,2,3,4"), Err("--quant wants m,n,k,iterations,dtype".to_string()));
}

#[test]
fn run_inputs_are_checked() {
    let a = parse_args(&args(&["--pem", "p", "--pack", "dir"])).unwrap();
    assert_eq!(check_inputs(&a), Err("--pack and --tokenizer must be given together".to_string()));
    let a = parse_args(&args(&["--pem", "p", "--no-upload", "--pack", "d", "--tokenizer", "t"])).unwrap();
    assert_eq!(check_inputs(&a), Err("--no-upload does not take --pack/--tokenizer".to_string()));
    let a = parse_args(&args(&["--pem", "p"])).unwrap();
    assert_eq!(check_inputs(&a), Err("--pack is required".to_string()));
    let a = parse_args(&args(&["--pem", "p", "--no-upload"])).unwrap();
    assert_eq!(check_inputs(&a), Ok(()));
    let a = parse_args(&args(&["--pem", "p", "--pack", "d", "--tokenizer", "t"])).unwrap();
    assert_eq!(check_inputs(&a), Ok(()));
}

#[test]
fn chunks_cover_the_payload() {
    assert_eq!(next_chunk(0, 10, 4), Some((0, 4)));
    assert_eq!(next_chunk(8, 10, 4), Some((8, 10)));
    assert_eq!(next_chunk(10, 10, 4), None);
    assert_eq!(next_chunk(0, 0, 4), None);
    let mut offset = 0;
    let mut sent = Vec::new();
    while let Some((a, b)) = next_chunk(offset, 2500, 1024) {
        sent.push((a, b));
        offset = b;
    }
    assert_eq!(sent, vec![(0, 1024), (1024, 2048), (2048, 2500)]);
}

#[test]
fn profile_phases_are_summed_by_name() {
    let phase = |name: &str, instructions: u64| PhaseCostDto { name: name.to_string(), instructions };
    let phases = vec![phase("embed", 10), phase("layer", 5), phase("head", 1), phase("layer", 7)];
    let agg = aggregate_phases(&phases);
    assert_eq!(agg, vec![("embed".to_string(), 10, 1), ("layer".to_string(), 12, 2), ("head".to_string(), 1, 1)]);
    let total: u64 = agg.iter().map(|e| e.1).sum();
    assert_eq!(total, 23);
    assert!(aggregate_phases(&Vec::new()).is_empty());
}
