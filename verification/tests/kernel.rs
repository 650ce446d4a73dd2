use ic_laya_core::kernel::{int8_bench_shape, matmul_i8_acc};
use ic_laya_core::types::Error;

fn reference(a: &[i16], w: &[i8], m: usize, k: usize, n: usize) -> Vec<i64> {
    let mut out = vec![0i64; m * n];
    for i in 0..m {
        for j in 0..n {
            let mut acc = 0i64;
            for p in 0..k {
                acc += a[i * k + p] as i64 * w[j * k + p] as i64;
            }
            out[i * n + j] = acc;
        }
    }
    out
}

#[test]
fn accumulators_match_an_exact_reference_over_shapes() {
    for (m, k, n) in [(1usize, 8usize, 1usize), (3, 16, 5), (4, 32, 7), (7, 40, 9), (13, 96, 3), (2, 768, 3)] {
        let a: Vec<i16> = (0..m * k).map(|i| match i % 5 { 0 => 8192, 1 => -8192, _ => (i % 16385) as i16 - 8192 }).collect();
        let w: Vec<i8> = (0..n * k).map(|i| match i % 5 { 0 => 127, 1 => -127, _ => ((i % 255) as i16 - 127) as i8 }).collect();
        let got = matmul_i8_acc(&a, &w, m, k, n);
        let want = reference(&a, &w, m, k, n);
        assert_eq!(got.len(), m * n);
        assert!(got.iter().zip(want).all(|(x, y)| *x as i64 == y), "shape {m}x{k}x{n}");
    }
}

#[test]
fn accumulators_of_a_small_product() {
    // [1 2; 3 4] times the transpose of [5 6; -1 0].
    let got = matmul_i8_acc(&[1, 2, 3, 4], &[5, 6, -1, 0], 2, 2, 2);
    assert_eq!(got, vec![17, -1, 39, -3]);
    assert!(matmul_i8_acc(&[], &[], 0, 4, 3).is_empty());
    assert_eq!(matmul_i8_acc(&[], &[], 2, 0, 2), vec![0, 0, 0, 0]);
}

#[test]
fn accumulators_wrap_past_the_i32_range() {
    let k = 600usize;
    let a = vec![i16::MAX; k];
    let w = vec![127i8; k];
    let exact = i16::MAX as i64 * 127 * k as i64;
    assert!(exact > i32::MAX as i64);
    assert_eq!(matmul_i8_acc(&a, &w, 1, k, 1), vec![exact as i32]);
}

#[test]
fn int8_bench_shapes_are_bounded() {
    assert_eq!(int8_bench_shape(64, 768, 768, 3), Ok(()));
    assert_eq!(int8_bench_shape(512, 4096, 4096, 64), Ok(()));
    for (m, n, k, it) in [(0, 1, 8, 1), (513, 1, 8, 1), (1, 4097, 8, 1), (1, 1, 12, 1), (1, 1, 8, 0), (1, 1, 8, 65)] {
        assert_eq!(int8_bench_shape(m, n, k, it), Err(Error::Invalid("bench shape".into())));
    }
}
