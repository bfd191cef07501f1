use rushnsw::dist::{best_l2sq, l2sq_avx2, l2sq_avx512, l2sq_scalar, DistF32};
use rushnsw::pq::{adc_avx512, adc_scalar, best_adc, Adc};
use rushnsw::q8::{best_l2sq_i8, l2sq_i8_scalar, l2sq_i8_vnni, DistI8};

fn fused(s: f32, x: f32, y: f32) -> f32 {
    let d = x - y;
    d.mul_add(d, s)
}

fn step(s: f32, x: f32, y: f32) -> f32 {
    let d = x - y;
    s + d * d
}

fn plus(x: f32, y: f32) -> f32 {
    x + y
}

#[test]
fn vnni_matches_scalar_exactly() {
    for (f, name) in [best_l2sq_i8(true, true, true), best_l2sq_i8(false, false, false)] {
        for dim in [7usize, 32, 64, 96, 255, 256, 768] {
            let a: Vec<i8> = (0..dim).map(|i| ((i * 37 % 255) as i32 - 127) as i8).collect();
            let b: Vec<i8> = (0..dim).map(|i| ((i * 91 % 255) as i32 - 127) as i8).collect();
            assert_eq!(f.dist(&a, &b), l2sq_i8_scalar(&a, &b), "{name} dim={dim}");
        }
    }
}

#[test]
fn no_overflow_at_max_separation() {
    for (f, _) in [best_l2sq_i8(true, true, true), best_l2sq_i8(false, false, false)] {
        let dim = 4096;
        let a = vec![127i8; dim];
        let b = vec![-127i8; dim];
        assert_eq!(f.dist(&a, &b), 254i32 * 254 * dim as i32);
    }
}

#[test]
fn gather_matches_scalar() {
    for (f, _) in [best_adc(true), best_adc(false)] {
        let m = 32;
        let lut: Vec<f32> = (0..m * 256).map(|i| (i as f32) * 0.001).collect();
        for trial in 0..8u32 {
            let code: Vec<u8> =
                (0..m).map(|j| ((j as u32 * 37 + trial * 91) % 256) as u8).collect();
            let a = f.sum(&lut, &code, 256, 0.0, &plus);
            let b = adc_scalar(&lut, &code, 256, 0.0, &plus);
            assert!((a - b).abs() < 1e-3, "{a} vs {b}");
        }
    }
}

#[test]
fn integer_kernels_on_short_codes() {
    assert_eq!(l2sq_i8_scalar(&[], &[]), 0);
    assert_eq!(l2sq_i8_vnni(&[], &[]), 0);
    assert_eq!(l2sq_i8_scalar(&[1, 2, 3], &[4, 6, 3]), 25);
    assert_eq!(l2sq_i8_vnni(&[1, 2, 3], &[4, 6, 3]), 25);
    assert_eq!(l2sq_i8_vnni(&[-128], &[127]), 65025);
    // Only as many places count as the first code has.
    assert_eq!(l2sq_i8_scalar(&[1], &[3, 100]), 4);
    assert_eq!(l2sq_i8_vnni(&[1], &[3, 100]), 4);
}

#[test]
fn integer_distance_is_symmetric_and_zero_on_equal_codes() {
    let a: Vec<i8> = (0..100).map(|i| (i * 5 % 251) as u8 as i8).collect();
    let b: Vec<i8> = (0..100).map(|i| (i * 11 % 251) as u8 as i8).collect();
    assert_eq!(l2sq_i8_vnni(&a, &b), l2sq_i8_vnni(&b, &a));
    assert_eq!(l2sq_i8_vnni(&a, &a), 0);
    assert!(l2sq_i8_vnni(&a, &b) > 0);
    assert!(l2sq_i8_vnni(&a, &b) <= 65025 * 100);
}

#[test]
fn choice_of_integer_kernel_needs_all_features() {
    assert_eq!(best_l2sq_i8(true, true, true), (DistI8::Vnni, "avx512vnni"));
    for (x, y, z) in [(false, true, true), (true, false, true), (true, true, false)] {
        assert_eq!(best_l2sq_i8(x, y, z).0, DistI8::Scalar);
    }
}

#[test]
fn choice_of_float_kernel_prefers_the_widest() {
    assert_eq!(best_l2sq(true, true, true), (DistF32::Avx512, "avx512f"));
    assert_eq!(best_l2sq(true, false, false), (DistF32::Avx512, "avx512f"));
    assert_eq!(best_l2sq(false, true, true), (DistF32::Avx2, "avx2+fma"));
    assert_eq!(best_l2sq(false, true, false), (DistF32::Scalar, "scalar"));
    assert_eq!(best_l2sq(false, false, true), (DistF32::Scalar, "scalar"));
}

#[test]
fn choice_of_table_kernel() {
    assert_eq!(best_adc(true), (Adc::Gather, "avx512-gather"));
    assert_eq!(best_adc(false), (Adc::Scalar, "scalar-adc"));
}

#[test]
fn float_kernels_agree_within_rounding() {
    for dim in [0usize, 1, 7, 8, 15, 16, 31, 32, 33, 40, 63, 64, 100, 256, 259] {
        let a: Vec<f32> = (0..dim).map(|i| i as f32 * 0.01).collect();
        let b: Vec<f32> = (0..dim).map(|i| (dim - i) as f32 * 0.013).collect();
        let s = l2sq_scalar(&a, &b, 0.0, &step);
        let x = l2sq_avx2(&a, &b, 0.0, &fused, &step, &plus);
        let y = l2sq_avx512(&a, &b, 0.0, &fused, &step, &plus);
        assert!((s - x).abs() <= 1e-3 * s.abs(), "dim={dim}: {s} vs {x}");
        assert!((s - y).abs() <= 1e-3 * s.abs(), "dim={dim}: {s} vs {y}");
    }
}

#[test]
fn kernels_agree_in_exact_arithmetic() {
    let part = |s: i64, x: i32, y: i32| s + ((x - y) as i64) * ((x - y) as i64);
    let add = |x: i64, y: i64| x + y;
    for dim in [0usize, 1, 8, 31, 32, 47, 48, 95, 96, 130] {
        let a: Vec<i32> = (0..dim as i32).map(|i| i * 7 % 23).collect();
        let b: Vec<i32> = (0..dim as i32).map(|i| i * 13 % 29).collect();
        let want: i64 = a.iter().zip(&b).map(|(x, y)| ((x - y) as i64).pow(2)).sum();
        for kernel in [DistF32::Scalar, DistF32::Avx2, DistF32::Avx512] {
            assert_eq!(kernel.dist(&a, &b, 0i64, &part, &part, &add), want);
        }
    }
}

#[test]
fn lanes_add_up_in_the_stated_order() {
    let step = |s: u64, x: u64, _: u64| s * 10 + x;
    assert_eq!(l2sq_scalar(&[1u64, 2, 3], &[0, 0, 0], 0u64, &step), 123);
    // 33 places: 32 lanes take one step each, then one place is left.
    let ones = vec![1u64; 33];
    let sum = l2sq_avx2(&ones, &ones, 0u64, &step, &step, &|x: u64, y: u64| x + y);
    assert_eq!(sum, 32 * 10 + 1);
    let sum = l2sq_avx512(&ones, &ones, 0u64, &step, &step, &|x: u64, y: u64| x + y);
    assert_eq!(sum, 32 * 10 + 1);
}

#[test]
fn table_kernels_agree_in_exact_arithmetic() {
    let lut: Vec<u64> = (0..40 * 256).map(|i| (i * i % 1009) as u64).collect();
    for m in [0usize, 1, 15, 16, 17, 32, 40] {
        let code: Vec<u8> = (0..m).map(|j| (j * 53 % 256) as u8).collect();
        let want: u64 = (0..m).map(|j| lut[j * 256 + code[j] as usize]).sum();
        assert_eq!(adc_scalar(&lut, &code, 256, 0, &|x, y| x + y), want);
        assert_eq!(adc_avx512(&lut, &code, 256, 0, &|x, y| x + y), want);
    }
}

#[test]
fn the_widest_centred_codes_fit() {
    let a = vec![127i8; 33286];
    let b = vec![-127i8; 33286];
    assert_eq!(l2sq_i8_scalar(&a, &b), 2_147_479_576);
    assert_eq!(l2sq_i8_vnni(&a, &b), 2_147_479_576);
}

#[test]
fn lanes_are_off_by_no_more_than_their_additions() {
    // Every addition drops up to 7, so `n` of them are off by at most 7 * n.
    let cut = |x: i64| x - x % 8;
    let step = |s: i64, x: i32, y: i32| cut(s + ((x - y) as i64).pow(2));
    let add = |x: i64, y: i64| cut(x + y);
    for n in [0usize, 1, 8, 16, 31, 32, 47, 96, 130, 259] {
        let a: Vec<i32> = (0..n as i32).map(|i| i * 7 % 23).collect();
        let b: Vec<i32> = (0..n as i32).map(|i| 40 + i * 13 % 29).collect();
        let sum: i64 = a.iter().zip(&b).map(|(x, y)| ((x - y) as i64).pow(2)).sum();
        let s = l2sq_scalar(&a, &b, 0i64, &step);
        assert!((sum - s).abs() <= n as i64 * 7);
        for kernel in [DistF32::Avx2, DistF32::Avx512] {
            let x = kernel.dist(&a, &b, 0i64, &step, &step, &add);
            assert!((sum - x).abs() <= (n as i64 + 31) * 7);
            assert!((s - x).abs() <= (2 * n as i64 + 31) * 7);
        }
        let lut: Vec<i64> = (0..n * 256).map(|i| (i * i % 1009) as i64).collect();
        let code: Vec<u8> = (0..n).map(|j| (j * 53 % 256) as u8).collect();
        let sum: i64 = (0..n).map(|j| lut[j * 256 + code[j] as usize]).sum();
        assert!((sum - adc_scalar(&lut, &code, 256, 0, &add)).abs() <= n as i64 * 7);
        assert!((sum - adc_avx512(&lut, &code, 256, 0, &add)).abs() <= (n as i64 + 15) * 7);
    }
    // Lanes lose something else than a plain sum does.
    let (ones, zeros) = (vec![3i32; 33], vec![0i32; 33]);
    assert_eq!(l2sq_scalar(&ones, &zeros, 0i64, &step), 33 * 8);
    assert_eq!(DistF32::Avx512.dist(&ones, &zeros, 0i64, &step, &step, &add), 33 * 8);
    let (fives, none) = (vec![2i32; 64], vec![0i32; 64]);
    assert_eq!(l2sq_scalar(&fives, &none, 0i64, &step), 0);
    let late = |s: i64, x: i32, y: i32| s + ((x - y) as i64).pow(2);
    assert_eq!(DistF32::Avx512.dist(&fives, &none, 0i64, &late, &step, &add), 256);
}

#[test]
fn long_float_kernels_agree_to_a_thousandth() {
    for dim in [1000usize, 2048, 4096] {
        let a: Vec<f32> = (0..dim).map(|i| ((i * 37 % 101) as f32) * 0.173).collect();
        let b: Vec<f32> = (0..dim).map(|i| ((i * 71 % 97) as f32) * 0.091 - 3.0).collect();
        let s = l2sq_scalar(&a, &b, 0.0, &step);
        for kernel in [DistF32::Avx2, DistF32::Avx512] {
            let x = kernel.dist(&a, &b, 0.0, &fused, &step, &plus);
            assert!((s - x).abs() <= 1e-3 * s);
        }
    }
}
