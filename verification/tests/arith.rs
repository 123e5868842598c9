use verlet_sim::arith::{div_trunc, isqrt, isqrt_ceil};

#[test]
fn div_trunc_rounds_toward_zero() {
    assert_eq!(div_trunc(7, 2), 3);
    assert_eq!(div_trunc(-7, 2), -3);
    assert_eq!(div_trunc(6, 3), 2);
    assert_eq!(div_trunc(-6, 3), -2);
    assert_eq!(div_trunc(-1, 2), 0);
    assert_eq!(div_trunc(1, 2), 0);
    assert_eq!(div_trunc(0, 5), 0);
    assert_eq!(div_trunc(-10, 1), -10);
}

#[test]
fn div_trunc_is_odd_in_the_numerator() {
    for n in -50i128..=50 {
        for d in 1i128..=7 {
            assert_eq!(div_trunc(-n, d), -div_trunc(n, d));
            assert!(div_trunc(n, d).abs() * d <= n.abs());
            assert!(n.abs() < (div_trunc(n, d).abs() + 1) * d);
        }
    }
}

#[test]
fn isqrt_of_small_numbers() {
    let expected = [0u128, 1, 1, 1, 2, 2, 2, 2, 2, 3, 3, 3, 3, 3, 3, 3, 4];
    for (n, r) in expected.iter().enumerate() {
        assert_eq!(isqrt(n as u128), *r);
    }
}

#[test]
fn isqrt_of_large_numbers() {
    assert_eq!(isqrt(1_000_000_000_000_000_000_000_000_000_000), 1_000_000_000_000_000);
    assert_eq!(isqrt(u128::MAX), 18_446_744_073_709_551_615);
    assert_eq!(isqrt((1u128 << 64) - 1), (1u128 << 32) - 1);
    assert_eq!(isqrt(1u128 << 64), 1u128 << 32);
}

#[test]
fn isqrt_brackets_its_argument() {
    for n in 0u128..5000 {
        let r = isqrt(n);
        assert!(r * r <= n && n < (r + 1) * (r + 1));
    }
}

#[test]
fn isqrt_ceil_rounds_up() {
    assert_eq!(isqrt_ceil(0), 0);
    assert_eq!(isqrt_ceil(1), 1);
    assert_eq!(isqrt_ceil(2), 2);
    assert_eq!(isqrt_ceil(4), 2);
    assert_eq!(isqrt_ceil(5), 3);
    assert_eq!(isqrt_ceil(16), 4);
    assert_eq!(isqrt_ceil(17), 5);
    assert_eq!(isqrt_ceil(1_000_000_000_001), 1_000_001);
}
