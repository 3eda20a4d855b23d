use coarse_prof::clock::clamp_nanos;
use coarse_prof::figures::{
    decimal_string, digit_str, fixed2_string, indented, isqrt, leading3_of, magnitude_of,
    ratio_string, rounded_quotient, scale_of, scientific_string,
};
use coarse_prof::stats::Stats;

#[test]
fn decimal_digits() {
    assert_eq!(digit_str(0), "0");
    assert_eq!(digit_str(9), "9");
    assert_eq!(decimal_string(0), "0");
    assert_eq!(decimal_string(7), "7");
    assert_eq!(decimal_string(10), "10");
    assert_eq!(decimal_string(1234567890), "1234567890");
    assert_eq!(decimal_string(u128::MAX), "340282366920938463463374607431768211455");
}

#[test]
fn two_decimal_places() {
    assert_eq!(fixed2_string(0), "0.00");
    assert_eq!(fixed2_string(5), "0.05");
    assert_eq!(fixed2_string(50), "0.50");
    assert_eq!(fixed2_string(1234), "12.34");
    assert_eq!(fixed2_string(10000), "100.00");
}

#[test]
fn rounding_is_to_nearest_with_halves_up() {
    assert_eq!(rounded_quotient(0, 3), 0);
    assert_eq!(rounded_quotient(1, 3), 0);
    assert_eq!(rounded_quotient(2, 3), 1);
    assert_eq!(rounded_quotient(1, 2), 1);
    assert_eq!(rounded_quotient(14_999, 10_000), 1);
    assert_eq!(rounded_quotient(15_000, 10_000), 2);
    assert_eq!(rounded_quotient(7, 1), 7);
}

#[test]
fn ratios_as_text() {
    assert_eq!(ratio_string(1 * 10_000, 3), "33.33");
    assert_eq!(ratio_string(2 * 10_000, 3), "66.67");
    assert_eq!(ratio_string(2_500_000, 10_000), "2.50");
    assert_eq!(ratio_string(0, 5), "0.00");
    assert_eq!(ratio_string(5, 0), "inf");
    assert_eq!(ratio_string(0, 0), "NaN");
}

#[test]
fn integer_square_roots() {
    assert_eq!(isqrt(0), 0);
    assert_eq!(isqrt(1), 1);
    assert_eq!(isqrt(3), 1);
    assert_eq!(isqrt(4), 2);
    assert_eq!(isqrt(99), 9);
    assert_eq!(isqrt(100), 10);
    assert_eq!(isqrt(4_000_000_000_000), 2_000_000);
    assert_eq!(isqrt(u128::MAX), u64::MAX);
}

#[test]
fn scientific_notation() {
    assert_eq!(magnitude_of(0), 0);
    assert_eq!(magnitude_of(9), 0);
    assert_eq!(magnitude_of(10), 1);
    assert_eq!(magnitude_of(u64::MAX), 19);
    assert_eq!(leading3_of(6), 600);
    assert_eq!(leading3_of(42), 420);
    assert_eq!(leading3_of(999), 999);
    assert_eq!(leading3_of(123_456), 123);
    assert_eq!(scientific_string(0), "0.00e0");
    assert_eq!(scientific_string(6), "6.00e0");
    assert_eq!(scientific_string(100), "1.00e2");
    assert_eq!(scientific_string(1234), "1.23e3");
    assert_eq!(scientific_string(u64::MAX), "1.84e19");
}

#[test]
fn scientific_notation_rounds_to_nearest() {
    assert_eq!(scale_of(0), 1);
    assert_eq!(scale_of(999), 1);
    assert_eq!(scale_of(1000), 10);
    assert_eq!(scale_of(123_456), 1000);
    assert_eq!(scale_of(u64::MAX), 100_000_000_000_000_000);
    assert_eq!(leading3_of(1234), 123);
    assert_eq!(leading3_of(1235), 124);
    assert_eq!(leading3_of(9994), 999);
    assert_eq!(leading3_of(9995), 1000);
    assert_eq!(scientific_string(999), "9.99e2");
    assert_eq!(scientific_string(1000), "1.00e3");
    assert_eq!(scientific_string(1234), "1.23e3");
    assert_eq!(scientific_string(1235), "1.24e3");
    assert_eq!(scientific_string(1236), "1.24e3");
    assert_eq!(scientific_string(9994), "9.99e3");
    assert_eq!(scientific_string(9995), "1.00e4");
    assert_eq!(scientific_string(9999), "1.00e4");
    assert_eq!(scientific_string(99_949_999), "9.99e7");
    assert_eq!(scientific_string(99_950_000), "1.00e8");
    assert_eq!(scientific_string(18_350_000_000_000_000_000), "1.84e19");
    assert_eq!(scientific_string(18_349_999_999_999_999_999), "1.83e19");
}

#[test]
fn indentation() {
    assert_eq!(indented(0, "a"), "a");
    assert_eq!(indented(1, "a"), "  a");
    assert_eq!(indented(3, "bc"), "      bc");
}

#[test]
fn nanoseconds_stop_at_the_largest_duration() {
    assert_eq!(clamp_nanos(0), 0);
    assert_eq!(clamp_nanos(12_345), 12_345);
    assert_eq!(clamp_nanos(u64::MAX as u128), u64::MAX);
    assert_eq!(clamp_nanos(u64::MAX as u128 + 1), u64::MAX);
    assert_eq!(clamp_nanos(u128::MAX), u64::MAX);
}

#[test]
fn statistics_of_no_call() {
    let s = Stats::new();
    assert_eq!(s.num_calls(), 0);
    assert_eq!(s.dur_sum(), 0);
    assert_eq!(s.dur_min(), u64::MAX);
    assert_eq!(s.dur_max(), 0);
    assert_eq!(s.dur_last(), 0);
    assert_eq!(s.dur_mean(), 0);
    assert_eq!(s.dur_rem(), 0);
    assert_eq!(s.dur_m2(), 0);
    assert_eq!(s.dur_m2_rem(), 0);
    assert_eq!(s.std_dev(), 0);
}

#[test]
fn statistics_of_three_calls() {
    let mut s = Stats::new();
    s.record(10);
    assert_eq!(s.dur_mean(), 10);
    assert_eq!(s.dur_m2(), 0);
    s.record(20);
    assert_eq!(s.dur_mean(), 15);
    assert_eq!(s.dur_m2(), 50);
    s.record(30);
    assert_eq!(s.num_calls(), 3);
    assert_eq!(s.dur_sum(), 60);
    assert_eq!(s.dur_min(), 10);
    assert_eq!(s.dur_max(), 30);
    assert_eq!(s.dur_last(), 30);
    assert_eq!(s.dur_mean(), 20);
    assert_eq!(s.dur_m2(), 200);
    assert_eq!(s.std_dev(), 8);
}

#[test]
fn streaming_mean_moves_towards_a_smaller_sample() {
    let mut s = Stats::new();
    s.record(100);
    s.record(40);
    assert_eq!(s.dur_mean(), 70);
    assert_eq!(s.dur_m2(), 1800);
    s.record(0);
    assert_eq!(s.dur_mean(), 46);
    assert_eq!(s.dur_rem(), 2);
    assert_eq!(s.dur_m2(), 5066);
    assert_eq!(s.dur_m2_rem(), 2);
}

#[test]
fn sum_of_squared_deviations_is_exact() {
    let mut s = Stats::new();
    let mut x: u64 = 99;
    let mut sum: u128 = 0;
    let mut squares: u128 = 0;
    let mut n: u128 = 0;
    for _ in 0..2000 {
        x = x.wrapping_mul(6_364_136_223_846_793_005).wrapping_add(1_442_695_040_888_963_407);
        let d = x >> 34;
        s.record(d);
        sum += d as u128;
        squares += (d as u128) * (d as u128);
        n += 1;
        let spread = n * squares - sum * sum;
        assert_eq!(s.dur_m2(), spread / n);
        assert_eq!(s.dur_m2_rem() as u128, spread % n);
    }
}

#[test]
fn two_samples_half_a_nanosecond_apart() {
    let mut s = Stats::new();
    s.record(7);
    s.record(8);
    assert_eq!(s.dur_mean(), 7);
    assert_eq!(s.dur_rem(), 1);
    assert_eq!(s.dur_m2(), 0);
    assert_eq!(s.dur_m2_rem(), 1);
    s.record(9);
    assert_eq!(s.dur_mean(), 8);
    assert_eq!(s.dur_m2(), 2);
    assert_eq!(s.dur_m2_rem(), 0);
}

#[test]
fn sum_of_squared_deviations_stops_at_the_largest_value() {
    let mut s = Stats::new();
    for _ in 0..4 {
        s.record(0);
        s.record(u64::MAX);
    }
    assert_eq!(s.dur_m2(), u128::MAX);
    assert_eq!(s.dur_mean(), u64::MAX / 2);
    s.record(5);
    assert_eq!(s.dur_m2(), u128::MAX);
}

#[test]
fn streaming_mean_is_the_rounded_down_arithmetic_mean() {
    let samples: [u64; 7] = [1, 2, 4, 1_000_003, 17, 0, 999];
    let mut s = Stats::new();
    let mut sum: u64 = 0;
    let mut n: u64 = 0;
    for x in samples {
        s.record(x);
        sum += x;
        n += 1;
        assert_eq!(s.dur_mean(), sum / n);
        assert_eq!(s.dur_rem(), sum % n);
        assert_eq!(s.dur_sum(), sum);
    }
}

#[test]
fn welford_matches_mean_and_population_deviation() {
    let samples: [u64; 8] = [2, 4, 4, 4, 5, 5, 7, 9];
    let mut s = Stats::new();
    for x in samples {
        s.record(x * 1_000_000_000);
    }
    let sum: f64 = samples.iter().map(|x| *x as f64).sum();
    let mean = sum / 8.0;
    let m2: f64 = samples.iter().map(|x| (*x as f64 - mean).powi(2)).sum::<f64>();
    let std = (m2 / 8.0).sqrt();
    assert_eq!(mean, 5.0);
    assert_eq!(m2, 32.0);
    assert_eq!(std, 2.0);
    assert_eq!(s.num_calls(), 8);
    assert_eq!(s.dur_mean(), 5_000_000_000);
    assert_eq!(s.dur_rem(), 0);
    assert_eq!(s.dur_m2(), 32_000_000_000_000_000_000);
    assert_eq!(s.dur_m2_rem(), 0);
    assert_eq!(s.std_dev(), 2_000_000_000);
    assert!((s.dur_mean() as f64 / 1e9 - mean).abs() < 1e-9);
    assert!((s.dur_m2() as f64 / 1e18 - m2).abs() < 1e-9);
    assert!((s.std_dev() as f64 / 1e9 - std).abs() < 1e-9);
    assert_eq!(s.dur_sum(), 40_000_000_000);
    assert_eq!(s.dur_min(), 2_000_000_000);
    assert_eq!(s.dur_max(), 9_000_000_000);
}

#[test]
fn mean_lies_between_the_extremes() {
    let mut s = Stats::new();
    let mut x: u64 = 12_345;
    for _ in 0..1000 {
        x = x.wrapping_mul(6_364_136_223_846_793_005).wrapping_add(1_442_695_040_888_963_407);
        s.record(x >> 40);
        assert!(s.dur_min() <= s.dur_mean());
        assert!(s.dur_mean() <= s.dur_max());
    }
    assert_eq!(s.num_calls(), 1000);
}

#[test]
fn equal_samples_have_no_deviation() {
    let mut s = Stats::new();
    for _ in 0..17 {
        s.record(123_456);
    }
    assert_eq!(s.dur_mean(), 123_456);
    assert_eq!(s.dur_m2(), 0);
    assert_eq!(s.std_dev(), 0);
}

#[test]
fn deviation_is_within_the_range() {
    let mut s = Stats::new();
    let mut x: u64 = 7;
    for _ in 0..500 {
        x = x.wrapping_mul(6_364_136_223_846_793_005).wrapping_add(1_442_695_040_888_963_407);
        s.record(x >> 44);
        assert!(s.std_dev() <= s.dur_max() - s.dur_min());
    }
}

#[test]
fn duration_sum_saturates() {
    let mut s = Stats::new();
    s.record(u64::MAX);
    s.record(u64::MAX);
    s.record(1);
    assert_eq!(s.dur_sum(), u64::MAX);
    assert_eq!(s.num_calls(), 3);
    assert_eq!(s.dur_min(), 1);
    assert_eq!(s.dur_max(), u64::MAX);
}
