use miniinfer::bench::{
    format_bytes, validate_runs,
    byte_scale, comparison_outputs_match, duration_stats, median_duration, optional_duration_stats, sort_elapsed,
    ByteScale, DurationStats, Elapsed, Median,
};
use miniinfer::error::MiniInferError;
use miniinfer::float_bits::{gt_one_bits, is_finite_bits, is_nan_bits, le_zero_bits};
use miniinfer::prompt_input::parse_token_ids;

fn e(secs: u64, nanos: u32) -> Elapsed {
    Elapsed { secs, nanos }
}

#[test]
fn parse_token_ids_reads_comma_separated_numbers() {
    assert_eq!(parse_token_ids("1,2,3"), Ok(vec![1, 2, 3]));
    assert_eq!(parse_token_ids(" 4 , +5,\t6 "), Ok(vec![4, 5, 6]));
    assert_eq!(parse_token_ids("42"), Ok(vec![42]));
}

#[test]
fn parse_token_ids_rejects_anything_else() {
    for bad in ["", "1,,2", "1,", "a", "-1", "+", "1 2", "18446744073709551616"] {
        assert_eq!(parse_token_ids(bad), Err(MiniInferError::InvalidInput), "input {bad:?}");
    }
    assert_eq!(parse_token_ids("18446744073709551615"), Ok(vec![usize::MAX]));
}

#[test]
fn comparison_outputs_match_compares_run_by_run() {
    let a = vec!["x".to_string(), "y".to_string()];
    let b = vec!["x".to_string(), "y".to_string()];
    let c = vec!["x".to_string(), "z".to_string()];
    assert!(comparison_outputs_match(&a, &b));
    assert!(!comparison_outputs_match(&a, &c));
    assert!(!comparison_outputs_match(&a, &b[..1]));
}

#[test]
fn duration_stats_reports_min_median_max() {
    let values = [e(3, 0), e(1, 5), e(2, 0)];
    assert_eq!(
        duration_stats(&values),
        Ok(DurationStats { min: e(1, 5), median: Median::Middle(e(2, 0)), max: e(3, 0) })
    );
    let even = [e(4, 0), e(1, 0), e(3, 0), e(2, 0)];
    assert_eq!(
        duration_stats(&even).map(|s| s.median),
        Ok(Median::Between(e(2, 0), e(3, 0)))
    );
    assert_eq!(duration_stats(&[]), Err(MiniInferError::EmptyInput));
    assert_eq!(optional_duration_stats(&[]), None);
    assert!(optional_duration_stats(&values).is_some());
}

#[test]
fn sort_orders_by_seconds_then_nanoseconds() {
    let sorted = sort_elapsed(&[e(1, 9), e(0, 10), e(1, 2), e(0, 10)]);
    assert_eq!(sorted, vec![e(0, 10), e(0, 10), e(1, 2), e(1, 9)]);
    assert_eq!(median_duration(&sorted), Median::Between(e(0, 10), e(1, 2)));
}

#[test]
fn byte_scale_thresholds() {
    assert_eq!(byte_scale(1023), ByteScale::Bytes);
    assert_eq!(byte_scale(1024), ByteScale::KiB);
    assert_eq!(byte_scale(1048575), ByteScale::KiB);
    assert_eq!(byte_scale(75_497_472), ByteScale::MiB);
}

#[test]
fn float_bit_checks_match_float_comparisons() {
    let samples = [
        0.0f32, -0.0, 1.0, -1.0, 0.5, 1.5, 1.0000001, f32::MIN_POSITIVE, f32::MAX, f32::INFINITY,
        f32::NEG_INFINITY, f32::NAN, -f32::NAN, 1e-30, -1e-30,
    ];
    for x in samples {
        let bits = x.to_bits();
        assert_eq!(is_finite_bits(bits), x.is_finite(), "{x}");
        assert_eq!(is_nan_bits(bits), x.is_nan(), "{x}");
        assert_eq!(le_zero_bits(bits), x <= 0.0, "{x}");
        assert_eq!(gt_one_bits(bits), x > 1.0, "{x}");
    }
}

fn float_formatted_bytes(bytes: usize) -> String {
    const KIB: f64 = 1024.0;
    const MIB: f64 = KIB * 1024.0;
    if (bytes as f64) >= MIB {
        format!("{} bytes ({:.3} MiB)", bytes, bytes as f64 / MIB)
    } else if (bytes as f64) >= KIB {
        format!("{} bytes ({:.3} KiB)", bytes, bytes as f64 / KIB)
    } else {
        format!("{bytes} bytes")
    }
}

#[test]
fn format_bytes_shows_count_and_scaled_size() {
    assert_eq!(format_bytes(512), "512 bytes");
    assert_eq!(format_bytes(1536), "1536 bytes (1.500 KiB)");
    assert_eq!(format_bytes(75_497_472), "75497472 bytes (72.000 MiB)");
    assert_eq!(format_bytes(5_308_416), "5308416 bytes (5.062 MiB)");
}

#[test]
fn format_bytes_rounds_like_float_formatting() {
    for bytes in (0..300_000usize).chain(1_048_000..1_400_000).chain([usize::pow(2, 40) + 524_288 * 3]) {
        assert_eq!(format_bytes(bytes), float_formatted_bytes(bytes), "bytes = {bytes}");
    }
}

#[test]
fn benchmarks_need_a_run() {
    assert_eq!(validate_runs(1), Ok(()));
    assert_eq!(
        validate_runs(0),
        Err(MiniInferError::InvalidConfig { message: "runs must be greater than zero".to_string() })
    );
}
