use vim_profiler::duration::parse_duration;

#[test]
fn a_trace_time_is_read_in_nanoseconds() {
    assert_eq!(parse_duration("000.029"), Some(29_000));
    assert_eq!(parse_duration("010.704"), Some(10_704_000));
    assert_eq!(parse_duration("0.0"), Some(0));
    assert_eq!(parse_duration("1.5"), Some(1_500_000));
    assert_eq!(parse_duration("12"), Some(12_000_000));
    assert_eq!(parse_duration("0.000001"), Some(1));
}

#[test]
fn digits_below_a_nanosecond_are_cut_off() {
    assert_eq!(parse_duration("1.23456789"), Some(1_234_567));
    assert_eq!(parse_duration("0.0000009"), Some(0));
}

#[test]
fn leading_zeros_do_not_count() {
    assert_eq!(parse_duration("0000000000000000000000000001.000"), Some(1_000_000));
}

#[test]
fn a_power_of_ten_scales_the_milliseconds() {
    assert_eq!(parse_duration("1e5"), Some(100_000_000_000));
    assert_eq!(parse_duration("1E5"), Some(100_000_000_000));
    assert_eq!(parse_duration("12e0"), Some(12_000_000));
    assert_eq!(parse_duration("012e003"), Some(12_000_000_000));
    assert_eq!(parse_duration("1e13"), Some(10_000_000_000_000_000_000));
    assert_eq!(parse_duration("18446744073709e0"), Some(18_446_744_073_709_000_000));
}

#[test]
fn nothing_times_any_power_of_ten_is_nothing() {
    assert_eq!(parse_duration("0e0"), Some(0));
    assert_eq!(parse_duration("000e99999999999999999999999999"), Some(0));
}

#[test]
fn a_power_of_ten_too_large_is_refused() {
    assert_eq!(parse_duration("2e13"), None);
    assert_eq!(parse_duration("1e14"), None);
    assert_eq!(parse_duration("1e19"), None);
    assert_eq!(parse_duration("1e20"), None);
    assert_eq!(parse_duration("1e99999999999999999999999999"), None);
    assert_eq!(parse_duration("18446744073710e0"), None);
}

#[test]
fn an_exponent_is_digits_only() {
    assert_eq!(parse_duration("1e"), None);
    assert_eq!(parse_duration("e5"), None);
    assert_eq!(parse_duration("1e-5"), None);
    assert_eq!(parse_duration("1e+5"), None);
    assert_eq!(parse_duration("1e5x"), None);
    assert_eq!(parse_duration("1.5e3"), None);
    assert_eq!(parse_duration("1e1.5"), None);
}

#[test]
fn what_is_no_decimal_number_is_refused() {
    assert_eq!(parse_duration(""), None);
    assert_eq!(parse_duration("."), None);
    assert_eq!(parse_duration("1."), None);
    assert_eq!(parse_duration(".5"), None);
    assert_eq!(parse_duration("1,5"), None);
    assert_eq!(parse_duration("1.5.2"), None);
    assert_eq!(parse_duration("1x5"), None);
    assert_eq!(parse_duration("-1.5"), None);
    assert_eq!(parse_duration("+1.5"), None);
    assert_eq!(parse_duration(" 1.5"), None);
    assert_eq!(parse_duration("1.5 "), None);
    assert_eq!(parse_duration("١.٥"), None);
    assert_eq!(parse_duration("1.x"), None);
}

#[test]
fn the_largest_time_is_the_largest_u64() {
    assert_eq!(parse_duration("18446744073709.551615"), Some(u64::MAX));
    assert_eq!(parse_duration("18446744073709.5516159"), Some(u64::MAX));
    assert_eq!(parse_duration("18446744073709.551616"), None);
    assert_eq!(parse_duration("18446744073710"), None);
    assert_eq!(parse_duration("18446744073709"), Some(18_446_744_073_709_000_000));
    assert_eq!(parse_duration("99999999999999999999999999999999999999.0"), None);
}
