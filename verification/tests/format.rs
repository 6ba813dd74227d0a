use vim_profiler::format::{millis, numeral_of, push_padded};

fn text(chars: Vec<char>) -> String {
    chars.into_iter().collect()
}

#[test]
fn a_time_shows_in_milliseconds() {
    assert_eq!(millis(6_725_000, 3), "6.725");
    assert_eq!(millis(6_725_000, 5), "6.72500");
    assert_eq!(millis(8_000_000, 2), "8.00");
    assert_eq!(millis(29_000, 2), "0.03");
    assert_eq!(millis(0, 2), "0.00");
    assert_eq!(millis(1, 6), "0.000001");
    assert_eq!(millis(1_234_567_891, 6), "1234.567891");
}

#[test]
fn a_time_rounds_to_the_nearest_upwards_from_the_half() {
    assert_eq!(millis(6_725_000, 2), "6.73");
    assert_eq!(millis(6_724_999, 2), "6.72");
    assert_eq!(millis(999_999, 0), "1");
    assert_eq!(millis(499_999, 0), "0");
    assert_eq!(millis(500_000, 0), "1");
    assert_eq!(millis(9_995_000, 2), "10.00");
}

#[test]
fn a_time_gets_zeros_beyond_its_resolution() {
    assert_eq!(millis(3_355_126, 9), "3.355126000");
    assert_eq!(millis(42, 8), "0.00004200");
}

#[test]
fn the_largest_time_shows_whole() {
    assert_eq!(millis(u64::MAX, 6), "18446744073709.551615");
    assert_eq!(millis(u64::MAX, 0), "18446744073710");
    assert_eq!(millis(u64::MAX, 5), "18446744073709.55162");
}

#[test]
fn numerals_have_no_leading_zeros() {
    assert_eq!(text(numeral_of(0)), "0");
    assert_eq!(text(numeral_of(7)), "7");
    assert_eq!(text(numeral_of(10)), "10");
    assert_eq!(text(numeral_of(1_234_567_890)), "1234567890");
    assert_eq!(text(numeral_of(usize::MAX)), usize::MAX.to_string());
}

#[test]
fn padding_fills_up_with_blanks_behind() {
    let mut out = vec!['>'];
    push_padded(&mut out, &vec!['a', 'b'], 4);
    out.push('<');
    assert_eq!(text(out), ">ab  <");
    let mut out = Vec::new();
    push_padded(&mut out, &vec!['a', 'b', 'c'], 2);
    assert_eq!(text(out), "abc");
    let mut out = Vec::new();
    push_padded(&mut out, &Vec::new(), 0);
    assert_eq!(text(out), "");
}
