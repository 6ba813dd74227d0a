use vim_profiler::utils;

#[test]
fn test_repeat() {
    let cases = vec![
        ("-", 5, "-----"),
        ("=", 10, "=========="),
        ("a", 12, "aaaaaaaaaaaa"),
    ];

    for (a, b, c) in cases {
        assert_eq!(utils::repeat(a, b), c);
    }
}

#[test]
fn repeat_zero_times_is_empty() {
    assert_eq!(utils::repeat("abc", 0), "");
}

#[test]
fn repeat_keeps_longer_strings_whole() {
    assert_eq!(utils::repeat("ab", 3), "ababab");
}
