use vim_profiler::plugin::Plugin;
use vim_profiler::plugins::Plugins;
use vim_profiler::printer::Printer;

fn nanos(millis: f64) -> u64 {
    (millis * 1_000_000.0).round() as u64
}

fn setup() -> Vec<Plugin> {
    [
        (String::from("vim-rooter"), vec![2.0, 5.2, 9.2, 10.5]),
        (String::from("vim-prettier"), vec![4.0, 5.3, 3.5, 19.2]),
        (String::from("vim-just"), vec![5.0, 2.0, 4.2, 7.8]),
    ]
    .iter()
    .map(|(a, b)| Plugin {
        name: a.to_owned(),
        times: b.iter().map(|t| nanos(*t)).collect(),
    })
    .collect()
}

#[test]
fn printer_keeps_what_it_is_given() {
    let printer = Printer::new(true, Some(3), None);
    assert!(printer.reverse);
    assert_eq!(printer.count, Some(3));
    assert_eq!(printer.prec, None);
}

#[test]
fn summary_lists_the_slowest_first() {
    let plugins = setup().sort(false);
    let lines = Printer::new(false, None, None).summary(&plugins);
    assert_eq!(
        lines,
        vec![
            "Top 3 slowest (n)vim plugins.",
            "=============================",
            "1   vim-prettier 8.00",
            "2   vim-rooter   6.73",
            "3   vim-just     4.75",
            "=============================",
        ]
    );
}

#[test]
fn summary_lists_as_many_as_asked_for() {
    let plugins = setup().sort(true);
    let lines = Printer::new(true, Some(2), Some(4)).summary(&plugins);
    assert_eq!(
        lines,
        vec![
            "Top 2 fastest (n)vim plugins.",
            "=============================",
            "1   vim-just   4.7500",
            "2   vim-rooter 6.7250",
            "=============================",
        ]
    );
}

#[test]
fn summary_of_nothing_is_the_frame() {
    let lines = Printer::new(false, Some(0), None).summary(&setup());
    assert_eq!(
        lines,
        vec![
            "Top 0 slowest (n)vim plugins.",
            "=============================",
            "=============================",
        ]
    );
    let lines = Printer::new(false, None, None).summary(&Vec::new());
    assert_eq!(lines.len(), 3);
}

#[test]
fn summary_stops_at_ten_by_default() {
    let plugins: Vec<Plugin> = (0..12)
        .map(|i| Plugin::new(format!("plug{}", i), vec![1_000_000 * (12 - i)]))
        .collect();
    let lines = Printer::new(false, None, Some(0)).summary(&plugins);
    assert_eq!(lines.len(), 13);
    assert_eq!(lines[0], "Top 10 slowest (n)vim plugins.");
    assert_eq!(lines[1], "=".repeat(30));
    assert_eq!(lines[2], "1    plug0 12");
    assert_eq!(lines[11], "10   plug9 3");
    assert_eq!(lines[12], lines[1]);
}

#[test]
fn summary_sets_the_names_in_a_column_as_wide_as_the_longest_in_bytes() {
    let plugins = vec![
        Plugin::new(String::from("naïveté"), vec![2_000_000]),
        Plugin::new(String::from("plain"), vec![1_000_000]),
    ];
    let lines = Printer::new(false, None, Some(1)).summary(&plugins);
    assert_eq!(
        lines,
        vec![
            "Top 2 slowest (n)vim plugins.",
            "=============================",
            "1   naïveté   2.0",
            "2   plain     1.0",
            "=============================",
        ]
    );
}
