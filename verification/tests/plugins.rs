use vim_profiler::plugin::Plugin;
use vim_profiler::plugins::{copy_all, Plugins};

fn nanos(millis: f64) -> u64 {
    (millis * 1_000_000.0).round() as u64
}

fn setup() -> Vec<Plugin> {
    [
        (String::from("vim-rooter"), vec![2.0, 5.2, 9.2, 10.5]),
        (String::from("vim-prettier"), vec![4.0, 5.3, 3.5, 19.2]),
        (String::from("vim-just"), vec![5.0, 2.0, 4.2, 7.8]),
    ]
    .iter()
    .map(|(a, b)| Plugin {
        name: a.to_owned(),
        times: b.iter().map(|t| nanos(*t)).collect(),
    })
    .collect()
}

#[test]
fn sort() {
    let mut plugins = setup();

    let order = [
        String::from("vim-prettier"),
        String::from("vim-rooter"),
        String::from("vim-just"),
    ];

    for (i, plugin) in plugins.sort(false).iter().enumerate() {
        assert_eq!(plugin.name, order[i]);
    }
}

#[test]
fn sort_reversed() {
    let mut plugins = setup();

    let order = [
        String::from("vim-just"),
        String::from("vim-rooter"),
        String::from("vim-prettier"),
    ];

    for (i, plugin) in plugins.sort(true).iter().enumerate() {
        assert_eq!(plugin.name, order[i]);
    }
}

#[test]
fn plugins_max() {
    let plugins = setup();
    assert_eq!(plugins.max(), nanos(8.0));
}

#[test]
fn plugins_min() {
    let plugins = setup();
    assert_eq!(plugins.min(), nanos(4.75));
}

#[test]
fn len_largest() {
    let plugins = setup();
    assert_eq!(plugins.len_largest(), 12_usize);
}

#[test]
fn sort_ranks_in_place_too() {
    let mut plugins = setup();
    let sorted = plugins.sort(false);
    let averages: Vec<u64> = plugins.iter().map(|p| p.average()).collect();
    assert_eq!(averages, vec![8_000_000, 6_725_000, 4_750_000]);
    let copied: Vec<u64> = sorted.iter().map(|p| p.average()).collect();
    assert_eq!(copied, averages);
    let reverse: Vec<u64> = plugins.sort(true).iter().map(|p| p.average()).collect();
    assert_eq!(reverse, vec![4_750_000, 6_725_000, 8_000_000]);
}

#[test]
fn sort_leaves_ties_as_they_stood() {
    let mut plugins = vec![
        Plugin::new(String::from("b"), vec![2]),
        Plugin::new(String::from("first"), vec![5]),
        Plugin::new(String::from("a"), vec![9]),
        Plugin::new(String::from("second"), vec![4, 6]),
        Plugin::new(String::from("third"), vec![5, 5, 5]),
    ];
    let names: Vec<String> = plugins.sort(false).into_iter().map(|p| p.name).collect();
    assert_eq!(names, vec!["a", "first", "second", "third", "b"]);
    let names: Vec<String> = plugins.sort(true).into_iter().map(|p| p.name).collect();
    assert_eq!(names, vec!["b", "first", "second", "third", "a"]);
}

#[test]
fn sort_of_nothing_is_nothing() {
    let mut plugins: Vec<Plugin> = Vec::new();
    assert!(plugins.sort(false).is_empty());
    assert!(plugins.is_empty());
}

#[test]
fn len_largest_counts_bytes() {
    let plugins = vec![
        Plugin::new(String::from("naïveté"), vec![1]),
        Plugin::new(String::from("plain"), vec![1]),
    ];
    assert_eq!(plugins.len_largest(), 9);
    assert_eq!(plugins.len_largest(), "naïveté".len());
    let one = vec![Plugin::new(String::from("\u{e9}"), vec![1])];
    assert_eq!(one.len_largest(), 2);
    let wide = vec![
        Plugin::new(String::from("a"), vec![1]),
        Plugin::new(String::from("\u{7ff}\u{800}"), vec![1]),
        Plugin::new(String::from("\u{ffff}"), vec![1]),
        Plugin::new(String::from("\u{10000}\u{7f}"), vec![1]),
        Plugin::new(String::new(), vec![1]),
    ];
    assert_eq!(wide.len_largest(), 5);
}

#[test]
fn copy_all_keeps_every_plugin() {
    let plugins = setup();
    let copies = copy_all(&plugins);
    assert_eq!(copies.len(), 3);
    for (a, b) in plugins.iter().zip(copies.iter()) {
        assert_eq!(a.name, b.name);
        assert_eq!(a.times, b.times);
    }
}
