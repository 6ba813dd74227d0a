use vim_profiler::stats::Stats;

fn nanos(millis: f64) -> u64 {
    (millis * 1_000_000.0).round() as u64
}

fn whole_nanos(millis: f64) -> u64 {
    (millis * 1_000_000.0).floor() as u64
}

fn setup() -> (Stats, Vec<(String, f64, f64, f64)>) {
    let fake: Vec<(String, Vec<f64>)> = vec![
        (String::from("vim-rooter"), vec![2.0, 5.2, 9.2, 10.5]),
        (String::from("vim-prettier"), vec![4.0, 5.3, 3.5, 19.2]),
        (String::from("vim-just"), vec![5.0, 2.0, 4.2, 7.8]),
        (String::from("vim-airline"), vec![6.0, 5.1, 5.2, 9.0]),
    ];

    let res = vec![
        (String::from("vim-rooter"), 6.72500, 7.2, 3.355126674210677),
        (String::from("vim-prettier"), 8.0, 4.65, 6.4996153732355575),
        (String::from("vim-just"), 4.75, 4.6, 2.0754517580517255),
        (String::from("vim-airline"), 6.32500, 5.6, 1.5833114033569011),
    ];

    let data = fake
        .into_iter()
        .map(|(a, b)| (a, b.into_iter().map(nanos).collect()))
        .collect();

    (Stats::new(data), res)
}

#[test]
fn stats_average() {
    let (stats, res) = setup();

    for (key, avg, _, _) in res {
        assert_eq!(stats.average(&key), nanos(avg));
    }
}

#[test]
fn stats_median() {
    let (stats, res) = setup();

    for (key, _, median, _) in res {
        assert_eq!(stats.median(&key), nanos(median));
    }
}

#[test]
fn stats_deviation() {
    let (stats, res) = setup();

    for (key, _, _, deviation) in res {
        assert_eq!(stats.deviation(&key), whole_nanos(deviation));
    }
}

#[test]
fn longest() {
    let (stats, _) = setup();
    assert_eq!(stats.longest(), (String::from("vim-prettier"), nanos(8.0)));
}

#[test]
fn shortest() {
    let (stats, _) = setup();
    assert_eq!(stats.shortest(), (String::from("vim-just"), nanos(4.75)));
}

#[test]
fn longest_and_shortest_of_one_entry_are_that_entry() {
    let stats = Stats::new(vec![(String::from("only"), vec![3, 5])]);
    assert_eq!(stats.longest(), (String::from("only"), 4));
    assert_eq!(stats.shortest(), (String::from("only"), 4));
}
