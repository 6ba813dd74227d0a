use vim_profiler::plugin::Plugin;
use vim_profiler::plugins::Plugins;

fn nanos(millis: f64) -> u64 {
    (millis * 1_000_000.0).round() as u64
}

fn whole_nanos(millis: f64) -> u64 {
    (millis * 1_000_000.0).floor() as u64
}

struct Fixture {
    key: String,
    average: f64,
    median: f64,
    deviation: f64,
}

impl Fixture {
    fn new(key: &str, average: f64, median: f64, deviation: f64) -> Self {
        Self { key: key.to_owned(), average, median, deviation }
    }
}

fn setup() -> (Vec<Plugin>, Vec<Fixture>) {
    let fake: Vec<(String, Vec<f64>)> = vec![
        (String::from("vim-rooter"), vec![2.0, 5.2, 9.2, 10.5]),
        (String::from("vim-prettier"), vec![4.0, 5.3, 3.5, 19.2]),
        (String::from("vim-just"), vec![5.0, 2.0, 4.2, 7.8]),
    ];

    let res = vec![
        Fixture::new("vim-rooter", 6.72500, 7.2, 3.355126674210677),
        Fixture::new("vim-prettier", 8.0, 4.65, 6.4996153732355575),
        Fixture::new("vim-just", 4.75, 4.6, 2.0754517580517255),
    ];

    let plugins = fake
        .into_iter()
        .map(|(name, times)| Plugin {
            name,
            times: times.into_iter().map(nanos).collect(),
        })
        .collect();

    (plugins, res)
}

fn find<'a>(plugins: &'a [Plugin], key: &str) -> &'a Plugin {
    plugins.iter().find(|p| p.name == key).unwrap()
}

#[test]
fn plugin_average() {
    let (plugins, res) = setup();

    for fixture in res {
        assert_eq!(find(&plugins, &fixture.key).average(), nanos(fixture.average));
    }
}

#[test]
fn plugin_median() {
    let (plugins, res) = setup();

    for fixture in res {
        assert_eq!(find(&plugins, &fixture.key).median(), nanos(fixture.median));
    }
}

#[test]
fn plugin_deviation() {
    let (plugins, res) = setup();

    for fixture in res {
        assert_eq!(
            find(&plugins, &fixture.key).deviation(),
            whole_nanos(fixture.deviation)
        );
    }
}

#[test]
fn plugin_max() {
    let (plugins, _) = setup();
    assert_eq!(
        plugins.iter().map(|v| v.to_owned()).collect::<Vec<Plugin>>().max(),
        nanos(8.0)
    );
}

#[test]
fn plugin_min() {
    let (plugins, _) = setup();
    assert_eq!(
        plugins.iter().map(|v| v.to_owned()).collect::<Vec<Plugin>>().min(),
        nanos(4.75)
    );
}

#[test]
fn longest_sample_of_each_plugin() {
    let (plugins, _) = setup();
    assert_eq!(find(&plugins, "vim-rooter").max(), nanos(10.5));
    assert_eq!(find(&plugins, "vim-prettier").max(), nanos(19.2));
    assert_eq!(find(&plugins, "vim-just").max(), nanos(7.8));
}

#[test]
fn shortest_sample_of_each_plugin() {
    let (plugins, _) = setup();
    assert_eq!(find(&plugins, "vim-rooter").min(), nanos(2.0));
    assert_eq!(find(&plugins, "vim-prettier").min(), nanos(3.5));
    assert_eq!(find(&plugins, "vim-just").min(), nanos(2.0));
}

#[test]
fn statistics_of_four_samples() {
    let plugin = Plugin::new(
        String::from("vim-rooter"),
        vec![2_000_000, 5_200_000, 9_200_000, 10_500_000],
    );
    assert_eq!(plugin.average(), 6_725_000);
    assert_eq!(plugin.median(), 7_200_000);
    assert_eq!(plugin.deviation(), 3_355_126);
    assert_eq!(plugin.max(), 10_500_000);
    assert_eq!(plugin.min(), 2_000_000);
}

#[test]
fn statistics_of_one_sample() {
    let plugin = Plugin::new(String::from("solo"), vec![42]);
    assert_eq!(plugin.average(), 42);
    assert_eq!(plugin.median(), 42);
    assert_eq!(plugin.deviation(), 0);
    assert_eq!(plugin.max(), 42);
    assert_eq!(plugin.min(), 42);
}

#[test]
fn median_of_odd_count_is_the_middle_sample() {
    let plugin = Plugin::new(String::from("odd"), vec![9, 1, 5]);
    assert_eq!(plugin.median(), 5);
}

#[test]
fn median_of_even_count_rounds_down() {
    let plugin = Plugin::new(String::from("even"), vec![4, 1, 2, 3]);
    assert_eq!(plugin.median(), 2);
}

#[test]
fn average_rounds_down() {
    let plugin = Plugin::new(String::from("thirds"), vec![1, 1, 2]);
    assert_eq!(plugin.average(), 1);
}

#[test]
fn deviation_divides_by_the_number_of_samples() {
    // squared distances from the mean 5: 9 + 1 + 1 + 9 = 20; 20 / 4 = 5
    let plugin = Plugin::new(String::from("population"), vec![2, 4, 6, 8]);
    assert_eq!(plugin.deviation(), 2);
    // divided by three the variance would be 6 and still give 2; take a
    // case that tells the two apart: 0 and 6 have variance 9, not 18
    let pair = Plugin::new(String::from("pair"), vec![0, 6]);
    assert_eq!(pair.deviation(), 3);
}

#[test]
fn statistics_hold_at_the_largest_samples() {
    let plugin = Plugin::new(String::from("huge"), vec![u64::MAX, u64::MAX, 0, 0]);
    assert_eq!(plugin.average(), u64::MAX / 2);
    assert_eq!(plugin.median(), u64::MAX / 2);
    assert_eq!(plugin.max(), u64::MAX);
    assert_eq!(plugin.min(), 0);
    // every sample lies within one of half the range from the mean
    let half = (u64::MAX / 2) as u128;
    let d = plugin.deviation() as u128;
    assert!(half <= d && d <= half + 1);
}

#[test]
fn copy_keeps_name_and_samples() {
    let plugin = Plugin::new(String::from("twin"), vec![3, 1, 2]);
    let twin = plugin.copy();
    assert_eq!(twin.name, "twin");
    assert_eq!(twin.times, vec![3, 1, 2]);
}
