use vim_profiler::accumulator::accumulate;
use vim_profiler::plugin::Plugin;

fn share(name: &str, time: u64) -> (String, u64) {
    (String::from(name), time)
}

fn pairs(records: &[Plugin]) -> Vec<(&str, Vec<u64>)> {
    records.iter().map(|p| (p.name.as_str(), p.times.clone())).collect()
}

#[test]
fn shares_become_samples() {
    let mut records: Vec<Plugin> = Vec::new();
    accumulate(&mut records, &vec![share("a", 1), share("b", 2)]);
    assert_eq!(pairs(&records), vec![("a", vec![1]), ("b", vec![2])]);
    accumulate(&mut records, &vec![share("b", 3)]);
    assert_eq!(pairs(&records), vec![("a", vec![1]), ("b", vec![2, 3])]);
    accumulate(&mut records, &vec![share("c", 4), share("a", 5)]);
    assert_eq!(
        pairs(&records),
        vec![("a", vec![1, 5]), ("b", vec![2, 3]), ("c", vec![4])]
    );
}

#[test]
fn no_shares_change_nothing() {
    let mut records = vec![Plugin::new(String::from("a"), vec![1])];
    accumulate(&mut records, &Vec::new());
    assert_eq!(pairs(&records), vec![("a", vec![1])]);
}

#[test]
fn a_share_of_zero_is_a_sample_too() {
    let mut records = vec![Plugin::new(String::from("a"), vec![1])];
    accumulate(&mut records, &vec![share("a", 0)]);
    assert_eq!(pairs(&records), vec![("a", vec![1, 0])]);
}
