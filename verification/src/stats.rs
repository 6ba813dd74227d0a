//! The samples of many plugins under their names.

use vstd::prelude::*;
use vstd::string::StringExecFns;
use crate::accumulator::{lemma_samples_at, samples_of};
use crate::plugin::Record;
use crate::plugins::{all_measured, averages, is_extreme};
use crate::statistics::{
    average, deviation, mean, median, middle_value, standard_deviation,
};
use crate::timing::{distinct_names, lists};

verus! {

/// Samples by name: for each name the start-up times measured for it.
pub struct Stats {
    data: Vec<(String, Vec<u64>)>,
}

impl Stats {
    /// The names and their samples, as values.
    pub closed spec fn records(&self) -> Seq<Record> {
        self.data.deep_view()
    }

    /// The samples can be looked up by name: no name stands twice.
    pub open spec fn well_formed(&self) -> bool {
        distinct_names(self.records())
    }

    /// `key` has samples.
    pub open spec fn measured(&self, key: Seq<char>) -> bool {
        samples_of(self.records(), key).len() > 0
    }

    /// The statistics of these samples, which stand under distinct names.
    pub fn new(data: Vec<(String, Vec<u64>)>) -> (stats: Stats)
        requires
            distinct_names(data.deep_view()),
        ensures
            stats.well_formed(),
            stats.records() == data.deep_view(),
    {
        Stats { data }
    }

    /// The samples of `key`.
    fn samples(&self, key: &str) -> (times: &Vec<u64>)
        requires
            self.well_formed(),
            self.measured(key@),
        ensures
            times@ == samples_of(self.records(), key@),
    {
        let name = String::from_str(key);
        let mut p: usize = 0;
        while p < self.data.len()
            invariant
                p <= self.data.len(),
                name@ == key@,
                self.well_formed(),
                forall|q: int| 0 <= q < p ==> (#[trigger] self.data.deep_view()[q]).0 != key@,
            decreases self.data.len() - p,
        {
            if self.data[p].0 == name {
                proof {
                    lemma_samples_at(self.data.deep_view(), p as int);
                    assert(self.data@[p as int].1.deep_view() =~= self.data@[p as int].1@);
                }
                return &self.data[p].1;
            }
            p += 1;
        }
        proof {
            // a name without an entry has no samples
            if lists(self.records(), key@) {
                let q = choose|q: int|
                    0 <= q < self.records().len() && (#[trigger] self.records()[q]).0 == key@;
                assert(self.data.deep_view()[q].0 == key@);
            }
            assert(false);
        }
        &self.data[0].1
    }

    /// Compute the average plugin start time.
    pub fn average(&self, key: &str) -> (m: u64)
        requires
            self.well_formed(),
            self.measured(key@),
        ensures
            m == mean(samples_of(self.records(), key@)),
    {
        average(self.samples(key))
    }

    /// Compute the standard deviation among all plugin start times.
    pub fn deviation(&self, key: &str) -> (d: u64)
        requires
            self.well_formed(),
            self.measured(key@),
        ensures
            d == deviation(samples_of(self.records(), key@)),
    {
        standard_deviation(self.samples(key))
    }

    /// Compute the median plugin start time.
    pub fn median(&self, key: &str) -> (m: u64)
        requires
            self.well_formed(),
            self.measured(key@),
        ensures
            m == median(samples_of(self.records(), key@)),
    {
        middle_value(self.samples(key))
    }

    /// The entry whose average is the largest (or, where `least`, the
    /// smallest), the first of them.
    fn extreme(&self, least: bool) -> (found: (String, u64))
        requires
            self.records().len() > 0,
            all_measured(self.records()),
        ensures
            is_extreme(averages(self.records()), found.1 as nat, least),
            exists|p: int|
                0 <= p < self.records().len() && (#[trigger] self.records()[p]).0 == found.0@
                    && mean(self.records()[p].1) == found.1,
    {
        let ghost records = self.data.deep_view();
        let ghost values = averages(records);
        assert(records[0].1.len() > 0);
        let mut best: usize = 0;
        assert(self.data@[0].1.deep_view() =~= self.data@[0].1@);
        let mut value = average(&self.data[0].1);
        let mut i: usize = 1;
        assert(values[0] == value);
        while i < self.data.len()
            invariant
                1 <= i <= self.data.len(),
                records == self.data.deep_view(),
                values == averages(records),
                all_measured(records),
                best < i,
                values[best as int] == value,
                forall|k: int|
                    0 <= k < i ==> if least {
                        value <= #[trigger] values[k]
                    } else {
                        values[k] <= value
                    },
            decreases self.data.len() - i,
        {
            assert(records[i as int].1.len() > 0);
            assert(self.data@[i as int].1.deep_view() =~= self.data@[i as int].1@);
            let m = average(&self.data[i].1);
            assert(values[i as int] == m);
            if (least && m < value) || (!least && m > value) {
                best = i;
                value = m;
            }
            i += 1;
        }
        let name = self.data[best].0.clone();
        assert(records[best as int].0 == name@);
        (name, value)
    }

    /// Retrieve the plugin with the longest start time.
    pub fn longest(&self) -> (found: (String, u64))
        requires
            self.records().len() > 0,
            all_measured(self.records()),
        ensures
            is_extreme(averages(self.records()), found.1 as nat, false),
            exists|p: int|
                0 <= p < self.records().len() && (#[trigger] self.records()[p]).0 == found.0@
                    && mean(self.records()[p].1) == found.1,
    {
        self.extreme(false)
    }

    /// Retrieve the plugin with the shortest start time.
    pub fn shortest(&self) -> (found: (String, u64))
        requires
            self.records().len() > 0,
            all_measured(self.records()),
        ensures
            is_extreme(averages(self.records()), found.1 as nat, true),
            exists|p: int|
                0 <= p < self.records().len() && (#[trigger] self.records()[p]).0 == found.0@
                    && mean(self.records()[p].1) == found.1,
    {
        self.extreme(true)
    }
}

} // verus!
