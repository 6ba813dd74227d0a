//! One plugin and the samples measured for it.

use vstd::prelude::*;
use crate::statistics::{
    average, deviation, is_max, is_min, is_root, largest, maximum, mean, median, middle_value,
    minimum, smallest, standard_deviation, variance,
};

verus! {

/// A plugin as a value: its name and its samples in nanoseconds.
pub type Record = (Seq<char>, Seq<u64>);

/// A plugin (or system script) with the start-up time measured for it in each
/// run that sourced it.
#[derive(Debug, Clone)]
pub struct Plugin {
    pub name: String,
    pub times: Vec<u64>,
}

impl View for Plugin {
    type V = Record;

    open spec fn view(&self) -> Record {
        (self.name@, self.times@)
    }
}

impl DeepView for Plugin {
    type V = Record;

    open spec fn deep_view(&self) -> Record {
        (self.name@, self.times@)
    }
}

impl Plugin {
    /// The plugin has at least one sample, as every plugin of a finished run has.
    pub open spec fn measured(&self) -> bool {
        self.times@.len() > 0
    }

    /// A plugin of this name with these samples.
    pub fn new(name: String, times: Vec<u64>) -> (p: Plugin)
        ensures
            p.name == name,
            p.times == times,
    {
        Plugin { name, times }
    }

    /// A plugin with the same name and samples.
    pub fn copy(&self) -> (p: Plugin)
        ensures
            p@ == self@,
    {
        let times = self.times.clone();
        assert(times@ =~= self.times@);
        Plugin { name: self.name.clone(), times }
    }

    /// Compute the average plugin start time.
    pub fn average(&self) -> (m: u64)
        requires
            self.measured(),
        ensures
            m == mean(self.times@),
    {
        average(&self.times)
    }

    /// Compute the standard deviation among all plugin start times.
    pub fn deviation(&self) -> (d: u64)
        requires
            self.measured(),
        ensures
            is_root(d as nat, variance(self.times@)),
            d == deviation(self.times@),
    {
        standard_deviation(&self.times)
    }

    /// Compute the median plugin start time.
    pub fn median(&self) -> (m: u64)
        requires
            self.measured(),
        ensures
            m == median(self.times@),
    {
        middle_value(&self.times)
    }

    /// Compute the longest plugin start time.
    pub fn max(&self) -> (m: u64)
        requires
            self.measured(),
        ensures
            is_max(self.times@, m),
            m == maximum(self.times@),
    {
        largest(&self.times)
    }

    /// Compute the shortest plugin start time.
    pub fn min(&self) -> (m: u64)
        requires
            self.measured(),
        ensures
            is_min(self.times@, m),
            m == minimum(self.times@),
    {
        smallest(&self.times)
    }
}

} // verus!
