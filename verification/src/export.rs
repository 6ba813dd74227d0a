//! The figures of a run laid out for a delimited file and for a chart.

use vstd::prelude::*;
use vstd::string::StringExecFns;
use crate::format::{millis, millis_text};
use crate::plugin::{Plugin, Record};
use crate::plugins::{all_measured, averages, is_extreme, Plugins};
use crate::statistics::{deviation, maximum, mean, median, minimum};

verus! {

/// The digits behind the point of every figure of a row.
pub const EXPORT_PRECISION: usize = 5;

/// How far below the smallest average a chart begins, in nanoseconds.
pub const CHART_LEAD: u64 = 50_000;

/// How far above the largest average a chart ends, in nanoseconds.
pub const CHART_TRAIL: u64 = 1_000_000;

/// The names of the columns.
pub open spec fn heading() -> Seq<Seq<char>> {
    seq!["Plugin"@, "Max"@, "Min"@, "Median"@, "Average"@, "Deviation"@]
}

/// The row of a plugin: its name, then the largest, the smallest, the median,
/// the average and the deviation of its samples in milliseconds.
pub open spec fn row_of(r: Record) -> Seq<Seq<char>> {
    seq![
        r.0,
        millis_text(maximum(r.1) as nat, EXPORT_PRECISION as nat),
        millis_text(minimum(r.1) as nat, EXPORT_PRECISION as nat),
        millis_text(median(r.1), EXPORT_PRECISION as nat),
        millis_text(mean(r.1), EXPORT_PRECISION as nat),
        millis_text(deviation(r.1), EXPORT_PRECISION as nat),
    ]
}

/// The rows of the table: the heading, then one row for each plugin.
pub open spec fn table(records: Seq<Record>) -> Seq<Seq<Seq<char>>> {
    seq![heading()] + records.map_values(|r: Record| row_of(r))
}

fn row(plugin: &Plugin) -> (cells: Vec<String>)
    requires
        plugin.measured(),
    ensures
        cells.deep_view() == row_of(plugin@),
{
    let mut cells: Vec<String> = Vec::new();
    cells.push(plugin.name.clone());
    cells.push(millis(plugin.max(), EXPORT_PRECISION));
    cells.push(millis(plugin.min(), EXPORT_PRECISION));
    cells.push(millis(plugin.median(), EXPORT_PRECISION));
    cells.push(millis(plugin.average(), EXPORT_PRECISION));
    cells.push(millis(plugin.deviation(), EXPORT_PRECISION));
    assert(cells.deep_view() =~= row_of(plugin@));
    cells
}

/// Lays the statistics of the plugins out as the rows of a delimited file.
pub fn rows(plugins: &Vec<Plugin>) -> (out: Vec<Vec<String>>)
    requires
        all_measured(plugins.deep_view()),
    ensures
        out.deep_view() == table(plugins.deep_view()),
{
    let mut names: Vec<String> = Vec::new();
    names.push(String::from_str("Plugin"));
    names.push(String::from_str("Max"));
    names.push(String::from_str("Min"));
    names.push(String::from_str("Median"));
    names.push(String::from_str("Average"));
    names.push(String::from_str("Deviation"));
    assert(names.deep_view() =~= heading());
    let mut out: Vec<Vec<String>> = Vec::new();
    out.push(names);
    let mut i: usize = 0;
    assert(out.deep_view() =~= table(plugins.deep_view().take(0)));
    while i < plugins.len()
        invariant
            i <= plugins.len(),
            all_measured(plugins.deep_view()),
            out.deep_view() == table(plugins.deep_view().take(i as int)),
        decreases plugins.len() - i,
    {
        assert(plugins.deep_view()[i as int].1.len() > 0);
        let ghost so_far = out.deep_view();
        out.push(row(&plugins[i]));
        assert(out.deep_view() =~= table(plugins.deep_view().take(i + 1))) by {
            let now = out.deep_view();
            let want = table(plugins.deep_view().take(i + 1));
            let records = plugins.deep_view();
            assert(so_far.len() == 1 + records.take(i as int).len());
            assert(now.len() == so_far.len() + 1);
            assert(want.len() == 1 + records.take(i + 1).len());
            assert forall|k: int| 0 <= k < now.len() implies now[k] == want[k] by {
                if k <= i {
                    assert(now[k] == so_far[k]);
                    if k > 0 {
                        assert(so_far[k] == row_of(records.take(i as int)[k - 1]));
                        assert(want[k] == row_of(records.take(i + 1)[k - 1]));
                    }
                } else {
                    assert(want[k] == row_of(records.take(i + 1)[k - 1]));
                }
            }
        }
        i += 1;
    }
    assert(plugins.deep_view().take(i as int) =~= plugins.deep_view());
    out
}

/// The range of a chart of the averages, in nanoseconds: it begins a little
/// below the smallest average and ends well above the largest.
pub fn chart_domain(plugins: &Vec<Plugin>) -> (range: (i128, i128))
    requires
        plugins.deep_view().len() > 0,
        all_measured(plugins.deep_view()),
    ensures
        is_extreme(averages(plugins.deep_view()), (range.0 + CHART_LEAD) as nat, true),
        is_extreme(averages(plugins.deep_view()), (range.1 - CHART_TRAIL) as nat, false),
{
    let low = plugins.min();
    let high = plugins.max();
    (low as i128 - CHART_LEAD as i128, high as i128 + CHART_TRAIL as i128)
}

} // verus!
