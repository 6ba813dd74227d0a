//! The summary table of a run, line by line.

use vstd::prelude::*;
use crate::format::{millis_text, numeral, numeral_of, padded, push_millis, push_padded};
use crate::plugin::{Plugin, Record};
use crate::plugins::{all_measured, widest, Plugins};
use crate::statistics::mean;
use crate::text::{chars_of, string_of};
use crate::utils::{repeat, repeated};

verus! {

/// How many plugins the table lists where no number is given.
pub const DEFAULT_COUNT: usize = 10;

/// How many digits stand behind the point where no number is given.
pub const DEFAULT_PRECISION: usize = 2;

/// The layout of the summary table.
#[derive(Debug)]
pub struct Printer {
    pub reverse: bool,
    pub count: Option<usize>,
    pub prec: Option<usize>,
}

impl Printer {
    /// A table that announces the fastest plugins where `reverse` is set,
    /// lists `count` plugins and shows `prec` digits behind the point.
    pub fn new(reverse: bool, count: Option<usize>, prec: Option<usize>) -> (p: Printer)
        ensures
            p.reverse == reverse,
            p.count == count,
            p.prec == prec,
    {
        Printer { reverse, count, prec }
    }

    /// The number of digits behind the point.
    pub open spec fn precision(self) -> nat {
        match self.prec {
            Some(p) => p as nat,
            None => DEFAULT_PRECISION as nat,
        }
    }

    /// The plugins that the table lists: the first ones, as many as asked for.
    pub open spec fn listed(self, records: Seq<Record>) -> Seq<Record> {
        let limit = match self.count {
            Some(c) => c as int,
            None => DEFAULT_COUNT as int,
        };
        if records.len() <= limit {
            records
        } else {
            records.take(limit)
        }
    }

    /// The line above the table.
    pub open spec fn header(self, listed: nat) -> Seq<char> {
        "Top "@ + numeral(listed) + " "@ + (if self.reverse {
            "fastest"@
        } else {
            "slowest"@
        }) + " (n)vim plugins."@
    }

    /// The line of the plugin at `i` of `listed`: its rank, its name and its
    /// average in milliseconds, the first two in columns. A name is filled up
    /// with blanks to as many characters as the longest name has bytes.
    pub open spec fn row(self, listed: Seq<Record>, name_width: nat, i: int) -> Seq<char> {
        padded(numeral((i + 1) as nat), numeral(listed.len()).len() + 2) + " "@ + padded(
            listed[i].0,
            name_width,
        ) + " "@ + millis_text(mean(listed[i].1), self.precision())
    }

    /// `lines` is the summary of the records: the header, a rule as long as
    /// the header, a row for each listed plugin, and the rule again.
    pub open spec fn summarizes(self, records: Seq<Record>, lines: Seq<Seq<char>>) -> bool {
        let listed = self.listed(records);
        let header = self.header(listed.len());
        let rule = repeated("="@, header.len());
        &&& lines.len() == listed.len() + 3
        &&& lines[0] == header
        &&& lines[1] == rule
        &&& lines.last() == rule
        &&& forall|i: int|
            0 <= i < listed.len() ==> #[trigger] lines[i + 2] == self.row(
                listed,
                widest(listed),
                i,
            )
    }

    /// The lines of the summary table of `plugins`, which stand in the order
    /// of their ranking.
    pub fn summary(&self, plugins: &Vec<Plugin>) -> (lines: Vec<String>)
        requires
            all_measured(plugins.deep_view()),
        ensures
            self.summarizes(plugins.deep_view(), lines.deep_view()),
    {
        let limit = match self.count {
            Some(c) => c,
            None => DEFAULT_COUNT,
        };
        let precision = match self.prec {
            Some(p) => p,
            None => DEFAULT_PRECISION,
        };
        let mut shown = crate::plugins::copy_all(plugins);
        shown.truncate(limit);
        let ghost listed = self.listed(plugins.deep_view());
        assert(shown.deep_view() =~= listed);
        let mut head: Vec<char> = chars_of("Top ");
        let mut count_text = numeral_of(shown.len());
        head.append(&mut count_text);
        head.push(' ');
        let mut order = chars_of(if self.reverse { "fastest" } else { "slowest" });
        head.append(&mut order);
        let mut tail = chars_of(" (n)vim plugins.");
        head.append(&mut tail);
        proof {
            reveal_strlit(" ");
            assert(head@ =~= self.header(listed.len()));
        }
        let header = string_of(&head);
        let rule = repeat("=", head.len());
        let mut lines: Vec<String> = Vec::new();
        lines.push(header);
        lines.push(rule.clone());
        if shown.len() > 0 {
            let name_width = shown.len_largest();
            let rank_width = numeral_of(shown.len()).len() + 2;
            let mut i: usize = 0;
            while i < shown.len()
                invariant
                    i <= shown.len(),
                    shown.deep_view() == listed,
                    all_measured(listed),
                    lines.len() == i + 2,
                    rank_width == numeral(listed.len()).len() + 2,
                    precision == self.precision(),
                    name_width == widest(listed),
                    forall|k: int|
                        0 <= k < i ==> #[trigger] lines.deep_view()[k + 2] == self.row(
                            listed,
                            name_width as nat,
                            k,
                        ),
                    lines.deep_view()[0] == self.header(listed.len()),
                    lines.deep_view()[1] == rule@,
                decreases shown.len() - i,
            {
                let ghost so_far = lines.deep_view();
                let mut line: Vec<char> = Vec::new();
                let rank = numeral_of(i + 1);
                push_padded(&mut line, &rank, rank_width);
                line.push(' ');
                let name = chars_of(shown[i].name.as_str());
                push_padded(&mut line, &name, name_width);
                line.push(' ');
                assert(listed[i as int].1.len() > 0);
                push_millis(&mut line, shown[i].average(), precision);
                proof {
                    reveal_strlit(" ");
                    assert(" "@ =~= seq![' ']);
                    assert(line@ =~= self.row(listed, name_width as nat, i as int));
                }
                lines.push(string_of(&line));
                proof {
                    let now = lines.deep_view();
                    assert forall|k: int| 0 <= k < i + 1 implies #[trigger] now[k + 2] == self.row(
                        listed,
                        name_width as nat,
                        k,
                    ) by {
                        if k < i {
                            assert(now[k + 2] == so_far[k + 2]);
                        }
                    }
                    assert(now[0] == so_far[0]);
                    assert(now[1] == so_far[1]);
                }
                i += 1;
            }
        }
        let ghost rows = lines.deep_view();
        lines.push(rule);
        proof {
            let all = lines.deep_view();
            assert forall|k: int| 0 <= k < rows.len() implies all[k] == rows[k] by {}
            assert(all[0] == rows[0]);
            assert(all[1] == rows[1]);
            if listed.len() > 0 {
                assert forall|k: int| 0 <= k < listed.len() implies #[trigger] all[k + 2]
                    == rows[k + 2] by {}
            }
        }
        lines
    }
}

} // verus!
