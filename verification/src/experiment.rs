//! One experiment variant: its letter, its scripts, and its two sample
//! stores (durations in nanoseconds, peak memory in bytes).

use vstd::prelude::*;
use crate::numbers::Numbers;

verus! {

/// The letter of a variant.  Variant `A` is the baseline.
#[derive(Clone, Copy, PartialEq, Eq, Structural, Debug)]
pub enum ExperimentName {
    A,
    B,
    C,
    D,
}

impl ExperimentName {
    /// The ANSI color assigned to this variant's output.
    pub open spec fn spec_color(self) -> Seq<char> {
        match self {
            ExperimentName::A => "\u{1b}[31m"@,
            ExperimentName::B => "\u{1b}[32m"@,
            ExperimentName::C => "\u{1b}[34m"@,
            ExperimentName::D => "\u{1b}[35m"@,
        }
    }

    /// The letter of the variant, for labels.
    pub open spec fn spec_letter(self) -> Seq<char> {
        match self {
            ExperimentName::A => "A"@,
            ExperimentName::B => "B"@,
            ExperimentName::C => "C"@,
            ExperimentName::D => "D"@,
        }
    }

    /// The ANSI color escape of this variant.
    pub fn color(&self) -> (r: &'static str)
        ensures
            r@ == self.spec_color(),
    {
        match self {
            ExperimentName::A => "\u{1b}[31m",
            ExperimentName::B => "\u{1b}[32m",
            ExperimentName::C => "\u{1b}[34m",
            ExperimentName::D => "\u{1b}[35m",
        }
    }

    /// The letter of the variant.
    pub fn letter(&self) -> (r: &'static str)
        ensures
            r@ == self.spec_letter(),
    {
        match self {
            ExperimentName::A => "A",
            ExperimentName::B => "B",
            ExperimentName::C => "C",
            ExperimentName::D => "D",
        }
    }
}

/// The highlight strings handed to the plot renderer: what to emit before
/// a non-zero cell, before a zero cell, and to reset.
pub struct PlotHighlight {
    pub non_zero: String,
    pub zero: String,
    pub reset: String,
}

/// One variant under measurement: its letter, its warmup and run scripts,
/// and its samples.
pub struct Experiment {
    pub name: ExperimentName,
    pub warmup: String,
    pub run: String,
    pub durations: Numbers,
    pub mem_usages: Numbers,
}

impl Experiment {
    /// Both stores are well-formed.
    pub open spec fn wf(&self) -> bool {
        &&& self.durations.wf()
        &&& self.mem_usages.wf()
    }

    /// A fresh variant with empty stores.
    pub fn new(name: ExperimentName, warmup: String, run: String) -> (r: Experiment)
        ensures
            r.wf(),
            r.name == name,
            r.warmup == warmup,
            r.run == run,
            r.durations.raw_view().len() == 0,
            r.mem_usages.raw_view().len() == 0,
    {
        Experiment { name, warmup, run, durations: Numbers::new(), mem_usages: Numbers::new() }
    }

    /// The highlights of the full-resolution plot: the variant's color for
    /// filled cells, a white background for empty ones.
    pub fn plot_highlights(&self) -> (r: PlotHighlight)
        ensures
            r.non_zero@ == self.name.spec_color(),
            r.zero@ == "\u{1b}[47m"@,
            r.reset@ == "\u{1b}[0m"@,
    {
        PlotHighlight {
            non_zero: self.name.color().to_owned(),
            zero: "\u{1b}[47m".to_owned(),
            reset: "\u{1b}[0m".to_owned(),
        }
    }

    /// The highlights of the half-resolution plot: the variant's color for
    /// filled cells, nothing for empty ones.
    pub fn plot_halves_highlights(&self) -> (r: PlotHighlight)
        ensures
            r.non_zero@ == self.name.spec_color(),
            r.zero@ == ""@,
            r.reset@ == "\u{1b}[0m"@,
    {
        PlotHighlight {
            non_zero: self.name.color().to_owned(),
            zero: "".to_owned(),
            reset: "\u{1b}[0m".to_owned(),
        }
    }

    /// How many successful runs the variant has recorded.
    pub fn runs(&self) -> (r: usize)
        ensures
            r == self.durations.raw_view().len(),
    {
        self.durations.len()
    }

    /// Record one successful run: its duration and its peak memory go to
    /// the variant's stores.
    pub fn record(&mut self, duration_ns: u64, max_rss_bytes: u64)
        requires
            old(self).wf(),
        ensures
            final(self).wf(),
            final(self).durations.raw_view() == old(self).durations.raw_view().push(duration_ns),
            final(self).mem_usages.raw_view() == old(self).mem_usages.raw_view().push(
                max_rss_bytes,
            ),
            final(self).name == old(self).name,
            final(self).warmup == old(self).warmup,
            final(self).run == old(self).run,
    {
        self.durations.push(duration_ns);
        self.mem_usages.push(max_rss_bytes);
    }

    /// Discard every recorded sample, as the ignore-first round does; the
    /// variant itself is kept.
    pub fn clear_stores(&mut self)
        ensures
            final(self).wf(),
            final(self).durations.raw_view().len() == 0,
            final(self).mem_usages.raw_view().len() == 0,
            final(self).name == old(self).name,
            final(self).warmup == old(self).warmup,
            final(self).run == old(self).run,
    {
        self.durations.clear();
        self.mem_usages.clear();
    }
}

} // verus!
