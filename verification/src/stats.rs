//! Summary statistics: an immutable snapshot of one store's count,
//! extremes, sum, mean, median and standard deviation.

use vstd::prelude::*;
use crate::numbers::Numbers;
use crate::numbers::seq_sum;
use crate::numbers::sq_dev_sum;
use crate::numbers::spec_mean;
use crate::numbers::spec_med;
use crate::numbers::spec_variance;

verus! {

/// A snapshot of a store's summary statistics.  `stddev` is present only
/// when the store held at least two samples.
pub struct Stats {
    pub count: usize,
    pub min: u64,
    pub max: u64,
    pub sum: u64,
    pub mean: u64,
    pub median: u64,
    pub stddev: Option<u64>,
}

impl Numbers {
    /// Assemble the summary statistics of the store; absent only on an
    /// empty store.
    pub fn stats(&self) -> (r: Option<Stats>)
        requires
            self.wf(),
            seq_sum(self.raw_view()) <= u64::MAX,
            sq_dev_sum(self.raw_view(), spec_mean(self.raw_view())) <= u128::MAX,
        ensures
            r is Some <==> self.raw_view().len() > 0,
            self.raw_view().len() > 0 ==> ({
                let st = r.unwrap();
                &&& st.count == self.raw_view().len()
                &&& st.min == self.sorted_view()[0]
                &&& st.max == self.sorted_view()[self.sorted_view().len() - 1]
                &&& st.sum == seq_sum(self.raw_view())
                &&& st.mean == spec_mean(self.raw_view())
                &&& st.median == spec_med(self.sorted_view())
                &&& (st.stddev is Some <==> self.raw_view().len() >= 2)
                &&& (self.raw_view().len() >= 2 ==> (st.stddev.unwrap() as int) * (
                st.stddev.unwrap() as int) <= spec_variance(self.raw_view()) < (
                st.stddev.unwrap() as int + 1) * (st.stddev.unwrap() as int + 1))
            }),
    {
        if self.len() == 0 {
            return None;
        }
        let min = match self.min() {
            Some(v) => v,
            None => {
                return None;
            },
        };
        let max = match self.max() {
            Some(v) => v,
            None => {
                return None;
            },
        };
        let median = match self.med() {
            Some(v) => v,
            None => {
                return None;
            },
        };
        let mean = match self.mean() {
            Some(v) => v,
            None => {
                return None;
            },
        };
        Some(
            Stats {
                count: self.len(),
                min,
                max,
                sum: self.sum(),
                mean,
                median,
                stddev: self.stddev(),
            },
        )
    }
}

} // verus!
