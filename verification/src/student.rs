//! The Student-t table: two-sided 95% critical values by degrees of
//! freedom, in thousandths, with the asymptotic value beyond the last
//! explicit entry.

use vstd::prelude::*;
use vstd::arithmetic::div_mod::lemma_div_by_self;
use vstd::arithmetic::div_mod::lemma_div_is_ordered;

verus! {

/// The confidence level of a critical value.  Only the two-sided 95%
/// level is supported.
#[derive(Clone, Copy, PartialEq, Eq, Structural, Debug)]
pub enum Confidence {
    TwoSided95,
}

/// The two-sided 95% critical value for `df` degrees of freedom, in
/// thousandths: `t_milli(1) == 12706` stands for 12.706.  Beyond the last
/// explicit entry the table yields the asymptotic value 1960.
pub open spec fn t_milli(df: int) -> int {
    if df <= 1 {
        12706
    } else if df == 2 {
        4303
    } else if df == 3 {
        3182
    } else if df == 4 {
        2776
    } else if df == 5 {
        2571
    } else if df == 6 {
        2447
    } else if df == 7 {
        2365
    } else if df == 8 {
        2306
    } else if df == 9 {
        2262
    } else if df == 10 {
        2228
    } else if df == 11 {
        2201
    } else if df == 12 {
        2179
    } else if df == 13 {
        2160
    } else if df == 14 {
        2145
    } else if df == 15 {
        2131
    } else if df == 16 {
        2120
    } else if df == 17 {
        2110
    } else if df == 18 {
        2101
    } else if df == 19 {
        2093
    } else if df == 20 {
        2086
    } else if df == 21 {
        2080
    } else if df == 22 {
        2074
    } else if df == 23 {
        2069
    } else if df == 24 {
        2064
    } else if df == 25 {
        2060
    } else if df == 26 {
        2056
    } else if df == 27 {
        2052
    } else if df == 28 {
        2048
    } else if df == 29 {
        2045
    } else if df == 30 {
        2042
    } else {
        1960
    }
}

/// Look up the two-sided 95% critical value for `df` degrees of freedom,
/// in thousandths.  `df` beyond the table's range clamps to the
/// asymptotic entry.
pub fn t_table(df: u64, level: Confidence) -> (r: u64)
    requires
        df >= 1,
    ensures
        r == t_milli(df as int),
{
    match level {
        Confidence::TwoSided95 => {
            if df == 1 {
                12706
            } else if df == 2 {
                4303
            } else if df == 3 {
                3182
            } else if df == 4 {
                2776
            } else if df == 5 {
                2571
            } else if df == 6 {
                2447
            } else if df == 7 {
                2365
            } else if df == 8 {
                2306
            } else if df == 9 {
                2262
            } else if df == 10 {
                2228
            } else if df == 11 {
                2201
            } else if df == 12 {
                2179
            } else if df == 13 {
                2160
            } else if df == 14 {
                2145
            } else if df == 15 {
                2131
            } else if df == 16 {
                2120
            } else if df == 17 {
                2110
            } else if df == 18 {
                2101
            } else if df == 19 {
                2093
            } else if df == 20 {
                2086
            } else if df == 21 {
                2080
            } else if df == 22 {
                2074
            } else if df == 23 {
                2069
            } else if df == 24 {
                2064
            } else if df == 25 {
                2060
            } else if df == 26 {
                2056
            } else if df == 27 {
                2052
            } else if df == 28 {
                2048
            } else if df == 29 {
                2045
            } else if df == 30 {
                2042
            } else {
                1960
            }
        },
    }
}

/// The table is monotonically non-increasing in the degrees of freedom.
pub proof fn lemma_t_table_monotone(df1: int, df2: int)
    requires
        1 <= df1 <= df2,
    ensures
        t_milli(df2) <= t_milli(df1),
{
}

/// Beyond the last explicit entry the table sits at its asymptotic value,
/// which is also its infimum.
pub proof fn lemma_t_table_asymptote(df: int)
    requires
        df >= 1,
    ensures
        t_milli(df) >= 1960,
        df > 30 ==> t_milli(df) == 1960,
{
}

/// When two variants have the same mean `m`, the point estimate of their
/// ratio is one, and whatever confidence half-width `q` below the mean
/// comes out of the interval computation, the ratio bounds
/// `(m - q) / (m + q)` and `(m + q) / (m - q)` straddle one.  Stated in
/// exact integer arithmetic.
pub proof fn lemma_equal_means_ratio_bounds(m: int, q: int)
    requires
        0 <= q < m,
    ensures
        m / m == 1,
        (m - q) / (m + q) <= 1,
        (m + q) / (m - q) >= 1,
{
    lemma_div_by_self(m);
    lemma_div_by_self(m + q);
    lemma_div_by_self(m - q);
    lemma_div_is_ordered(m - q, m + q, m + q);
    lemma_div_is_ordered(m - q, m + q, m - q);
}

/// The comparator's degrees of freedom: one less than the smaller of the
/// two sample counts.
pub fn degrees_of_freedom(count_a: usize, count_b: usize) -> (r: u64)
    requires
        count_a >= 2,
        count_b >= 2,
    ensures
        r >= 1,
        r == if count_a <= count_b {
            (count_a - 1) as int
        } else {
            (count_b - 1) as int
        },
{
    if count_a <= count_b {
        (count_a - 1) as u64
    } else {
        (count_b - 1) as u64
    }
}

} // verus!
