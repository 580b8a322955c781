//! The sample store: a growable multiset of integer samples kept in two
//! views, the insertion order and an always-sorted mirror.

use vstd::prelude::*;
use vstd::seq_lib::lemma_multiset_commutative;
use vstd::arithmetic::div_mod::lemma_div_is_ordered;
use vstd::arithmetic::div_mod::lemma_div_by_multiple;
use vstd::arithmetic::div_mod::lemma_div_multiples_vanish;
use vstd::arithmetic::div_mod::lemma_div_pos_is_pos;
use vstd::pervasive::VecAdditionalExecFns;

verus! {

/// A sequence is non-decreasing.
pub open spec fn is_sorted(s: Seq<u64>) -> bool {
    forall|i: int, j: int| 0 <= i <= j < s.len() ==> s[i] <= s[j]
}

/// The sum of a sequence of samples, as an unbounded integer.
pub open spec fn seq_sum(s: Seq<u64>) -> int
    decreases s.len(),
{
    if s.len() == 0 {
        0
    } else {
        seq_sum(s.drop_last()) + s.last()
    }
}

/// The median of a non-empty sorted sequence: the middle element for odd
/// length, the truncating mean of the two central elements for even length.
pub open spec fn spec_med(s: Seq<u64>) -> u64
    recommends
        s.len() > 0,
{
    if s.len() % 2 == 1 {
        s[s.len() as int / 2]
    } else {
        ((s[s.len() as int / 2 - 1] + s[s.len() as int / 2]) / 2) as u64
    }
}

/// The truncating mean of a non-empty sequence.
pub open spec fn spec_mean(s: Seq<u64>) -> u64
    recommends
        s.len() > 0,
{
    (seq_sum(s) / s.len() as int) as u64
}

/// The sum of the squared deviations of a sequence from `mu`, as an
/// unbounded integer.
pub open spec fn sq_dev_sum(s: Seq<u64>, mu: u64) -> int
    decreases s.len(),
{
    if s.len() == 0 {
        0
    } else {
        sq_dev_sum(s.drop_last(), mu) + (s.last() - mu) * (s.last() - mu)
    }
}

/// The Bessel-corrected sample variance of a sequence of at least two
/// samples, with the truncating mean as the centre and a truncating final
/// division.
pub open spec fn spec_variance(s: Seq<u64>) -> int
    recommends
        s.len() >= 2,
{
    sq_dev_sum(s, spec_mean(s)) / (s.len() - 1)
}

/// A squared deviation is never negative, so neither is their sum.
proof fn lemma_sq_dev_sum_nonneg(s: Seq<u64>, mu: u64)
    ensures
        sq_dev_sum(s, mu) >= 0,
    decreases s.len(),
{
    if s.len() > 0 {
        lemma_sq_dev_sum_nonneg(s.drop_last(), mu);
        assert((s.last() - mu) * (s.last() - mu) >= 0) by (nonlinear_arith);
    }
}

/// Taking one more element adds its squared deviation to the prefix sum.
proof fn lemma_sq_dev_sum_take_succ(s: Seq<u64>, mu: u64, i: int)
    requires
        0 <= i < s.len(),
    ensures
        sq_dev_sum(s.take(i + 1), mu) == sq_dev_sum(s.take(i), mu) + (s[i] - mu) * (s[i] - mu),
{
    assert(s.take(i + 1).drop_last() =~= s.take(i));
    assert(s.take(i + 1).last() == s[i]);
}

/// A prefix never has a larger squared-deviation sum than the whole.
proof fn lemma_sq_dev_sum_take_le(s: Seq<u64>, mu: u64, i: int)
    requires
        0 <= i <= s.len(),
    ensures
        sq_dev_sum(s.take(i), mu) <= sq_dev_sum(s, mu),
    decreases s.len() - i,
{
    if i == s.len() {
        assert(s.take(i) =~= s);
    } else {
        lemma_sq_dev_sum_take_succ(s, mu, i);
        lemma_sq_dev_sum_take_le(s, mu, i + 1);
        assert((s[i] - mu) * (s[i] - mu) >= 0) by (nonlinear_arith);
    }
}

/// A sum is never negative.
proof fn lemma_seq_sum_nonneg(s: Seq<u64>)
    ensures
        seq_sum(s) >= 0,
    decreases s.len(),
{
    if s.len() > 0 {
        lemma_seq_sum_nonneg(s.drop_last());
    }
}

/// Taking one more element adds it to the sum of the prefix.
proof fn lemma_seq_sum_take_succ(s: Seq<u64>, i: int)
    requires
        0 <= i < s.len(),
    ensures
        seq_sum(s.take(i + 1)) == seq_sum(s.take(i)) + s[i],
{
    assert(s.take(i + 1).drop_last() =~= s.take(i));
    assert(s.take(i + 1).last() == s[i]);
}

/// A prefix never sums to more than the whole sequence.
proof fn lemma_seq_sum_take_le(s: Seq<u64>, i: int)
    requires
        0 <= i <= s.len(),
    ensures
        seq_sum(s.take(i)) <= seq_sum(s),
    decreases s.len() - i,
{
    if i == s.len() {
        assert(s.take(i) =~= s);
    } else {
        lemma_seq_sum_take_succ(s, i);
        lemma_seq_sum_take_le(s, i + 1);
    }
}

/// A sequence whose elements all lie in `[lo, hi]` sums to between
/// `len * lo` and `len * hi`.
proof fn lemma_seq_sum_bounds(s: Seq<u64>, lo: u64, hi: u64)
    requires
        forall|i: int| 0 <= i < s.len() ==> lo <= #[trigger] s[i] <= hi,
    ensures
        s.len() * lo <= seq_sum(s) <= s.len() * hi,
    decreases s.len(),
{
    if s.len() > 0 {
        lemma_seq_sum_bounds(s.drop_last(), lo, hi);
        assert((s.len() - 1) * lo + lo == s.len() * lo) by (nonlinear_arith);
        assert((s.len() - 1) * hi + hi == s.len() * hi) by (nonlinear_arith);
    }
}

/// The histogram bucket a sample falls in: its relative position in
/// `[lo, hi]` scaled to `n - 1` and rounded to the nearest bucket, ties
/// to even, then clamped to the last bucket.
pub open spec fn bucket_of(x: u64, lo: u64, hi: u64, n: usize) -> int
    recommends
        n >= 1,
        lo < hi,
        lo <= x,
{
    let num = (x - lo) * (n - 1);
    let den = (hi - lo) as int;
    let q = num / den;
    let rem = num % den;
    let rounded = if 2 * rem < den {
        q
    } else if 2 * rem > den {
        q + 1
    } else if q % 2 == 0 {
        q
    } else {
        q + 1
    };
    if rounded > n - 1 {
        n - 1
    } else {
        rounded
    }
}

/// How many samples of a sequence fall in bucket `k`.
pub open spec fn bucket_count(s: Seq<u64>, lo: u64, hi: u64, n: usize, k: int) -> int
    decreases s.len(),
{
    if s.len() == 0 {
        0
    } else {
        bucket_count(s.drop_last(), lo, hi, n, k) + if bucket_of(s.last(), lo, hi, n) == k {
            1int
        } else {
            0int
        }
    }
}

/// Every bucket index lies in `[0, n - 1]`.
pub proof fn lemma_bucket_in_range(x: u64, lo: u64, hi: u64, n: usize)
    requires
        n >= 1,
        lo < hi,
        lo <= x,
    ensures
        0 <= bucket_of(x, lo, hi, n) < n,
{
    assert(((x - lo) as int) * ((n - 1) as int) >= 0) by (nonlinear_arith)
        requires
            x >= lo,
            n >= 1,
    ;
    lemma_div_pos_is_pos((x - lo) * (n - 1), (hi - lo) as int);
}

/// Taking one more element raises by one the count of the bucket it
/// falls in and no other.
proof fn lemma_bucket_count_take_succ(s: Seq<u64>, lo: u64, hi: u64, n: usize, i: int)
    requires
        0 <= i < s.len(),
    ensures
        forall|k: int| #[trigger]
            bucket_count(s.take(i + 1), lo, hi, n, k) == bucket_count(s.take(i), lo, hi, n, k)
                + if bucket_of(s[i], lo, hi, n) == k {
                1int
            } else {
                0int
            },
{
    assert(s.take(i + 1).drop_last() =~= s.take(i));
    assert(s.take(i + 1).last() == s[i]);
}

/// The sum of a sequence of zeroes is zero.
proof fn lemma_seq_sum_zeroes(s: Seq<u64>)
    requires
        forall|i: int| 0 <= i < s.len() ==> #[trigger] s[i] == 0,
    ensures
        seq_sum(s) == 0,
    decreases s.len(),
{
    if s.len() > 0 {
        lemma_seq_sum_zeroes(s.drop_last());
    }
}

/// No element exceeds the sum of its sequence.
proof fn lemma_elem_le_seq_sum(s: Seq<u64>, k: int)
    requires
        0 <= k < s.len(),
    ensures
        s[k] <= seq_sum(s),
    decreases s.len(),
{
    if k == s.len() - 1 {
        lemma_seq_sum_nonneg(s.drop_last());
    } else {
        lemma_elem_le_seq_sum(s.drop_last(), k);
        assert(s.drop_last()[k] == s[k]);
    }
}

/// Updating one element changes the sum by the difference.
proof fn lemma_seq_sum_update(s: Seq<u64>, k: int, v: u64)
    requires
        0 <= k < s.len(),
    ensures
        seq_sum(s.update(k, v)) == seq_sum(s) - s[k] + v,
    decreases s.len(),
{
    if k == s.len() - 1 {
        assert(s.update(k, v).drop_last() =~= s.drop_last());
        assert(s.update(k, v).last() == v);
    } else {
        assert(s.update(k, v).drop_last() =~= s.drop_last().update(k, v));
        lemma_seq_sum_update(s.drop_last(), k, v);
        assert(s.drop_last()[k] == s[k]);
        assert(s.update(k, v).last() == s.last());
    }
}

/// A fixed-width histogram: one non-negative count per bucket.
pub struct Distr {
    pub counts: Vec<u64>,
}

impl Distr {
    /// The largest bucket count; zero when there is no bucket or every
    /// bucket is empty.
    pub fn max(&self) -> (r: u64)
        ensures
            forall|i: int| 0 <= i < self.counts@.len() ==> #[trigger] self.counts@[i] <= r,
            self.counts@.len() == 0 ==> r == 0,
            self.counts@.len() > 0 ==> exists|i: int|
                0 <= i < self.counts@.len() && self.counts@[i] == r,
    {
        let mut r: u64 = 0;
        let mut i: usize = 0;
        while i < self.counts.len()
            invariant
                0 <= i <= self.counts@.len(),
                forall|j: int| 0 <= j < i ==> #[trigger] self.counts@[j] <= r,
                i == 0 ==> r == 0,
                i > 0 ==> exists|j: int| 0 <= j < i && self.counts@[j] == r,
            decreases self.counts@.len() - i,
        {
            if self.counts[i] > r || i == 0 {
                r = self.counts[i];
            }
            i = i + 1;
        }
        r
    }
}

/// Inserting into a sequence inserts into its multiset.
proof fn lemma_insert_to_multiset(s: Seq<u64>, idx: int, d: u64)
    requires
        0 <= idx <= s.len(),
    ensures
        s.insert(idx, d).to_multiset() == s.to_multiset().insert(d),
{
    let a = s.subrange(0, idx);
    let b = s.subrange(idx, s.len() as int);
    assert(s =~= a + b);
    lemma_multiset_commutative(a.push(d), b);
    lemma_multiset_commutative(a, b);
    a.to_multiset_ensures();
    assert(a.push(d).to_multiset() =~= a.to_multiset().insert(d));
    assert(a.to_multiset().insert(d).add(b.to_multiset()) =~= a.to_multiset().add(
        b.to_multiset(),
    ).insert(d));
}

/// Inserting a pivot value between the elements below and above it keeps
/// the sequence sorted.
proof fn lemma_sorted_insert(s: Seq<u64>, idx: int, d: u64)
    requires
        is_sorted(s),
        0 <= idx <= s.len(),
        forall|i: int| 0 <= i < idx ==> s[i] <= d,
        forall|i: int| idx <= i < s.len() ==> d <= s[i],
    ensures
        is_sorted(s.insert(idx, d)),
{
    let t = s.insert(idx, d);
    s.insert_ensures(idx, d);
    assert forall|i: int, j: int| 0 <= i <= j < t.len() implies t[i] <= t[j] by {
        if i < idx {
            assert(t[i] == s[i]);
        }
        if j < idx {
            assert(t[j] == s[j]);
        }
        if i > idx {
            assert(t[i] == s[i - 1]);
        }
        if j > idx {
            assert(t[j] == s[j - 1]);
        }
    }
}

/// A multiset of samples held in two views: `raw` in insertion order and
/// `sorted`, a non-decreasing permutation of `raw`.
pub struct Numbers {
    raw: Vec<u64>,
    sorted: Vec<u64>,
}

impl Numbers {
    /// The samples in insertion order: the store's abstract value.
    pub closed spec fn raw_view(&self) -> Seq<u64> {
        self.raw@
    }

    /// The sorted mirror of the samples.
    pub closed spec fn sorted_view(&self) -> Seq<u64> {
        self.sorted@
    }

    /// Well-formedness: the two views hold the same multiset and the
    /// mirror is non-decreasing.
    pub open spec fn wf(&self) -> bool {
        &&& self.sorted_view().to_multiset() == self.raw_view().to_multiset()
        &&& self.sorted_view().len() == self.raw_view().len()
        &&& is_sorted(self.sorted_view())
    }

    /// An empty store.
    pub fn new() -> (r: Numbers)
        ensures
            r.wf(),
            r.raw_view() == Seq::<u64>::empty(),
            r.sorted_view() == Seq::<u64>::empty(),
    {
        proof {
            Seq::<u64>::empty().to_multiset_ensures();
        }
        Numbers { raw: Vec::new(), sorted: Vec::new() }
    }

    /// Append a sample: it goes to the end of `raw` and to its place in
    /// `sorted`.
    pub fn push(&mut self, d: u64)
        requires
            old(self).wf(),
        ensures
            final(self).wf(),
            final(self).raw_view() == old(self).raw_view().push(d),
    {
        let idx = insert_pos(&self.sorted, d);
        proof {
            lemma_sorted_insert(self.sorted@, idx as int, d);
            lemma_insert_to_multiset(self.sorted@, idx as int, d);
            self.raw@.to_multiset_ensures();
        }
        self.raw.push(d);
        self.sorted.insert(idx, d);
    }

    /// Drop every sample from both views.
    pub fn clear(&mut self)
        ensures
            final(self).wf(),
            final(self).raw_view() == Seq::<u64>::empty(),
            final(self).sorted_view() == Seq::<u64>::empty(),
    {
        proof {
            Seq::<u64>::empty().to_multiset_ensures();
        }
        self.raw.clear();
        self.sorted.clear();
    }

    /// The samples in insertion order.
    pub fn raw(&self) -> (r: &[u64])
        ensures
            r@ == self.raw_view(),
    {
        self.raw.as_slice()
    }

    /// The sorted mirror.
    pub fn sorted(&self) -> (r: &[u64])
        ensures
            r@ == self.sorted_view(),
    {
        self.sorted.as_slice()
    }

    /// How many samples the store holds.
    pub fn len(&self) -> (r: usize)
        ensures
            r == self.raw_view().len(),
    {
        self.raw.len()
    }

    /// Every sample lies between the first and the last element of the
    /// sorted mirror, and both of those are samples themselves.
    pub proof fn lemma_bounds(&self)
        requires
            self.wf(),
            self.raw_view().len() > 0,
        ensures
            forall|i: int|
                0 <= i < self.raw_view().len() ==> self.sorted_view()[0] <= #[trigger] self.raw_view()[i]
                    <= self.sorted_view()[self.sorted_view().len() - 1],
            self.raw_view().contains(self.sorted_view()[0]),
            self.raw_view().contains(self.sorted_view()[self.sorted_view().len() - 1]),
    {
        let r = self.raw_view();
        let s = self.sorted_view();
        r.to_multiset_ensures();
        s.to_multiset_ensures();
        assert forall|i: int|
            0 <= i < r.len() implies s[0] <= #[trigger] r[i] <= s[s.len() - 1] by {
            assert(r.contains(r[i]));
            assert(r.to_multiset().count(r[i]) > 0);
            assert(s.contains(r[i]));
            let j = choose|j: int| 0 <= j < s.len() && s[j] == r[i];
            assert(s[0] <= s[j] <= s[s.len() - 1]);
        }
        assert(s.contains(s[0]));
        assert(s.to_multiset().count(s[0]) > 0);
        assert(r.contains(s[0]));
        assert(s.contains(s[s.len() - 1]));
        assert(s.to_multiset().count(s[s.len() - 1]) > 0);
        assert(r.contains(s[s.len() - 1]));
    }

    /// The smallest sample, absent only on an empty store.
    pub fn min(&self) -> (r: Option<u64>)
        requires
            self.wf(),
        ensures
            r is Some <==> self.raw_view().len() > 0,
            self.raw_view().len() > 0 ==> {
                &&& r == Some(self.sorted_view()[0])
                &&& forall|i: int|
                    0 <= i < self.raw_view().len() ==> r.unwrap() <= #[trigger] self.raw_view()[i]
                &&& self.raw_view().contains(r.unwrap())
            },
    {
        if self.sorted.len() == 0 {
            None
        } else {
            proof {
                self.lemma_bounds();
            }
            Some(self.sorted[0])
        }
    }

    /// The largest sample, absent only on an empty store.
    pub fn max(&self) -> (r: Option<u64>)
        requires
            self.wf(),
        ensures
            r is Some <==> self.raw_view().len() > 0,
            self.raw_view().len() > 0 ==> {
                &&& r == Some(self.sorted_view()[self.sorted_view().len() - 1])
                &&& forall|i: int|
                    0 <= i < self.raw_view().len() ==> #[trigger] self.raw_view()[i] <= r.unwrap()
                &&& self.raw_view().contains(r.unwrap())
            },
    {
        if self.sorted.len() == 0 {
            None
        } else {
            proof {
                self.lemma_bounds();
            }
            Some(self.sorted[self.sorted.len() - 1])
        }
    }

    /// The median of the sorted mirror, absent only on an empty store.
    pub fn med(&self) -> (r: Option<u64>)
        requires
            self.wf(),
        ensures
            r is Some <==> self.raw_view().len() > 0,
            self.raw_view().len() > 0 ==> r == Some(spec_med(self.sorted_view())),
    {
        let n = self.sorted.len();
        if n == 0 {
            None
        } else if n % 2 == 1 {
            Some(self.sorted[n / 2])
        } else {
            let a = self.sorted[n / 2 - 1];
            let b = self.sorted[n / 2];
            let m: u128 = ((a as u128) + (b as u128)) / 2;
            proof {
                assert(a <= b);
                lemma_div_is_ordered(a as int + b as int, 2 * (b as int), 2);
                lemma_div_by_multiple(b as int, 2);
            }
            Some(m as u64)
        }
    }

    /// The sum of all samples; zero on an empty store.
    pub fn sum(&self) -> (r: u64)
        requires
            self.wf(),
            seq_sum(self.raw_view()) <= u64::MAX,
        ensures
            r == seq_sum(self.raw_view()),
    {
        let mut acc: u64 = 0;
        let mut i: usize = 0;
        proof {
            assert(self.raw_view().take(0) =~= Seq::<u64>::empty());
        }
        while i < self.raw.len()
            invariant
                self.wf(),
                seq_sum(self.raw_view()) <= u64::MAX,
                0 <= i <= self.raw_view().len(),
                acc == seq_sum(self.raw_view().take(i as int)),
            decreases self.raw_view().len() - i,
        {
            proof {
                lemma_seq_sum_take_succ(self.raw_view(), i as int);
                lemma_seq_sum_take_le(self.raw_view(), i as int + 1);
                lemma_seq_sum_nonneg(self.raw_view().take(i as int));
            }
            acc = acc + self.raw[i];
            i = i + 1;
        }
        proof {
            assert(self.raw_view().take(self.raw_view().len() as int) =~= self.raw_view());
        }
        acc
    }

    /// The truncating mean, absent only on an empty store.
    pub fn mean(&self) -> (r: Option<u64>)
        requires
            self.wf(),
            seq_sum(self.raw_view()) <= u64::MAX,
        ensures
            r is Some <==> self.raw_view().len() > 0,
            self.raw_view().len() > 0 ==> r == Some(spec_mean(self.raw_view())),
    {
        let n = self.raw.len();
        if n == 0 {
            None
        } else {
            let s = self.sum();
            proof {
                lemma_seq_sum_nonneg(self.raw_view());
                lemma_div_is_ordered(0, seq_sum(self.raw_view()), n as int);
            }
            Some(s / (n as u64))
        }
    }

    /// The sample standard deviation with Bessel correction, computed as
    /// the integer square root of the variance; absent when the store
    /// holds fewer than two samples.
    pub fn stddev(&self) -> (r: Option<u64>)
        requires
            self.wf(),
            seq_sum(self.raw_view()) <= u64::MAX,
            sq_dev_sum(self.raw_view(), spec_mean(self.raw_view())) <= u128::MAX,
        ensures
            r is Some <==> self.raw_view().len() >= 2,
            self.raw_view().len() >= 2 ==> ({
                let v = spec_variance(self.raw_view());
                &&& (r.unwrap() as int) * (r.unwrap() as int) <= v
                &&& v < (r.unwrap() as int + 1) * (r.unwrap() as int + 1)
            }),
    {
        let n = self.raw.len();
        if n < 2 {
            return None;
        }
        let mu = match self.mean() {
            Some(m) => m,
            None => {
                return None;
            },
        };
        let ghost rv = self.raw_view();
        let mut acc: u128 = 0;
        let mut i: usize = 0;
        proof {
            assert(rv.take(0) =~= Seq::<u64>::empty());
        }
        while i < self.raw.len()
            invariant
                self.wf(),
                rv == self.raw_view(),
                sq_dev_sum(rv, mu) <= u128::MAX,
                0 <= i <= rv.len(),
                acc == sq_dev_sum(rv.take(i as int), mu),
            decreases rv.len() - i,
        {
            let x = self.raw[i];
            let d: u64 = if x >= mu {
                x - mu
            } else {
                mu - x
            };
            proof {
                lemma_sq_dev_sum_take_succ(rv, mu, i as int);
                lemma_sq_dev_sum_take_le(rv, mu, i as int + 1);
                lemma_sq_dev_sum_nonneg(rv.take(i as int), mu);
                assert((d as int) * (d as int) == (x - mu) * (x - mu)) by (nonlinear_arith)
                    requires
                        d == if x >= mu {
                            (x - mu) as int
                        } else {
                            (mu - x) as int
                        },
                ;
                assert((d as int) * (d as int) <= u128::MAX) by (nonlinear_arith)
                    requires
                        0 <= d <= u64::MAX,
                ;
            }
            acc = acc + (d as u128) * (d as u128);
            i = i + 1;
        }
        proof {
            assert(rv.take(rv.len() as int) =~= rv);
            lemma_sq_dev_sum_nonneg(rv, mu);
            lemma_div_is_ordered(0, sq_dev_sum(rv, mu), n as int - 1);
        }
        let variance: u128 = acc / ((n - 1) as u128);
        Some(isqrt_u128(variance))
    }

    /// The median and the truncating mean of a non-empty well-formed store
    /// both lie between its smallest and its largest sample.
    pub proof fn lemma_stat_bounds(&self)
        requires
            self.wf(),
            self.raw_view().len() > 0,
        ensures
            self.sorted_view()[0] <= spec_med(self.sorted_view())
                <= self.sorted_view()[self.sorted_view().len() - 1],
            self.sorted_view()[0] <= spec_mean(self.raw_view())
                <= self.sorted_view()[self.sorted_view().len() - 1],
    {
        let s = self.sorted_view();
        let rv = self.raw_view();
        let n = s.len() as int;
        let lo = s[0];
        let hi = s[n - 1];
        if s.len() % 2 == 1 {
            assert(lo <= s[n / 2] <= hi);
        } else {
            let a = s[n / 2 - 1];
            let b = s[n / 2];
            assert(lo <= a <= b <= hi);
            lemma_div_is_ordered(2 * (a as int), a as int + b as int, 2);
            lemma_div_is_ordered(a as int + b as int, 2 * (b as int), 2);
            lemma_div_by_multiple(a as int, 2);
            lemma_div_by_multiple(b as int, 2);
        }
        self.lemma_bounds();
        lemma_seq_sum_bounds(rv, lo, hi);
        lemma_div_is_ordered(rv.len() * lo, seq_sum(rv), rv.len() as int);
        lemma_div_is_ordered(seq_sum(rv), rv.len() * hi, rv.len() as int);
        lemma_div_multiples_vanish(lo as int, rv.len() as int);
        lemma_div_multiples_vanish(hi as int, rv.len() as int);
        assert(rv.len() * lo == rv.len() as int * (lo as int)) by (nonlinear_arith);
        assert(rv.len() * hi == rv.len() as int * (hi as int)) by (nonlinear_arith);
    }

    /// The fixed-width histogram of the samples over `[min, max]`: each
    /// sample lands in the bucket nearest its relative position, ties to
    /// even, clamped to the last bucket.  A degenerate range (`min == max`)
    /// yields all-zero counts.
    pub fn distr(&self, n: usize, min: u64, max: u64) -> (r: Distr)
        requires
            self.wf(),
            n >= 1,
            min <= max,
            min < max ==> forall|i: int|
                0 <= i < self.raw_view().len() ==> min <= #[trigger] self.raw_view()[i],
        ensures
            r.counts@.len() == n,
            min == max ==> forall|k: int| 0 <= k < n ==> #[trigger] r.counts@[k] == 0,
            min < max ==> forall|k: int|
                0 <= k < n ==> #[trigger] r.counts@[k] == bucket_count(
                    self.raw_view(),
                    min,
                    max,
                    n,
                    k,
                ),
            seq_sum(r.counts@) == if min < max {
                self.raw_view().len() as int
            } else {
                0
            },
    {
        let mut counts: Vec<u64> = Vec::new();
        while counts.len() < n
            invariant
                counts@.len() <= n,
                forall|j: int| 0 <= j < counts@.len() ==> #[trigger] counts@[j] == 0,
            decreases n - counts@.len(),
        {
            counts.push(0);
        }
        proof {
            lemma_seq_sum_zeroes(counts@);
        }
        if min == max {
            return Distr { counts };
        }
        let ghost rv = self.raw_view();
        let mut i: usize = 0;
        proof {
            assert(rv.take(0) =~= Seq::<u64>::empty());
        }
        while i < self.raw.len()
            invariant
                self.wf(),
                rv == self.raw_view(),
                n >= 1,
                min < max,
                forall|j: int| 0 <= j < rv.len() ==> min <= #[trigger] rv[j],
                0 <= i <= rv.len(),
                counts@.len() == n,
                forall|k: int|
                    0 <= k < n ==> #[trigger] counts@[k] == bucket_count(
                        rv.take(i as int),
                        min,
                        max,
                        n,
                        k,
                    ),
                seq_sum(counts@) == i,
            decreases rv.len() - i,
        {
            let x = self.raw[i];
            proof {
                assert(min <= rv[i as int]);
                assert(((x - min) as int) * ((n - 1) as int) <= (u64::MAX as int) * (
                u64::MAX as int) < u128::MAX as int) by (nonlinear_arith)
                    requires
                        0 <= (x - min) as int <= u64::MAX,
                        0 <= (n - 1) as int <= u64::MAX,
                ;
            }
            let num: u128 = ((x - min) as u128) * ((n - 1) as u128);
            let den: u128 = (max - min) as u128;
            let q = num / den;
            let rem = num % den;
            let b: u128 = if 2 * rem < den {
                q
            } else if 2 * rem > den {
                q + 1
            } else if q % 2 == 0 {
                q
            } else {
                q + 1
            };
            let bi: usize = if b > ((n - 1) as u128) {
                n - 1
            } else {
                b as usize
            };
            proof {
                assert(bi as int == bucket_of(x, min, max, n));
                lemma_elem_le_seq_sum(counts@, bi as int);
                lemma_seq_sum_update(counts@, bi as int, (counts@[bi as int] + 1) as u64);
                lemma_bucket_count_take_succ(rv, min, max, n, i as int);
            }
            let c = counts[bi];
            counts.set(bi, c + 1);
            i = i + 1;
        }
        proof {
            assert(rv.take(rv.len() as int) =~= rv);
        }
        Distr { counts }
    }

    /// The samples in insertion order, as a fresh vector.
    pub fn iter(&self) -> (r: Vec<u64>)
        ensures
            r@ == self.raw_view(),
    {
        let mut v: Vec<u64> = Vec::new();
        let mut i: usize = 0;
        while i < self.raw.len()
            invariant
                0 <= i <= self.raw@.len(),
                v@ == self.raw@.take(i as int),
            decreases self.raw@.len() - i,
        {
            v.push(self.raw[i]);
            proof {
                assert(self.raw@.take(i as int).push(self.raw@[i as int]) =~= self.raw@.take(
                    i as int + 1,
                ));
            }
            i = i + 1;
        }
        proof {
            assert(self.raw@.take(self.raw@.len() as int) =~= self.raw@);
        }
        v
    }
}

impl Default for Numbers {
    /// An empty store.
    fn default() -> (r: Numbers)
        ensures
            r.wf(),
            r.raw_view() == Seq::<u64>::empty(),
            r.sorted_view() == Seq::<u64>::empty(),
    {
        Numbers::new()
    }
}

/// The integer square root: the largest `r` with `r * r <= v`, found by
/// binary search.
fn isqrt_u128(v: u128) -> (r: u64)
    ensures
        (r as int) * (r as int) <= v as int,
        (v as int) < (r as int + 1) * (r as int + 1),
{
    let mut lo: u128 = 0;
    let mut hi: u128 = 0xffff_ffff_ffff_ffffu128 + 1;
    proof {
        assert((0x10000000000000000 as int) * (0x10000000000000000 as int) > u128::MAX as int)
            by (nonlinear_arith);
    }
    while lo + 1 < hi
        invariant
            0 <= lo < hi <= 0x10000000000000000u128,
            (lo as int) * (lo as int) <= v as int,
            (hi as int) * (hi as int) > v as int,
        decreases hi - lo,
    {
        let mid = lo + (hi - lo) / 2;
        proof {
            assert(lo < mid < hi);
            assert((mid as int) * (mid as int) <= u128::MAX) by (nonlinear_arith)
                requires
                    0 <= mid <= 0xffff_ffff_ffff_ffffu128,
            ;
        }
        if mid * mid <= v {
            lo = mid;
        } else {
            hi = mid;
        }
    }
    proof {
        assert((lo as int + 1) * (lo as int + 1) >= (hi as int) * (hi as int))
            by (nonlinear_arith)
            requires
                0 <= hi <= lo + 1,
        ;
    }
    lo as u64
}

/// A position in a sorted sequence where a new value can go without
/// breaking the order, found by binary search.
fn insert_pos(sorted: &Vec<u64>, d: u64) -> (idx: usize)
    requires
        is_sorted(sorted@),
    ensures
        idx <= sorted@.len(),
        forall|i: int| 0 <= i < idx ==> sorted@[i] <= d,
        forall|i: int| idx <= i < sorted@.len() ==> d <= sorted@[i],
{
    let mut lo: usize = 0;
    let mut hi: usize = sorted.len();
    while lo < hi
        invariant
            lo <= hi <= sorted@.len(),
            is_sorted(sorted@),
            forall|i: int| 0 <= i < lo ==> sorted@[i] <= d,
            forall|i: int| hi <= i < sorted@.len() ==> d <= sorted@[i],
        decreases hi - lo,
    {
        let mid = lo + (hi - lo) / 2;
        if sorted[mid] <= d {
            lo = mid + 1;
        } else {
            hi = mid;
        }
    }
    lo
}

} // verus!
