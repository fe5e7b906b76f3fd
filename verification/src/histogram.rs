//! The latencies measured for one server, in whole milliseconds.
//!
//! Every sample is kept, so the smallest, the largest, the mean and the value
//! at any quantile are exact.

use vstd::prelude::*;

verus! {

/// The samples recorded so far. Its view is the sequence of the samples in
/// ascending order.
#[derive(Debug, PartialEq, Eq)]
pub struct LatencyHistogram {
    samples: Vec<u64>,
}

/// No sample is followed by a smaller one.
pub open spec fn ascending(samples: Seq<u64>) -> bool {
    forall|i: int, j: int| 0 <= i <= j < samples.len() ==> samples[i] <= samples[j]
}

/// The sum of the samples.
pub open spec fn total(samples: Seq<u64>) -> nat
    decreases samples.len(),
{
    if samples.len() == 0 {
        0
    } else {
        total(samples.drop_last()) + samples.last() as nat
    }
}

/// The smallest of ascending samples, and 0 where there is none.
pub open spec fn smallest(samples: Seq<u64>) -> u64 {
    if samples.len() == 0 {
        0
    } else {
        samples.first()
    }
}

/// The largest of ascending samples, and 0 where there is none.
pub open spec fn largest(samples: Seq<u64>) -> u64 {
    if samples.len() == 0 {
        0
    } else {
        samples.last()
    }
}

/// How many of `count` samples, taken in ascending order, reach the quantile
/// `numer / denom`: the least whole number that is at least that fraction of
/// `count`, and at least 1. A quantile of one or more, and one without a
/// denominator, takes all samples.
pub open spec fn quantile_rank(count: nat, numer: u64, denom: u64) -> nat {
    if denom == 0 || numer >= denom {
        count
    } else if count * numer == 0 {
        1
    } else {
        ((count * numer + denom - 1) / (denom as int)) as nat
    }
}

/// The value at the quantile `numer / denom` of ascending samples: the sample
/// that `quantile_rank` counts up to, and 0 where there is no sample.
pub open spec fn quantile_value(samples: Seq<u64>, numer: u64, denom: u64) -> u64 {
    if samples.len() == 0 {
        0
    } else {
        samples[quantile_rank(samples.len(), numer, denom) - 1]
    }
}

/// The mean of `a` is below the mean of `b`. Samples without a mean, that is
/// no samples, are below nothing, and every mean is below them.
pub open spec fn mean_below(a: Seq<u64>, b: Seq<u64>) -> bool {
    a.len() > 0 && (b.len() == 0 || total(a) * b.len() < total(b) * a.len())
}

/// The rank of a non-empty collection is between 1 and its size, and it is the
/// least count of samples whose share is at least the quantile.
pub proof fn lemma_quantile_rank(count: nat, numer: u64, denom: u64)
    requires
        count > 0,
    ensures
        1 <= quantile_rank(count, numer, denom) <= count,
        denom > 0 && numer < denom ==> quantile_rank(count, numer, denom) * denom >= count
            * numer,
        denom > 0 && numer < denom && quantile_rank(count, numer, denom) > 1 ==> (quantile_rank(
            count,
            numer,
            denom,
        ) - 1) * denom < count * numer,
{
    if denom > 0 && numer < denom {
        let d = denom as int;
        let p = count * numer;
        assert(p >= 0) by (nonlinear_arith)
            requires
                p == count * numer,
        ;
        if p > 0 {
            let r = (p + d - 1) / d;
            assert(r * d <= p + d - 1 && p + d - 1 < (r + 1) * d && r >= 1) by (nonlinear_arith)
                requires
                    r == (p + d - 1) / d,
                    d > 0,
                    p > 0,
            ;
            assert(r <= count) by (nonlinear_arith)
                requires
                    r * d <= p + d - 1,
                    p == count * numer,
                    numer < d,
                    numer >= 0,
                    d > 0,
                    count > 0,
            ;
            assert(r * d >= p && (r - 1) * d < p) by (nonlinear_arith)
                requires
                    r * d <= p + d - 1,
                    p + d - 1 < (r + 1) * d,
            ;
        }
    }
}

/// The sum of samples grows by the sample that is added.
pub proof fn lemma_total_push(samples: Seq<u64>, value: u64)
    ensures
        total(samples.push(value)) == total(samples) + value,
{
    assert(samples.push(value).drop_last() =~= samples);
}

/// The sum of samples is the same wherever a sample is put in.
pub proof fn lemma_total_insert(samples: Seq<u64>, at: int, value: u64)
    requires
        0 <= at <= samples.len(),
    ensures
        total(samples.insert(at, value)) == total(samples) + value,
    decreases samples.len() - at,
{
    if at == samples.len() {
        assert(samples.insert(at, value) =~= samples.push(value));
        lemma_total_push(samples, value);
    } else {
        let shorter = samples.drop_last();
        lemma_total_insert(shorter, at, value);
        assert(samples.insert(at, value).drop_last() =~= shorter.insert(at, value));
        assert(samples.insert(at, value).last() == samples.last());
    }
}

/// Ascending samples that hold the same values as often are the same.
pub proof fn lemma_ascending_unique(a: Seq<u64>, b: Seq<u64>)
    requires
        ascending(a),
        ascending(b),
        a.to_multiset() == b.to_multiset(),
    ensures
        a == b,
{
    let leq = |x: u64, y: u64| x <= y;
    assert(vstd::relations::sorted_by(a, leq));
    assert(vstd::relations::sorted_by(b, leq));
    assert(vstd::relations::total_ordering(leq));
    vstd::seq_lib::lemma_sorted_unique(a, b, leq);
}

/// Means compare as the whole parts and then the remainders of the two
/// divisions do.
proof fn lemma_mean_by_parts(ta: int, na: int, tb: int, nb: int)
    requires
        na > 0,
        nb > 0,
        ta >= 0,
        tb >= 0,
    ensures
        ta * nb < tb * na <==> (ta / na < tb / nb || (ta / na == tb / nb && (ta % na) * nb < (tb
            % nb) * na)),
{
    let qa = ta / na;
    let ra = ta % na;
    let qb = tb / nb;
    let rb = tb % nb;
    assert(ta == qa * na + ra && 0 <= ra < na) by (nonlinear_arith)
        requires
            qa == ta / na,
            ra == ta % na,
            na > 0,
    ;
    assert(tb == qb * nb + rb && 0 <= rb < nb) by (nonlinear_arith)
        requires
            qb == tb / nb,
            rb == tb % nb,
            nb > 0,
    ;
    let n = na * nb;
    assert(ta * nb == qa * n + ra * nb && tb * na == qb * n + rb * na && 0 <= ra * nb < n && 0
        <= rb * na < n) by (nonlinear_arith)
        requires
            ta == qa * na + ra,
            tb == qb * nb + rb,
            0 <= ra < na,
            0 <= rb < nb,
            n == na * nb,
    ;
    if qa < qb {
        assert(qa * n + n <= qb * n) by (nonlinear_arith)
            requires
                qa < qb,
                n > 0,
        ;
    } else if qb < qa {
        assert(qb * n + n <= qa * n) by (nonlinear_arith)
            requires
                qb < qa,
                n > 0,
        ;
    }
}

/// Tells whether the mean of `count_a` samples that sum to `total_a` is below
/// the mean of `count_b` samples that sum to `total_b`, where samples without
/// a mean come after all others.
pub fn mean_is_below(total_a: u128, count_a: usize, total_b: u128, count_b: usize) -> (below: bool)
    ensures
        below == (count_a > 0 && (count_b == 0 || total_a * count_b < total_b * count_a)),
{
    if count_a == 0 {
        return false;
    }
    if count_b == 0 {
        return true;
    }
    let na = count_a as u128;
    let nb = count_b as u128;
    let qa = total_a / na;
    let qb = total_b / nb;
    proof {
        lemma_mean_by_parts(total_a as int, na as int, total_b as int, nb as int);
    }
    if qa != qb {
        return qa < qb;
    }
    let ra = total_a % na;
    let rb = total_b % nb;
    assert(ra * nb <= u128::MAX && rb * na <= u128::MAX) by (nonlinear_arith)
        requires
            ra < na,
            rb < nb,
            na <= u64::MAX,
            nb <= u64::MAX,
    ;
    ra * nb < rb * na
}

impl View for LatencyHistogram {
    type V = Seq<u64>;

    closed spec fn view(&self) -> Seq<u64> {
        self.samples@
    }
}

impl LatencyHistogram {
    #[verifier::type_invariant]
    spec fn sorted(&self) -> bool {
        ascending(self.samples@)
    }

    /// A histogram without samples.
    pub fn new() -> (histogram: Self)
        ensures
            histogram@ == Seq::<u64>::empty(),
    {
        LatencyHistogram { samples: Vec::new() }
    }

    /// Adds one sample.
    pub fn record(&mut self, value: u64)
        ensures
            ascending(final(self)@),
            final(self)@.to_multiset() == old(self)@.to_multiset().insert(value),
            final(self)@.len() == old(self)@.len() + 1,
            total(final(self)@) == total(old(self)@) + value,
    {
        proof {
            use_type_invariant(&*self);
        }
        let mut samples: Vec<u64> = Vec::new();
        std::mem::swap(&mut samples, &mut self.samples);
        let mut at: usize = 0;
        while at < samples.len() && samples[at] <= value
            invariant
                at <= samples.len(),
                forall|i: int| 0 <= i < at ==> samples@[i] <= value,
            decreases samples.len() - at,
        {
            at = at + 1;
        }
        proof {
            let before = samples@;
            let after = before.insert(at as int, value);
            vstd::seq_lib::to_multiset_insert(before, at as int, value);
            lemma_total_insert(before, at as int, value);
            before.insert_ensures(at as int, value);
            assert(ascending(after)) by {
                assert forall|i: int, j: int| 0 <= i <= j < after.len() implies after[i]
                    <= after[j] by {
                    if j < at {
                    } else if j == at {
                    } else if i < at {
                        assert(after[j] == before[j - 1]);
                        if at < before.len() {
                            assert(before[at as int] <= before[j - 1]);
                        }
                    } else if i == at {
                        assert(after[j] == before[j - 1]);
                        assert(before[at as int] <= before[j - 1]);
                    } else {
                        assert(after[i] == before[i - 1]);
                        assert(after[j] == before[j - 1]);
                    }
                }
            }
        }
        samples.insert(at, value);
        self.samples = samples;
    }

    /// The number of samples.
    pub fn len(&self) -> (count: usize)
        ensures
            count == self@.len(),
    {
        self.samples.len()
    }

    /// Tells whether there is no sample.
    pub fn is_empty(&self) -> (empty: bool)
        ensures
            empty == (self@.len() == 0),
    {
        self.samples.len() == 0
    }

    /// The smallest sample, and 0 where there is none.
    pub fn min(&self) -> (value: u64)
        ensures
            value == smallest(self@),
            self@.len() > 0 ==> self@.contains(value),
            forall|i: int| 0 <= i < self@.len() ==> value <= self@[i],
    {
        proof {
            use_type_invariant(self);
        }
        if self.samples.len() == 0 {
            0
        } else {
            self.samples[0]
        }
    }

    /// The largest sample, and 0 where there is none.
    pub fn max(&self) -> (value: u64)
        ensures
            value == largest(self@),
            self@.len() > 0 ==> self@.contains(value),
            forall|i: int| 0 <= i < self@.len() ==> self@[i] <= value,
    {
        proof {
            use_type_invariant(self);
        }
        if self.samples.len() == 0 {
            0
        } else {
            self.samples[self.samples.len() - 1]
        }
    }

    /// The sum of the samples.
    pub fn sum(&self) -> (sum: u128)
        ensures
            sum == total(self@),
    {
        let mut sum: u128 = 0;
        let mut i: usize = 0;
        while i < self.samples.len()
            invariant
                i <= self.samples.len(),
                sum == total(self.samples@.take(i as int)),
                sum <= i * u64::MAX,
            decreases self.samples.len() - i,
        {
            proof {
                assert(self.samples@.take(i + 1).drop_last() =~= self.samples@.take(i as int));
            }
            sum = sum + self.samples[i] as u128;
            i = i + 1;
        }
        assert(self.samples@.take(i as int) =~= self.samples@);
        sum
    }

    /// The value at the quantile `numer / denom`: the sample up to which at
    /// least that share of the samples lies, and 0 where there is no sample.
    /// A quantile of one half is the 50th percentile.
    pub fn value_at_quantile(&self, numer: u64, denom: u64) -> (value: u64)
        ensures
            value == quantile_value(self@, numer, denom),
            self@.len() > 0 ==> self@.contains(value),
    {
        let count = self.samples.len();
        if count == 0 {
            return 0;
        }
        proof {
            lemma_quantile_rank(count as nat, numer, denom);
        }
        if denom == 0 || numer >= denom {
            return self.samples[count - 1];
        }
        assert(count * numer + denom <= u128::MAX) by (nonlinear_arith)
            requires
                count <= u64::MAX,
                numer <= u64::MAX,
                denom <= u64::MAX,
        ;
        let share = count as u128 * numer as u128;
        if share == 0 {
            return self.samples[0];
        }
        let rank = (share + denom as u128 - 1) / denom as u128;
        self.samples[(rank - 1) as usize]
    }

    /// The samples in ascending order.
    pub fn to_vec(&self) -> (samples: Vec<u64>)
        ensures
            samples@ == self@,
    {
        let samples = self.samples.clone();
        assert(samples@ =~= self.samples@);
        samples
    }

    /// Tells whether the mean of these samples is below the mean of `other`,
    /// where a histogram without samples comes after all others.
    pub fn has_lower_mean(&self, other: &LatencyHistogram) -> (below: bool)
        ensures
            below == mean_below(self@, other@),
    {
        mean_is_below(self.sum(), self.len(), other.sum(), other.len())
    }
}

impl Clone for LatencyHistogram {
    fn clone(&self) -> (copy: Self)
        ensures
            copy@ == self@,
    {
        proof {
            use_type_invariant(self);
        }
        let samples = self.samples.clone();
        assert(samples@ =~= self.samples@);
        LatencyHistogram { samples }
    }
}

} // verus!
