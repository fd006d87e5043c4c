//! Timing histograms: 361 buckets, bucket `i` standing for an offset of
//! `i - 180` milliseconds, and the weighted variance over such a histogram.
use vstd::prelude::*;

verus! {

/// Offsets from `-OFFSET_BUCKET_RANGE` to `+OFFSET_BUCKET_RANGE` milliseconds
/// have a bucket of their own.
pub const OFFSET_BUCKET_RANGE: i64 = 180;

/// Number of buckets of a timing histogram.
pub const NUM_OFFSET_BUCKETS: usize = 361;

/// The signed offset in milliseconds that bucket `i` stands for.
pub open spec fn bucket_value(i: int) -> int {
    i - 180
}

/// Sum of all weights of a histogram.
pub open spec fn weight_sum(h: Seq<u64>) -> int
    decreases h.len(),
{
    if h.len() == 0 {
        0
    } else {
        weight_sum(h.drop_last()) + h.last()
    }
}

/// Sum of `value * weight` over all buckets.
pub open spec fn weighted_value_sum(h: Seq<u64>) -> int
    decreases h.len(),
{
    if h.len() == 0 {
        0
    } else {
        weighted_value_sum(h.drop_last()) + bucket_value(h.len() - 1) * h.last()
    }
}

/// Integer division rounding toward zero, as Rust's `/` does on signed integers.
pub open spec fn trunc_div(a: int, b: int) -> int {
    if a >= 0 {
        a / b
    } else {
        -((-a) / b)
    }
}

/// The weighted mean of a histogram, truncated toward zero.
pub open spec fn truncated_mean(h: Seq<u64>) -> int {
    trunc_div(weighted_value_sum(h), weight_sum(h))
}

/// Sum of `weight * (value - m)^2` over all buckets.
pub open spec fn squared_deviation_sum(h: Seq<u64>, m: int) -> int
    decreases h.len(),
{
    if h.len() == 0 {
        0
    } else {
        let d = bucket_value(h.len() - 1) - m;
        squared_deviation_sum(h.drop_last(), m) + h.last() * (d * d)
    }
}

/// A histogram with every bucket empty has no weight.
pub proof fn lemma_zero_weight(h: Seq<u64>)
    requires
        forall|i: int| 0 <= i < h.len() ==> h[i] == 0,
    ensures
        weight_sum(h) == 0,
    decreases h.len(),
{
    if h.len() > 0 {
        lemma_zero_weight(h.drop_last());
    }
}

/// The variance of a histogram as the exact fraction `numerator / denominator`;
/// its standard deviation is the square root of that fraction.
#[derive(Clone, Copy, Debug, PartialEq, Eq)]
pub struct WeightedVariance {
    pub numerator: u128,
    pub denominator: u128,
}

proof fn lemma_weighted_step(v: int, w: int, s: int, t: int)
    requires
        -180 <= v <= 180,
        0 <= w,
        -180 * t <= s <= 180 * t,
    ensures
        -180 * (t + w) <= s + v * w <= 180 * (t + w),
{
    assert(-180 * w <= v * w <= 180 * w) by (nonlinear_arith)
        requires
            -180 <= v <= 180,
            0 <= w,
    ;
}

/// Weighted variance of a timing histogram, where bucket `i` has the value
/// `i - 180` and its count as weight. The mean is the weighted sum divided by
/// the total weight with integer division (truncated toward zero) before the
/// squared deviations are summed. A histogram with no weight has the fraction
/// `0 / 0`.
pub fn weighted_variance(buckets: &[u64]) -> (r: WeightedVariance)
    requires
        buckets@.len() == NUM_OFFSET_BUCKETS,
    ensures
        r.denominator == weight_sum(buckets@),
        weight_sum(buckets@) > 0 ==> r.numerator == squared_deviation_sum(
            buckets@,
            truncated_mean(buckets@),
        ),
        weight_sum(buckets@) == 0 ==> r.numerator == 0,
{
    let mut value_sum: i128 = 0;
    let mut total: u128 = 0;
    let mut i: usize = 0;
    while i < buckets.len()
        invariant
            buckets@.len() == NUM_OFFSET_BUCKETS,
            0 <= i <= buckets@.len(),
            total == weight_sum(buckets@.subrange(0, i as int)),
            value_sum == weighted_value_sum(buckets@.subrange(0, i as int)),
            total <= i * 0x1_0000_0000_0000_0000,
            -180 * total <= value_sum <= 180 * total,
        decreases buckets@.len() - i,
    {
        let w = buckets[i];
        let v: i128 = i as i128 - 180;
        proof {
            let pre = buckets@.subrange(0, i as int);
            let post = buckets@.subrange(0, i as int + 1);
            assert(post.drop_last() =~= pre);
            lemma_weighted_step(v as int, w as int, value_sum as int, total as int);
        }
        value_sum = value_sum + v * (w as i128);
        total = total + w as u128;
        i = i + 1;
    }
    assert(buckets@.subrange(0, buckets@.len() as int) =~= buckets@);
    if total == 0 {
        return WeightedVariance { numerator: 0, denominator: 0 };
    }
    let magnitude: u128 = if value_sum >= 0 {
        value_sum as u128
    } else {
        (-value_sum) as u128
    };
    proof {
        assert(magnitude <= 180 * total);
        assert(magnitude / total <= 180) by (nonlinear_arith)
            requires
                magnitude <= 180 * total,
                total > 0,
        ;
    }
    let q: i128 = (magnitude / total) as i128;
    let mean: i128 = if value_sum >= 0 {
        q
    } else {
        -q
    };
    assert(mean == truncated_mean(buckets@));
    let mut squares: u128 = 0;
    let mut j: usize = 0;
    while j < buckets.len()
        invariant
            buckets@.len() == NUM_OFFSET_BUCKETS,
            0 <= j <= buckets@.len(),
            -180 <= mean <= 180,
            squares == squared_deviation_sum(buckets@.subrange(0, j as int), mean as int),
            squares <= j * (129600 * 0x1_0000_0000_0000_0000),
        decreases buckets@.len() - j,
    {
        let w = buckets[j];
        let d: i128 = j as i128 - 180 - mean;
        proof {
            let pre = buckets@.subrange(0, j as int);
            let post = buckets@.subrange(0, j as int + 1);
            assert(post.drop_last() =~= pre);
            assert(0 <= d * d <= 129600) by (nonlinear_arith)
                requires
                    -360 <= d <= 360,
            ;
        }
        let dd: u128 = (d * d) as u128;
        proof {
            assert((w as int) * (dd as int) <= 129600 * 0x1_0000_0000_0000_0000) by (nonlinear_arith)
                requires
                    0 <= w < 0x1_0000_0000_0000_0000,
                    0 <= dd <= 129600,
            ;
            assert(squares + (w as int) * (dd as int) <= (j + 1) * (129600 * 0x1_0000_0000_0000_0000)) by (nonlinear_arith)
                requires
                    squares <= j * (129600 * 0x1_0000_0000_0000_0000),
                    (w as int) * (dd as int) <= 129600 * 0x1_0000_0000_0000_0000,
            ;
            assert((j + 1) * (129600 * 0x1_0000_0000_0000_0000) < 0x1_0000_0000_0000_0000_0000_0000_0000_0000) by (nonlinear_arith)
                requires
                    j < 361,
            ;
        }
        squares = squares + (w as u128) * dd;
        j = j + 1;
    }
    assert(buckets@.subrange(0, buckets@.len() as int) =~= buckets@);
    WeightedVariance { numerator: squares, denominator: total }
}

} // verus!
