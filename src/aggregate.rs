//! The ordered fold of many score results into one aggregate.
use vstd::prelude::*;
use crate::combo::{FastestCombo, faster_than, is_faster};
use crate::histogram::{NUM_OFFSET_BUCKETS, WeightedVariance, weighted_variance};
use crate::score::{ScoreAnalysis, zeros};

verus! {

/// An exact fraction `numerator / denominator`; `x / 0` is left undefined.
#[derive(Clone, Copy, Debug, PartialEq, Eq)]
pub struct Ratio {
    pub numerator: i128,
    pub denominator: u64,
}

/// The aggregate over a batch of scores, each given at its position in the
/// batch, or absent where it could not be analyzed.
#[derive(Clone, Debug)]
pub struct AggregateAnalysis {
    /// positions of the analyzed scores, ascending
    pub score_indices: Vec<u64>,
    /// for each analyzed score, hits out of order over all hits
    pub manipulations: Vec<Ratio>,
    /// for each analyzed score, the sum of its non-combo-break deviations
    /// (nanoseconds) over their number; the aggregate mean is their mean
    pub deviation_means: Vec<Ratio>,
    pub notes_per_column: Vec<u64>,
    pub cbs_per_column: Vec<u64>,
    /// the longest marvelous combo of any score
    pub longest_mcombo: u64,
    /// position of the first score with that combo, if it is longer than zero
    pub longest_mcombo_index: Option<u64>,
    pub offset_buckets: Vec<u64>,
    pub sub_93_offset_buckets: Vec<u64>,
    /// variance of `offset_buckets`
    pub variance: WeightedVariance,
    /// the fastest combo of any score, with the position of the first score
    /// that has it
    pub fastest_combo: Option<(u64, FastestCombo)>,
}

/// Sum of `f` over the scores that are present.
pub open spec fn sum_present(
    scores: Seq<Option<ScoreAnalysis>>,
    f: spec_fn(ScoreAnalysis) -> int,
) -> int
    decreases scores.len(),
{
    if scores.len() == 0 {
        0
    } else {
        sum_present(scores.drop_last(), f) + match scores.last() {
            Some(s) => f(s),
            None => 0,
        }
    }
}

/// Positions of the scores that are present.
pub open spec fn present_positions(scores: Seq<Option<ScoreAnalysis>>) -> Seq<u64>
    decreases scores.len(),
{
    if scores.len() == 0 {
        Seq::empty()
    } else {
        let prev = present_positions(scores.drop_last());
        match scores.last() {
            Some(_) => prev.push((scores.len() - 1) as u64),
            None => prev,
        }
    }
}

/// `f` of each score that is present, in order.
pub open spec fn map_present(scores: Seq<Option<ScoreAnalysis>>, f: spec_fn(ScoreAnalysis) -> Ratio) -> Seq<
    Ratio,
>
    decreases scores.len(),
{
    if scores.len() == 0 {
        Seq::empty()
    } else {
        let prev = map_present(scores.drop_last(), f);
        match scores.last() {
            Some(s) => prev.push(f(s)),
            None => prev,
        }
    }
}

pub open spec fn manipulation_of(s: ScoreAnalysis) -> Ratio {
    Ratio { numerator: s.num_manipulated as i128, denominator: s.num_notes }
}

pub open spec fn deviation_mean_of(s: ScoreAnalysis) -> Ratio {
    Ratio { numerator: s.deviation_sum, denominator: s.num_deviation_notes }
}

/// The longest marvelous combo among the scores, and the position of the
/// first score that reaches it where it is longer than zero.
pub open spec fn longest_mcombo_of(scores: Seq<Option<ScoreAnalysis>>) -> (u64, Option<u64>)
    decreases scores.len(),
{
    if scores.len() == 0 {
        (0, None)
    } else {
        let prev = longest_mcombo_of(scores.drop_last());
        match scores.last() {
            Some(s) => if s.longest_mcombo > prev.0 {
                (s.longest_mcombo, Some((scores.len() - 1) as u64))
            } else {
                prev
            },
            None => prev,
        }
    }
}

/// The fastest combo among the scores, with the position of the first score
/// that has it.
pub open spec fn fastest_combo_of(scores: Seq<Option<ScoreAnalysis>>) -> Option<(u64, FastestCombo)>
    decreases scores.len(),
{
    if scores.len() == 0 {
        None
    } else {
        let prev = fastest_combo_of(scores.drop_last());
        let prev_combo = match prev {
            Some(p) => Some(p.1),
            None => None,
        };
        match scores.last() {
            Some(s) => match s.fastest_combo {
                Some(c) => if faster_than(c, prev_combo) {
                    Some(((scores.len() - 1) as u64, c))
                } else {
                    prev
                },
                None => prev,
            },
            None => prev,
        }
    }
}

pub open spec fn column_notes(c: int) -> spec_fn(ScoreAnalysis) -> int {
    |s: ScoreAnalysis| s.notes_per_column@[c] as int
}

pub open spec fn column_cbs(c: int) -> spec_fn(ScoreAnalysis) -> int {
    |s: ScoreAnalysis| s.cbs_per_column@[c] as int
}

pub open spec fn bucket_count(b: int) -> spec_fn(ScoreAnalysis) -> int {
    |s: ScoreAnalysis| s.offset_buckets@[b] as int
}

pub open spec fn sub_93_bucket_count(b: int) -> spec_fn(ScoreAnalysis) -> int {
    |s: ScoreAnalysis| s.sub_93_offset_buckets@[b] as int
}

/// Every score that is present is well formed, and every total of the
/// aggregate fits its counter.
pub open spec fn batch_fits(scores: Seq<Option<ScoreAnalysis>>) -> bool {
    &&& scores.len() <= u64::MAX
    &&& forall|i: int| 0 <= i < scores.len() && scores[i].is_some() ==> scores[i].unwrap().well_formed()
    &&& forall|c: int|
        0 <= c < 4 ==> sum_present(scores, column_notes(c)) <= u64::MAX && sum_present(
            scores,
            column_cbs(c),
        ) <= u64::MAX
    &&& forall|b: int|
        0 <= b < NUM_OFFSET_BUCKETS ==> sum_present(scores, bucket_count(b)) <= u64::MAX
            && sum_present(scores, sub_93_bucket_count(b)) <= u64::MAX
}

proof fn lemma_sum_monotone(scores: Seq<Option<ScoreAnalysis>>, f: spec_fn(ScoreAnalysis) -> int, i: int, j: int)
    requires
        0 <= i <= j <= scores.len(),
        forall|k: int| 0 <= k < scores.len() && scores[k].is_some() ==> f(scores[k].unwrap()) >= 0,
    ensures
        sum_present(scores.subrange(0, i), f) <= sum_present(scores.subrange(0, j), f),
    decreases j - i,
{
    if i < j {
        lemma_sum_monotone(scores, f, i, j - 1);
        assert(scores.subrange(0, j).drop_last() =~= scores.subrange(0, j - 1));
    }
}

proof fn lemma_longest_mcombo_covers(scores: Seq<Option<ScoreAnalysis>>, i: int)
    requires
        0 <= i < scores.len(),
        scores[i].is_some(),
    ensures
        longest_mcombo_of(scores).0 >= scores[i].unwrap().longest_mcombo,
    decreases scores.len(),
{
    if i < scores.len() - 1 {
        assert(scores.drop_last()[i] == scores[i]);
        lemma_longest_mcombo_covers(scores.drop_last(), i);
    }
}

proof fn lemma_longest_mcombo_owner(scores: Seq<Option<ScoreAnalysis>>, j: int)
    requires
        scores.len() <= u64::MAX,
        0 <= j <= u64::MAX,
        longest_mcombo_of(scores).1 == Some(j as u64),
    ensures
        j < scores.len(),
        scores[j].is_some(),
        longest_mcombo_of(scores.subrange(0, j)).0 < scores[j].unwrap().longest_mcombo,
    decreases scores.len(),
{
    if scores.len() > 0 {
        let prev = longest_mcombo_of(scores.drop_last());
        if longest_mcombo_of(scores) == prev {
            lemma_longest_mcombo_owner(scores.drop_last(), j);
            assert(scores.drop_last().subrange(0, j) =~= scores.subrange(0, j));
            assert(scores.drop_last()[j] == scores[j]);
        } else {
            assert(scores.drop_last() =~= scores.subrange(0, j));
        }
    }
}

/// Of two analyzed scores with the same longest marvelous combo, the later one
/// is never recorded as the owner of the batch's longest marvelous combo.
pub proof fn lemma_longest_mcombo_earliest_wins(scores: Seq<Option<ScoreAnalysis>>, i: int, j: int)
    requires
        scores.len() <= u64::MAX,
        0 <= i < j < scores.len(),
        scores[i].is_some(),
        scores[j].is_some(),
        scores[i].unwrap().longest_mcombo == scores[j].unwrap().longest_mcombo,
    ensures
        longest_mcombo_of(scores).1 != Some(j as u64),
{
    if longest_mcombo_of(scores).1 == Some(j as u64) {
        lemma_longest_mcombo_owner(scores, j);
        let pre = scores.subrange(0, j);
        assert(pre[i] == scores[i]);
        lemma_longest_mcombo_covers(pre, i);
    }
}

/// A batch in which no score was analyzed has no positions and no ratios,
/// zero in every summed counter and an empty summed histogram (so its
/// variance is `0 / 0`), and no owner of a longest or fastest combo.
pub proof fn lemma_empty_batch(scores: Seq<Option<ScoreAnalysis>>)
    requires
        forall|i: int| 0 <= i < scores.len() ==> scores[i].is_none(),
    ensures
        present_positions(scores) == Seq::<u64>::empty(),
        map_present(scores, |s: ScoreAnalysis| manipulation_of(s)) == Seq::<Ratio>::empty(),
        map_present(scores, |s: ScoreAnalysis| deviation_mean_of(s)) == Seq::<Ratio>::empty(),
        forall|f: spec_fn(ScoreAnalysis) -> int| sum_present(scores, f) == 0,
        longest_mcombo_of(scores) == (0u64, Option::<u64>::None),
        fastest_combo_of(scores).is_none(),
        forall|h: Seq<u64>|
            h.len() == NUM_OFFSET_BUCKETS && (forall|b: int|
                0 <= b < NUM_OFFSET_BUCKETS ==> h[b] == sum_present(scores, bucket_count(b)))
                ==> crate::histogram::weight_sum(h) == 0,
    decreases scores.len(),
{
    if scores.len() > 0 {
        lemma_empty_batch(scores.drop_last());
    }
    assert forall|f: spec_fn(ScoreAnalysis) -> int| sum_present(scores, f) == 0 by {
        if scores.len() > 0 {
            assert(sum_present(scores.drop_last(), f) == 0);
        }
    }
    assert forall|h: Seq<u64>|
        h.len() == NUM_OFFSET_BUCKETS && (forall|b: int|
            0 <= b < NUM_OFFSET_BUCKETS ==> h[b] == sum_present(scores, bucket_count(b)))
            implies crate::histogram::weight_sum(h) == 0 by {
        assert forall|i: int| 0 <= i < h.len() implies h[i] == 0 by {
            assert(sum_present(scores, bucket_count(i)) == 0);
        }
        crate::histogram::lemma_zero_weight(h);
    }
}

/// Folds the per-score results, in batch order, into the aggregate: the
/// positions, manipulation ratios and deviation means of the analyzed scores;
/// per-column counts and both histograms summed; the longest marvelous combo
/// and the fastest combo, each with the first score that reaches it; and the
/// variance of the summed histogram.
pub fn aggregate(scores: &Vec<Option<ScoreAnalysis>>) -> (r: AggregateAnalysis)
    requires
        batch_fits(scores@),
    ensures
        r.score_indices@ == present_positions(scores@),
        r.manipulations@ == map_present(scores@, |s: ScoreAnalysis| manipulation_of(s)),
        r.deviation_means@ == map_present(scores@, |s: ScoreAnalysis| deviation_mean_of(s)),
        r.notes_per_column@.len() == 4,
        r.cbs_per_column@.len() == 4,
        forall|c: int|
            0 <= c < 4 ==> r.notes_per_column@[c] == sum_present(scores@, column_notes(c))
                && r.cbs_per_column@[c] == sum_present(scores@, column_cbs(c)),
        r.offset_buckets@.len() == NUM_OFFSET_BUCKETS,
        r.sub_93_offset_buckets@.len() == NUM_OFFSET_BUCKETS,
        forall|b: int|
            0 <= b < NUM_OFFSET_BUCKETS ==> r.offset_buckets@[b] == sum_present(scores@, bucket_count(b))
                && r.sub_93_offset_buckets@[b] == sum_present(scores@, sub_93_bucket_count(b)),
        (r.longest_mcombo, r.longest_mcombo_index) == longest_mcombo_of(scores@),
        r.fastest_combo == fastest_combo_of(scores@),
        r.variance.denominator == crate::histogram::weight_sum(r.offset_buckets@),
        crate::histogram::weight_sum(r.offset_buckets@) > 0 ==> r.variance.numerator
            == crate::histogram::squared_deviation_sum(
            r.offset_buckets@,
            crate::histogram::truncated_mean(r.offset_buckets@),
        ),
        crate::histogram::weight_sum(r.offset_buckets@) == 0 ==> r.variance.numerator == 0,
{
    let mut score_indices: Vec<u64> = Vec::new();
    let mut manipulations: Vec<Ratio> = Vec::new();
    let mut deviation_means: Vec<Ratio> = Vec::new();
    let mut notes_per_column = zeros(4);
    let mut cbs_per_column = zeros(4);
    let mut offset_buckets = zeros(NUM_OFFSET_BUCKETS);
    let mut sub_93_offset_buckets = zeros(NUM_OFFSET_BUCKETS);
    let mut longest_mcombo: u64 = 0;
    let mut longest_mcombo_index: Option<u64> = None;
    let mut fastest: Option<(u64, FastestCombo)> = None;
    let mut i: usize = 0;
    assert(scores@.subrange(0, 0) =~= Seq::<Option<ScoreAnalysis>>::empty());
    while i < scores.len()
        invariant
            batch_fits(scores@),
            0 <= i <= scores@.len(),
            ({
                let pre = scores@.subrange(0, i as int);
                &&& score_indices@ == present_positions(pre)
                &&& manipulations@ == map_present(pre, |s: ScoreAnalysis| manipulation_of(s))
                &&& deviation_means@ == map_present(pre, |s: ScoreAnalysis| deviation_mean_of(s))
                &&& notes_per_column@.len() == 4
                &&& cbs_per_column@.len() == 4
                &&& offset_buckets@.len() == NUM_OFFSET_BUCKETS
                &&& sub_93_offset_buckets@.len() == NUM_OFFSET_BUCKETS
                &&& forall|c: int|
                    0 <= c < 4 ==> notes_per_column@[c] == sum_present(pre, column_notes(c))
                        && cbs_per_column@[c] == sum_present(pre, column_cbs(c))
                &&& forall|b: int|
                    0 <= b < NUM_OFFSET_BUCKETS ==> offset_buckets@[b] == sum_present(pre, bucket_count(b))
                        && sub_93_offset_buckets@[b] == sum_present(pre, sub_93_bucket_count(b))
                &&& (longest_mcombo, longest_mcombo_index) == longest_mcombo_of(pre)
                &&& fastest == fastest_combo_of(pre)
            }),
        decreases scores@.len() - i,
    {
        let ghost pre = scores@.subrange(0, i as int);
        let ghost post = scores@.subrange(0, i as int + 1);
        assert(post.drop_last() =~= pre);
        assert(post.last() == scores@[i as int]);
        match &scores[i] {
            Some(s) => {
                assert(s.well_formed());
                proof {
                    assert forall|c: int| 0 <= c < 4 implies sum_present(post, column_notes(c)) <= u64::MAX
                        && sum_present(post, column_cbs(c)) <= u64::MAX by {
                        lemma_sum_monotone(scores@, column_notes(c), i + 1, scores@.len() as int);
                        lemma_sum_monotone(scores@, column_cbs(c), i + 1, scores@.len() as int);
                        assert(scores@.subrange(0, scores@.len() as int) =~= scores@);
                    }
                    assert forall|b: int| 0 <= b < NUM_OFFSET_BUCKETS implies sum_present(post, bucket_count(b)) <= u64::MAX
                        && sum_present(post, sub_93_bucket_count(b)) <= u64::MAX by {
                        lemma_sum_monotone(scores@, bucket_count(b), i + 1, scores@.len() as int);
                        lemma_sum_monotone(scores@, sub_93_bucket_count(b), i + 1, scores@.len() as int);
                        assert(scores@.subrange(0, scores@.len() as int) =~= scores@);
                    }
                }
                score_indices.push(i as u64);
                manipulations.push(Ratio { numerator: s.num_manipulated as i128, denominator: s.num_notes });
                deviation_means.push(Ratio { numerator: s.deviation_sum, denominator: s.num_deviation_notes });
                let mut c: usize = 0;
                while c < 4
                    invariant
                        0 <= c <= 4,
                        s.well_formed(),
                        notes_per_column@.len() == 4,
                        cbs_per_column@.len() == 4,
                        forall|k: int| 0 <= k < 4 ==> sum_present(post, column_notes(k)) <= u64::MAX
                            && sum_present(post, column_cbs(k)) <= u64::MAX,
                        forall|k: int| 0 <= k < 4 ==> sum_present(post, column_notes(k)) == sum_present(pre, column_notes(k)) + s.notes_per_column@[k]
                            && sum_present(post, column_cbs(k)) == sum_present(pre, column_cbs(k)) + s.cbs_per_column@[k],
                        forall|k: int| 0 <= k < c ==> notes_per_column@[k] == sum_present(post, column_notes(k))
                            && cbs_per_column@[k] == sum_present(post, column_cbs(k)),
                        forall|k: int| c <= k < 4 ==> notes_per_column@[k] == sum_present(pre, column_notes(k))
                            && cbs_per_column@[k] == sum_present(pre, column_cbs(k)),
                    decreases 4 - c,
                {
                    notes_per_column.set(c, notes_per_column[c] + s.notes_per_column[c]);
                    cbs_per_column.set(c, cbs_per_column[c] + s.cbs_per_column[c]);
                    c = c + 1;
                }
                let mut b: usize = 0;
                while b < NUM_OFFSET_BUCKETS
                    invariant
                        0 <= b <= NUM_OFFSET_BUCKETS,
                        s.well_formed(),
                        offset_buckets@.len() == NUM_OFFSET_BUCKETS,
                        sub_93_offset_buckets@.len() == NUM_OFFSET_BUCKETS,
                        forall|k: int| 0 <= k < NUM_OFFSET_BUCKETS ==> sum_present(post, bucket_count(k)) <= u64::MAX
                            && sum_present(post, sub_93_bucket_count(k)) <= u64::MAX,
                        forall|k: int| 0 <= k < NUM_OFFSET_BUCKETS ==> sum_present(post, bucket_count(k)) == sum_present(pre, bucket_count(k)) + s.offset_buckets@[k]
                            && sum_present(post, sub_93_bucket_count(k)) == sum_present(pre, sub_93_bucket_count(k)) + s.sub_93_offset_buckets@[k],
                        forall|k: int| 0 <= k < b ==> offset_buckets@[k] == sum_present(post, bucket_count(k))
                            && sub_93_offset_buckets@[k] == sum_present(post, sub_93_bucket_count(k)),
                        forall|k: int| b <= k < NUM_OFFSET_BUCKETS ==> offset_buckets@[k] == sum_present(pre, bucket_count(k))
                            && sub_93_offset_buckets@[k] == sum_present(pre, sub_93_bucket_count(k)),
                    decreases NUM_OFFSET_BUCKETS - b,
                {
                    offset_buckets.set(b, offset_buckets[b] + s.offset_buckets[b]);
                    sub_93_offset_buckets.set(b, sub_93_offset_buckets[b] + s.sub_93_offset_buckets[b]);
                    b = b + 1;
                }
                if s.longest_mcombo > longest_mcombo {
                    longest_mcombo = s.longest_mcombo;
                    longest_mcombo_index = Some(i as u64);
                }
                match s.fastest_combo {
                    Some(c) => {
                        let prev_combo = match fastest {
                            Some(p) => Some(p.1),
                            None => None,
                        };
                        if is_faster(&c, &prev_combo) {
                            fastest = Some((i as u64, c));
                        }
                    },
                    None => {},
                }
            },
            None => {},
        }
        i = i + 1;
    }
    assert(scores@.subrange(0, scores@.len() as int) =~= scores@);
    let variance = weighted_variance(offset_buckets.as_slice());
    AggregateAnalysis {
        score_indices,
        manipulations,
        deviation_means,
        notes_per_column,
        cbs_per_column,
        longest_mcombo,
        longest_mcombo_index,
        offset_buckets,
        sub_93_offset_buckets,
        variance,
        fastest_combo: fastest,
    }
}

} // verus!
