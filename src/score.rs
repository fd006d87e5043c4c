//! The per-score analyzer: one forward pass over a score's parsed hits.
use vstd::prelude::*;
use crate::histogram::{NUM_OFFSET_BUCKETS, OFFSET_BUCKET_RANGE};
use crate::combo::FastestCombo;

verus! {

/// Deviations up to this many nanoseconds (either sign) keep the combo going.
pub const COMBO_BREAK_THRESHOLD_NS: i64 = 90_000_000;

/// Deviations up to this many nanoseconds (either sign) are marvelous.
pub const MARVELOUS_THRESHOLD_NS: i64 = 22_500_000;

/// Scores whose wifescore, in billionths, lies below this value also feed the
/// sub-93% histogram.
pub const WIFESCORE_SPLIT_PPB: i64 = 930_000_000;

/// One hit of a replay: the note's tick, the signed deviation of the hit in
/// nanoseconds (negative is early), and the column.
#[derive(Clone, Copy, Debug, PartialEq, Eq)]
pub struct ReplayEvent {
    pub tick: u64,
    pub deviation: i64,
    pub column: u8,
}

pub open spec fn is_combo_break(e: ReplayEvent) -> bool {
    e.deviation > COMBO_BREAK_THRESHOLD_NS || e.deviation < -COMBO_BREAK_THRESHOLD_NS
}

pub open spec fn is_marvelous(e: ReplayEvent) -> bool {
    -MARVELOUS_THRESHOLD_NS <= e.deviation <= MARVELOUS_THRESHOLD_NS
}

/// A deviation in nanoseconds rounded to whole milliseconds, halves away from zero.
pub open spec fn offset_ms(dev: int) -> int {
    if dev >= 0 {
        (dev + 500_000) / 1_000_000
    } else {
        -((-dev + 500_000) / 1_000_000)
    }
}

/// The histogram bucket of a deviation; only `0..361` is kept.
pub open spec fn bucket_index(dev: int) -> int {
    offset_ms(dev) + OFFSET_BUCKET_RANGE
}

/// Number of events of `s` that satisfy `p`.
pub open spec fn count_where(s: Seq<ReplayEvent>, p: spec_fn(ReplayEvent) -> bool) -> nat
    decreases s.len(),
{
    if s.len() == 0 {
        0
    } else {
        count_where(s.drop_last(), p) + if p(s.last()) { 1nat } else { 0nat }
    }
}

/// Number of events whose tick lies below the tick of the event just before it.
pub open spec fn manipulated_count(s: Seq<ReplayEvent>) -> nat
    decreases s.len(),
{
    if s.len() == 0 {
        0
    } else {
        manipulated_count(s.drop_last()) + if s.len() >= 2 && s.last().tick < s[s.len()
            - 2].tick {
            1nat
        } else {
            0nat
        }
    }
}

/// Sum of the deviations of the events that are no combo-break.
pub open spec fn deviation_total(s: Seq<ReplayEvent>) -> int
    decreases s.len(),
{
    if s.len() == 0 {
        0
    } else {
        deviation_total(s.drop_last()) + if is_combo_break(s.last()) {
            0
        } else {
            s.last().deviation as int
        }
    }
}

/// Length of the run of marvelous events that ends `s`.
pub open spec fn trailing_marvelous(s: Seq<ReplayEvent>) -> nat
    decreases s.len(),
{
    if s.len() == 0 {
        0
    } else if is_marvelous(s.last()) {
        trailing_marvelous(s.drop_last()) + 1
    } else {
        0
    }
}

/// Length of the longest run of consecutive marvelous events in `s`.
pub open spec fn longest_marvelous(s: Seq<ReplayEvent>) -> nat
    decreases s.len(),
{
    if s.len() == 0 {
        0
    } else {
        let a = longest_marvelous(s.drop_last());
        let b = trailing_marvelous(s);
        if a >= b {
            a
        } else {
            b
        }
    }
}

/// What one forward pass over a score's events gives. The per-column vectors
/// have 4 entries and the histograms `NUM_OFFSET_BUCKETS`.
#[derive(Clone, Debug)]
pub struct ScoreAnalysis {
    /// number of events
    pub num_notes: u64,
    /// number of events hit out of order (see `manipulated_count`)
    pub num_manipulated: u64,
    /// sum of the non-combo-break deviations, in nanoseconds
    pub deviation_sum: i128,
    /// number of events that are no combo-break
    pub num_deviation_notes: u64,
    pub notes_per_column: Vec<u64>,
    pub cbs_per_column: Vec<u64>,
    /// longest run of marvelous hits
    pub longest_mcombo: u64,
    pub offset_buckets: Vec<u64>,
    /// like `offset_buckets`, for scores below the wifescore split only
    pub sub_93_offset_buckets: Vec<u64>,
    /// fastest sustained combo, once the hits have been timed
    pub fastest_combo: Option<FastestCombo>,
}

impl ScoreAnalysis {
    pub open spec fn well_formed(&self) -> bool {
        &&& self.notes_per_column@.len() == 4
        &&& self.cbs_per_column@.len() == 4
        &&& self.offset_buckets@.len() == NUM_OFFSET_BUCKETS
        &&& self.sub_93_offset_buckets@.len() == NUM_OFFSET_BUCKETS
    }

    /// The analysis of the events `s` of a score with wifescore `wifescore_ppb`
    /// (in billionths).
    pub open spec fn describes(&self, s: Seq<ReplayEvent>, wifescore_ppb: int) -> bool {
        &&& self.well_formed()
        &&& self.num_notes == s.len()
        &&& self.num_manipulated == manipulated_count(s)
        &&& self.deviation_sum == deviation_total(s)
        &&& self.num_deviation_notes == count_where(s, |e: ReplayEvent| !is_combo_break(e))
        &&& forall|c: int|
            0 <= c < 4 ==> self.notes_per_column@[c] == count_where(
                s,
                |e: ReplayEvent| e.column == c,
            )
        &&& forall|c: int|
            0 <= c < 4 ==> self.cbs_per_column@[c] == count_where(
                s,
                |e: ReplayEvent| e.column == c && is_combo_break(e),
            )
        &&& self.longest_mcombo == longest_marvelous(s)
        &&& forall|b: int|
            0 <= b < NUM_OFFSET_BUCKETS ==> self.offset_buckets@[b] == count_where(
                s,
                |e: ReplayEvent| bucket_index(e.deviation as int) == b,
            )
        &&& forall|b: int|
            0 <= b < NUM_OFFSET_BUCKETS ==> self.sub_93_offset_buckets@[b] == if wifescore_ppb
                < WIFESCORE_SPLIT_PPB {
                count_where(s, |e: ReplayEvent| bucket_index(e.deviation as int) == b)
            } else {
                0
            }
    }
}

/// A vector of `n` zeros.
pub fn zeros(n: usize) -> (r: Vec<u64>)
    ensures
        r@.len() == n,
        forall|i: int| 0 <= i < n ==> r@[i] == 0,
{
    let mut r: Vec<u64> = Vec::new();
    let mut i: usize = 0;
    while i < n
        invariant
            i <= n,
            r@.len() == i,
            forall|k: int| 0 <= k < i ==> r@[k] == 0,
        decreases n - i,
    {
        r.push(0);
        i = i + 1;
    }
    r
}

fn bucket_of(deviation: i64) -> (r: i128)
    ensures
        r == bucket_index(deviation as int),
{
    let d: i128 = deviation as i128;
    let ms: i128 = if d >= 0 {
        (d + 500_000) / 1_000_000
    } else {
        -((-d + 500_000) / 1_000_000)
    };
    ms + OFFSET_BUCKET_RANGE as i128
}

/// Analyzes the hits of one score in a single forward pass: counts of notes
/// and of out-of-order hits, the sum and count of non-combo-break deviations,
/// per-column note and combo-break counts, the longest marvelous run (a run
/// still open at the end counts too), and the two timing histograms.
pub fn analyze_events(events: &Vec<ReplayEvent>, wifescore_ppb: i64) -> (r: ScoreAnalysis)
    requires
        events@.len() <= u64::MAX,
    ensures
        r.describes(events@, wifescore_ppb as int),
        r.fastest_combo.is_none(),
{
    let sub_93 = wifescore_ppb < WIFESCORE_SPLIT_PPB;
    let mut num_manipulated: u64 = 0;
    let mut deviation_sum: i128 = 0;
    let mut num_deviation_notes: u64 = 0;
    let mut notes_per_column = zeros(4);
    let mut cbs_per_column = zeros(4);
    let mut offset_buckets = zeros(NUM_OFFSET_BUCKETS);
    let mut sub_93_offset_buckets = zeros(NUM_OFFSET_BUCKETS);
    let mut mcombo: u64 = 0;
    let mut longest_mcombo: u64 = 0;
    let mut prev_tick: u64 = 0;
    let mut i: usize = 0;
    assert(events@.subrange(0, 0) =~= Seq::<ReplayEvent>::empty());
    while i < events.len()
        invariant
            events@.len() <= u64::MAX,
            0 <= i <= events@.len(),
            sub_93 == (wifescore_ppb < WIFESCORE_SPLIT_PPB),
            prev_tick == if i == 0 { 0 } else { events@[i - 1].tick },
            ({
                let pre = events@.subrange(0, i as int);
                &&& num_manipulated == manipulated_count(pre)
                &&& deviation_sum == deviation_total(pre)
                &&& num_deviation_notes == count_where(pre, |e: ReplayEvent| !is_combo_break(e))
                &&& mcombo == trailing_marvelous(pre)
                &&& (if longest_mcombo >= mcombo { longest_mcombo as nat } else { mcombo as nat })
                    == longest_marvelous(pre)
                &&& notes_per_column@.len() == 4
                &&& cbs_per_column@.len() == 4
                &&& offset_buckets@.len() == NUM_OFFSET_BUCKETS
                &&& sub_93_offset_buckets@.len() == NUM_OFFSET_BUCKETS
                &&& forall|c: int|
                    0 <= c < 4 ==> notes_per_column@[c] == count_where(
                        pre,
                        |e: ReplayEvent| e.column == c,
                    )
                &&& forall|c: int|
                    0 <= c < 4 ==> cbs_per_column@[c] == count_where(
                        pre,
                        |e: ReplayEvent| e.column == c && is_combo_break(e),
                    )
                &&& forall|b: int|
                    0 <= b < NUM_OFFSET_BUCKETS ==> offset_buckets@[b] == count_where(
                        pre,
                        |e: ReplayEvent| bucket_index(e.deviation as int) == b,
                    )
                &&& forall|b: int|
                    0 <= b < NUM_OFFSET_BUCKETS ==> sub_93_offset_buckets@[b] == if sub_93 {
                        count_where(pre, |e: ReplayEvent| bucket_index(e.deviation as int) == b)
                    } else {
                        0
                    }
            }),
            num_manipulated <= i,
            num_deviation_notes <= i,
            mcombo <= i,
            longest_mcombo <= i,
            -90_000_000 * i <= deviation_sum <= 90_000_000 * i,
            forall|c: int| 0 <= c < 4 ==> notes_per_column@[c] <= i && cbs_per_column@[c] <= i,
            forall|b: int|
                0 <= b < NUM_OFFSET_BUCKETS ==> offset_buckets@[b] <= i
                    && sub_93_offset_buckets@[b] <= i,
        decreases events@.len() - i,
    {
        let e = events[i];
        let ghost pre = events@.subrange(0, i as int);
        let ghost post = events@.subrange(0, i as int + 1);
        assert(post.drop_last() =~= pre);
        assert(post.last() == e);
        if i >= 1 {
            assert(post[post.len() - 2] == events@[i - 1]);
        }
        if e.tick < prev_tick {
            num_manipulated = num_manipulated + 1;
        }
        let cb = e.deviation > COMBO_BREAK_THRESHOLD_NS || e.deviation < -COMBO_BREAK_THRESHOLD_NS;
        if !cb {
            deviation_sum = deviation_sum + e.deviation as i128;
            num_deviation_notes = num_deviation_notes + 1;
        }
        if e.column < 4 {
            let c = e.column as usize;
            notes_per_column.set(c, notes_per_column[c] + 1);
            if cb {
                cbs_per_column.set(c, cbs_per_column[c] + 1);
            }
        }
        if -MARVELOUS_THRESHOLD_NS <= e.deviation && e.deviation <= MARVELOUS_THRESHOLD_NS {
            mcombo = mcombo + 1;
        } else {
            if mcombo > longest_mcombo {
                longest_mcombo = mcombo;
            }
            mcombo = 0;
        }
        let bucket = bucket_of(e.deviation);
        if 0 <= bucket && bucket < NUM_OFFSET_BUCKETS as i128 {
            let b = bucket as usize;
            offset_buckets.set(b, offset_buckets[b] + 1);
            if sub_93 {
                sub_93_offset_buckets.set(b, sub_93_offset_buckets[b] + 1);
            }
        }
        prev_tick = e.tick;
        i = i + 1;
    }
    assert(events@.subrange(0, events@.len() as int) =~= events@);
    if mcombo > longest_mcombo {
        longest_mcombo = mcombo;
    }
    ScoreAnalysis {
        num_notes: events.len() as u64,
        num_manipulated,
        deviation_sum,
        num_deviation_notes,
        notes_per_column,
        cbs_per_column,
        longest_mcombo,
        offset_buckets,
        sub_93_offset_buckets,
        fastest_combo: None,
    }
}

} // verus!
