//! Fastest sustained combo: maximal runs of hits that are no combo-break,
//! timed by the seconds that a score's sorted ticks convert to.
use vstd::prelude::*;
use crate::score::{ReplayEvent, ScoreAnalysis, analyze_events, is_combo_break};

verus! {

/// Runs shorter than this many notes are not considered.
pub const MIN_COMBO_NOTES: usize = 100;

const TWO_POW_64: u128 = 0x1_0000_0000_0000_0000;

/// A combo: `length` note-to-note steps (one less than its notes) over
/// `duration_ns` nanoseconds of song time, played at a rate of `rate_milli`
/// thousandths. Its speed in notes per second is
/// `length * rate_milli * 1_000_000 / duration_ns`.
#[derive(Clone, Copy, Debug, PartialEq, Eq)]
pub struct FastestCombo {
    pub length: u64,
    pub duration_ns: u64,
    pub rate_milli: u32,
}

impl FastestCombo {
    /// Numerator of the speed, up to a constant factor common to all combos.
    pub open spec fn speed_num(self) -> int {
        self.length * self.rate_milli
    }

    /// Denominator of the speed.
    pub open spec fn speed_den(self) -> int {
        self.duration_ns as int
    }
}

/// Whether the speed `an / ad` exceeds `bn / bd`, all of them non-negative.
/// A positive number over zero is infinite; `0 / 0` exceeds nothing.
pub open spec fn speed_exceeds(an: int, ad: int, bn: int, bd: int) -> bool {
    if an == 0 {
        false
    } else if ad == 0 {
        bd != 0
    } else {
        an * bd > bn * ad
    }
}

/// Whether combo `a` is faster than `b`, where no combo has speed zero.
pub open spec fn faster_than(a: FastestCombo, b: Option<FastestCombo>) -> bool {
    match b {
        None => speed_exceeds(a.speed_num(), a.speed_den(), 0, 1),
        Some(b) => speed_exceeds(a.speed_num(), a.speed_den(), b.speed_num(), b.speed_den()),
    }
}

/// First index of the run of equal flags that holds index `k`.
pub open spec fn run_start(cbs: Seq<bool>, k: int) -> int
    decreases k,
{
    if k <= 0 {
        0
    } else if cbs[k - 1] != cbs[k] {
        k
    } else {
        run_start(cbs, k - 1)
    }
}

/// Whether the run of equal flags that holds index `k` ends there, among the
/// first `n` flags.
pub open spec fn run_ends_at(cbs: Seq<bool>, n: int, k: int) -> bool {
    k == n - 1 || cbs[k + 1] != cbs[k]
}

/// The combo of the run that ends at `k`, if it is a run of hits that are no
/// combo-break, of at least `MIN_COMBO_NOTES` notes, whose time does not go
/// backwards.
pub open spec fn combo_ending_at(
    secs: Seq<i64>,
    cbs: Seq<bool>,
    n: int,
    k: int,
    rate_milli: u32,
) -> Option<FastestCombo> {
    let s = run_start(cbs, k);
    if run_ends_at(cbs, n, k) && !cbs[k] && k - s + 1 >= MIN_COMBO_NOTES && secs[k] >= secs[s] {
        Some(
            FastestCombo {
                length: (k - s) as u64,
                duration_ns: (secs[k] - secs[s]) as u64,
                rate_milli,
            },
        )
    } else {
        None
    }
}

/// How many positions two sequences of these lengths pair up.
pub open spec fn paired_len(a: nat, b: nat) -> int {
    if a <= b {
        a as int
    } else {
        b as int
    }
}

/// The fastest combo among the runs that end before index `k`; of equally
/// fast ones the first.
pub open spec fn fastest_before(
    secs: Seq<i64>,
    cbs: Seq<bool>,
    n: int,
    k: int,
    rate_milli: u32,
) -> Option<FastestCombo>
    decreases k,
{
    if k <= 0 {
        None
    } else {
        let prev = fastest_before(secs, cbs, n, k - 1, rate_milli);
        match combo_ending_at(secs, cbs, n, k - 1, rate_milli) {
            Some(c) => if faster_than(c, prev) {
                Some(c)
            } else {
                prev
            },
            None => prev,
        }
    }
}

proof fn lemma_split_product(p: int, q: int)
    requires
        0 <= p < 0x1_0000_0000_0000_0000_0000_0000,
        0 <= q < 0x1_0000_0000_0000_0000,
    ensures
        p * q == ((p / 0x1_0000_0000_0000_0000) * q + ((p % 0x1_0000_0000_0000_0000) * q)
            / 0x1_0000_0000_0000_0000) * 0x1_0000_0000_0000_0000 + ((p % 0x1_0000_0000_0000_0000)
            * q) % 0x1_0000_0000_0000_0000,
        (p / 0x1_0000_0000_0000_0000) * q < 0x1_0000_0000_0000_0000_0000_0000,
        (p % 0x1_0000_0000_0000_0000) * q < 0x1_0000_0000_0000_0000_0000_0000_0000_0000,
{
    let m: int = 0x1_0000_0000_0000_0000;
    let ph = p / m;
    let pl = p % m;
    assert(p == ph * m + pl);
    assert(ph < 0x1_0000_0000);
    assert(ph * q < 0x1_0000_0000_0000_0000_0000_0000) by (nonlinear_arith)
        requires
            0 <= ph < 0x1_0000_0000,
            0 <= q < 0x1_0000_0000_0000_0000,
    ;
    assert(pl * q < 0x1_0000_0000_0000_0000_0000_0000_0000_0000) by (nonlinear_arith)
        requires
            0 <= pl < 0x1_0000_0000_0000_0000,
            0 <= q < 0x1_0000_0000_0000_0000,
    ;
    let x = pl * q;
    assert(x == (x / m) * m + x % m);
    assert(p * q == ph * q * m + x) by (nonlinear_arith)
        requires
            p == ph * m + pl,
            x == pl * q,
    ;
    assert(p * q == (ph * q + x / m) * m + x % m) by (nonlinear_arith)
        requires
            p * q == ph * q * m + x,
            x == (x / m) * m + x % m,
    ;
}

proof fn lemma_lex(h1: int, l1: int, h2: int, l2: int)
    requires
        0 <= l1 < 0x1_0000_0000_0000_0000,
        0 <= l2 < 0x1_0000_0000_0000_0000,
    ensures
        (h1 * 0x1_0000_0000_0000_0000 + l1 > h2 * 0x1_0000_0000_0000_0000 + l2) == (h1 > h2 || (h1
            == h2 && l1 > l2)),
{
    let m: int = 0x1_0000_0000_0000_0000;
    if h1 > h2 {
        assert(h1 * m >= h2 * m + m) by (nonlinear_arith)
            requires
                h1 >= h2 + 1,
                m > 0,
        ;
    } else if h1 < h2 {
        assert(h2 * m >= h1 * m + m) by (nonlinear_arith)
            requires
                h2 >= h1 + 1,
                m > 0,
        ;
    }
}

/// Splits `p * q` into the two halves `(hi, lo)` of `hi * 2^64 + lo`.
fn wide_product(p: u128, q: u64) -> (r: (u128, u128))
    requires
        p < 0x1_0000_0000_0000_0000_0000_0000,
    ensures
        r.1 < 0x1_0000_0000_0000_0000,
        p * q == r.0 * 0x1_0000_0000_0000_0000 + r.1,
{
    proof {
        lemma_split_product(p as int, q as int);
    }
    let hi = (p / TWO_POW_64) * (q as u128);
    let lo_full = (p % TWO_POW_64) * (q as u128);
    (hi + lo_full / TWO_POW_64, lo_full % TWO_POW_64)
}

/// Whether `p * q > r * s`.
fn product_greater(p: u128, q: u64, r: u128, s: u64) -> (res: bool)
    requires
        p < 0x1_0000_0000_0000_0000_0000_0000,
        r < 0x1_0000_0000_0000_0000_0000_0000,
    ensures
        res == (p * q > r * s),
{
    let (h1, l1) = wide_product(p, q);
    let (h2, l2) = wide_product(r, s);
    proof {
        lemma_lex(h1 as int, l1 as int, h2 as int, l2 as int);
    }
    h1 > h2 || (h1 == h2 && l1 > l2)
}

fn speed_num(c: &FastestCombo) -> (r: u128)
    ensures
        r == c.speed_num(),
        r < 0x1_0000_0000_0000_0000_0000_0000,
{
    proof {
        assert(c.length * c.rate_milli < 0x1_0000_0000_0000_0000_0000_0000) by (nonlinear_arith)
            requires
                0 <= c.length < 0x1_0000_0000_0000_0000,
                0 <= c.rate_milli < 0x1_0000_0000,
        ;
    }
    (c.length as u128) * (c.rate_milli as u128)
}

/// Whether combo `a` is faster than `b` (or than speed zero where `b` is `None`).
pub fn is_faster(a: &FastestCombo, b: &Option<FastestCombo>) -> (r: bool)
    ensures
        r == faster_than(*a, *b),
{
    let an = speed_num(a);
    if an == 0 {
        return false;
    }
    match b {
        None => true,
        Some(b) => {
            if a.duration_ns == 0 {
                b.duration_ns != 0
            } else {
                let bn = speed_num(b);
                product_greater(an, b.duration_ns, bn, a.duration_ns)
            }
        },
    }
}

/// Relies on `slice::sort_unstable`: the same elements, in ascending order.
#[verifier::external_body]
fn sort_ascending(v: &mut Vec<u64>)
    ensures
        final(v)@.to_multiset() == old(v)@.to_multiset(),
        forall|i: int, j: int| 0 <= i <= j < final(v)@.len() ==> final(v)@[i] <= final(v)@[j],
{
    v.sort_unstable();
}

/// The ticks of the events, sorted ascending, as the tick-to-seconds
/// conversion wants them.
pub fn sorted_ticks(events: &Vec<ReplayEvent>) -> (r: Vec<u64>)
    ensures
        r@.to_multiset() == events@.map_values(|e: ReplayEvent| e.tick).to_multiset(),
        forall|i: int, j: int| 0 <= i <= j < r@.len() ==> r@[i] <= r@[j],
{
    let mut ticks: Vec<u64> = Vec::new();
    let mut i: usize = 0;
    while i < events.len()
        invariant
            0 <= i <= events@.len(),
            ticks@ == events@.subrange(0, i as int).map_values(|e: ReplayEvent| e.tick),
        decreases events@.len() - i,
    {
        ticks.push(events[i].tick);
        i = i + 1;
        assert(ticks@ =~= events@.subrange(0, i as int).map_values(|e: ReplayEvent| e.tick));
    }
    assert(events@.subrange(0, events@.len() as int) =~= events@);
    sort_ascending(&mut ticks);
    ticks
}

/// For each event in the order encountered, whether it is a combo-break.
pub fn combo_breaks(events: &Vec<ReplayEvent>) -> (r: Vec<bool>)
    ensures
        r@.len() == events@.len(),
        forall|i: int| 0 <= i < r@.len() ==> r@[i] == is_combo_break(events@[i]),
{
    let mut r: Vec<bool> = Vec::new();
    let mut i: usize = 0;
    while i < events.len()
        invariant
            0 <= i <= events@.len(),
            r@.len() == i,
            forall|k: int| 0 <= k < i ==> r@[k] == is_combo_break(events@[k]),
        decreases events@.len() - i,
    {
        let e = events[i];
        r.push(e.deviation > crate::score::COMBO_BREAK_THRESHOLD_NS || e.deviation
            < -crate::score::COMBO_BREAK_THRESHOLD_NS);
        i = i + 1;
    }
    r
}

/// The fastest combo of a score. `seconds` are the times in nanoseconds that
/// the sorted ticks convert to, `are_cbs` the combo-break flags in the order
/// the hits were encountered; the two are paired by position, as far as the
/// shorter reaches. Each maximal run of equal flags that is no combo-break,
/// holds at least `MIN_COMBO_NOTES` notes and spans a time that does not go
/// backwards is a candidate; the fastest wins, the first of equally fast ones.
pub fn fastest_combo(seconds: &Vec<i64>, are_cbs: &Vec<bool>, rate_milli: u32) -> (r: Option<
    FastestCombo,
>)
    ensures
        r == fastest_before(
            seconds@,
            are_cbs@,
            paired_len(seconds@.len(), are_cbs@.len()),
            paired_len(seconds@.len(), are_cbs@.len()),
            rate_milli,
        ),
{
    let n: usize = if seconds.len() <= are_cbs.len() {
        seconds.len()
    } else {
        are_cbs.len()
    };
    let mut best: Option<FastestCombo> = None;
    let mut start: usize = 0;
    let mut k: usize = 0;
    while k < n
        invariant
            n <= seconds@.len(),
            n <= are_cbs@.len(),
            0 <= k <= n,
            k > 0 ==> start == run_start(are_cbs@, k - 1),
            best == fastest_before(seconds@, are_cbs@, n as int, k as int, rate_milli),
        decreases n - k,
    {
        if k == 0 || are_cbs[k] != are_cbs[k - 1] {
            start = k;
        }
        assert(start == run_start(are_cbs@, k as int));
        assert(start <= k) by {
            lemma_run_start_bounds(are_cbs@, k as int);
        }
        let ends = k + 1 == n || are_cbs[k + 1] != are_cbs[k];
        if ends && !are_cbs[k] && k - start + 1 >= MIN_COMBO_NOTES && seconds[k] >= seconds[start] {
            let cand = FastestCombo {
                length: (k - start) as u64,
                duration_ns: (seconds[k] as i128 - seconds[start] as i128) as u64,
                rate_milli,
            };
            if is_faster(&cand, &best) {
                best = Some(cand);
            }
        }
        k = k + 1;
    }
    best
}

/// The combo-break flags of a score's events, in the order encountered.
pub open spec fn combo_break_flags(s: Seq<ReplayEvent>) -> Seq<bool> {
    s.map_values(|e: ReplayEvent| is_combo_break(e))
}

/// The fastest combo that `fastest_combo` finds for `secs` and the flags of `s`.
pub open spec fn fastest_of(secs: Seq<i64>, s: Seq<ReplayEvent>, rate_milli: u32) -> Option<
    FastestCombo,
> {
    let n = paired_len(secs.len(), s.len());
    fastest_before(secs, combo_break_flags(s), n, n, rate_milli)
}

/// Analyzes one score: the forward pass of `analyze_events` over its events,
/// then its fastest combo, where `seconds` (in nanoseconds) are what the
/// ticks of `sorted_ticks(events)` convert to and `rate_milli` is the
/// playback rate in thousandths.
pub fn analyze_score(
    events: &Vec<ReplayEvent>,
    wifescore_ppb: i64,
    seconds: &Vec<i64>,
    rate_milli: u32,
) -> (r: ScoreAnalysis)
    requires
        events@.len() <= u64::MAX,
    ensures
        r.describes(events@, wifescore_ppb as int),
        r.fastest_combo == fastest_of(seconds@, events@, rate_milli),
{
    let mut r = analyze_events(events, wifescore_ppb);
    let cbs = combo_breaks(events);
    assert(cbs@ =~= combo_break_flags(events@));
    r.fastest_combo = fastest_combo(seconds, &cbs, rate_milli);
    r
}

proof fn lemma_run_start_bounds(cbs: Seq<bool>, k: int)
    requires
        0 <= k,
    ensures
        0 <= run_start(cbs, k) <= k,
    decreases k,
{
    if k > 0 {
        lemma_run_start_bounds(cbs, k - 1);
    }
}

} // verus!
