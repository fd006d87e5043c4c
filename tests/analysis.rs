use savegame_analysis::aggregate::aggregate;
use savegame_analysis::combo::{analyze_score, fastest_combo, sorted_ticks, FastestCombo};
use savegame_analysis::histogram::weighted_variance;
use savegame_analysis::replay::parse_replay;
use savegame_analysis::score::{analyze_events, ReplayEvent, ScoreAnalysis};

fn events_of(text: &str) -> Vec<ReplayEvent> {
    parse_replay(text.as_bytes())
}

fn nps(c: &FastestCombo) -> f64 {
    let seconds = c.duration_ns as f64 / 1e9 / (c.rate_milli as f64 / 1000.0);
    c.length as f64 / seconds
}

fn std_dev(buckets: &[u64]) -> f64 {
    let v = weighted_variance(buckets);
    (v.numerator as f64 / v.denominator as f64).sqrt()
}

#[test]
fn parses_ticks_deviations_and_columns() {
    let events = events_of("H header line\n12345 -0.0125 2\n7 0.5 3 extra tokens\n");
    assert_eq!(events.len(), 2);
    assert_eq!(events[0], ReplayEvent { tick: 12345, deviation: -12_500_000, column: 2 });
    assert_eq!(events[1], ReplayEvent { tick: 7, deviation: 500_000_000, column: 3 });
}

#[test]
fn skips_malformed_lines() {
    let events = events_of("x 0.01 0\n5 abc 1\n6 0.01\n\n+7 0.01 0\n8 1e-3 0\n9 .25 1\n");
    assert_eq!(events, vec![ReplayEvent { tick: 9, deviation: 250_000_000, column: 1 }]);
}

#[test]
fn combo_break_boundary() {
    let events = events_of("1 0.09 0\n2 0.0900001 1\n3 -0.09 2\n");
    let s = analyze_events(&events, 1_000_000_000);
    assert_eq!(s.num_deviation_notes, 2);
    assert_eq!(s.cbs_per_column, vec![0, 1, 0, 0]);
    assert_eq!(s.notes_per_column, vec![1, 1, 1, 0]);
    assert_eq!(s.deviation_sum, 0);
}

#[test]
fn marvelous_boundary() {
    let events = events_of("1 0.0225 0\n2 -0.0225 0\n3 0.0225 0\n4 0.02250001 0\n5 0 0\n");
    let s = analyze_events(&events, 1_000_000_000);
    assert_eq!(s.longest_mcombo, 3);
}

#[test]
fn open_marvelous_run_counts_at_the_end() {
    let events = events_of("1 0.05 0\n2 0 0\n3 0 0\n");
    let s = analyze_events(&events, 1_000_000_000);
    assert_eq!(s.longest_mcombo, 2);
}

#[test]
fn manipulation_counts_out_of_order_ticks() {
    let events = events_of("5 0 0\n5 0 0\n3 0 0\n10 0 0\n");
    let s = analyze_events(&events, 1_000_000_000);
    assert_eq!(s.num_manipulated, 1);
    assert_eq!(s.num_notes, 4);
    assert_eq!(s.num_manipulated as f64 / s.num_notes as f64, 0.25);
}

#[test]
fn sorted_ticks_sorts_ascending() {
    let events = events_of("5 0 0\n5 0 0\n3 0 0\n10 0 0\n");
    assert_eq!(sorted_ticks(&events), vec![3, 5, 5, 10]);
}

#[test]
fn histogram_boundary() {
    let events = events_of("1 0.180 0\n2 0.181 1\n3 -0.180 5\n4 0.0004 0\n5 -0.0005 0\n");
    let s = analyze_events(&events, 1_000_000_000);
    assert_eq!(s.offset_buckets[360], 1);
    assert_eq!(s.offset_buckets[0], 1);
    assert_eq!(s.offset_buckets[180], 1);
    assert_eq!(s.offset_buckets[179], 1);
    assert_eq!(s.offset_buckets.iter().sum::<u64>(), 4);
    assert_eq!(s.notes_per_column, vec![3, 1, 0, 0]);
    assert_eq!(s.cbs_per_column, vec![1, 1, 0, 0]);
    assert_eq!(s.num_notes, 5);
    assert_eq!(s.sub_93_offset_buckets.iter().sum::<u64>(), 0);
}

#[test]
fn sub_93_histogram_only_below_split() {
    let events = events_of("1 0.010 0\n");
    let below = analyze_events(&events, 929_999_999);
    assert_eq!(below.sub_93_offset_buckets[190], 1);
    let at = analyze_events(&events, 930_000_000);
    assert_eq!(at.sub_93_offset_buckets[190], 0);
    assert_eq!(at.offset_buckets[190], 1);
}

#[test]
fn fastest_combo_of_one_hundred_notes() {
    let seconds: Vec<i64> = (0..100).map(|i| i * 90_000_000 + 90_000_000 * i / 99).collect();
    assert_eq!(seconds[99], 9_000_000_000);
    let cbs = vec![false; 100];
    let c = fastest_combo(&seconds, &cbs, 1000).unwrap();
    assert_eq!(c.length, 99);
    assert_eq!(c.duration_ns, 9_000_000_000);
    assert_eq!(nps(&c), 11.0);
}

#[test]
fn fastest_combo_applies_rate() {
    let seconds: Vec<i64> = (0..100).map(|i| i * 10_000_000).collect();
    let cbs = vec![false; 100];
    let c = fastest_combo(&seconds, &cbs, 1500).unwrap();
    assert_eq!(c.duration_ns, 990_000_000);
    assert!((nps(&c) - 150.0).abs() < 1e-9);
}

#[test]
fn fastest_combo_needs_one_hundred_notes() {
    let seconds: Vec<i64> = (0..99).map(|i| i * 90_000_000).collect();
    let cbs = vec![false; 99];
    assert_eq!(fastest_combo(&seconds, &cbs, 1000), None);
}

#[test]
fn fastest_combo_picks_faster_run() {
    let mut seconds: Vec<i64> = Vec::new();
    let mut cbs: Vec<bool> = Vec::new();
    for i in 0..100 {
        seconds.push(i * 100_000_000);
        cbs.push(false);
    }
    seconds.push(10_000_000_000);
    cbs.push(true);
    for i in 0..120 {
        seconds.push(11_000_000_000 + i * 50_000_000);
        cbs.push(false);
    }
    let c = fastest_combo(&seconds, &cbs, 1000).unwrap();
    assert_eq!(c.length, 119);
    assert_eq!(c.duration_ns, 119 * 50_000_000);
}

#[test]
fn combo_flags_pair_with_sorted_seconds_by_position() {
    // Ticks out of order: the flags keep encounter order while the seconds
    // follow the sorted ticks.
    let mut text = String::new();
    for i in 0..100u64 {
        let tick = if i == 0 { 1000 } else { i };
        text.push_str(&format!("{} 0.01 0\n", tick));
    }
    text.push_str("2000 0.5 0\n");
    let events = events_of(&text);
    let ticks = sorted_ticks(&events);
    assert_eq!(ticks[99], 1000);
    let seconds: Vec<i64> = ticks.iter().map(|&t| t as i64 * 10_000_000).collect();
    let s = analyze_score(&events, 1_000_000_000, &seconds, 1000);
    let c = s.fastest_combo.unwrap();
    assert_eq!(c.length, 99);
    assert_eq!(c.duration_ns, 10_000_000_000 - 10_000_000);
    assert_eq!(s.num_manipulated, 1);
}

#[test]
fn standard_deviation_of_single_bucket_is_zero() {
    let mut h = vec![0u64; 361];
    h[180] = 7;
    assert_eq!(std_dev(&h), 0.0);
}

#[test]
fn standard_deviation_of_plus_minus_one_is_one() {
    let mut h = vec![0u64; 361];
    h[179] = 5;
    h[181] = 5;
    assert_eq!(std_dev(&h), 1.0);
}

#[test]
fn standard_deviation_uses_truncated_mean() {
    let mut h = vec![0u64; 361];
    h[180] = 1;
    h[181] = 1;
    let v = weighted_variance(&h);
    assert_eq!(v.denominator, 2);
    assert_eq!(v.numerator, 1);
    let mut g = vec![0u64; 361];
    g[179] = 1;
    g[180] = 1;
    let w = weighted_variance(&g);
    assert_eq!(w.numerator, 1);
}

fn score_with(text: &str, wifescore_ppb: i64) -> ScoreAnalysis {
    analyze_events(&events_of(text), wifescore_ppb)
}

#[test]
fn aggregate_tie_keeps_earliest_score() {
    let a = score_with("1 0 0\n2 0 1\n3 0.05 2\n", 950_000_000);
    let b = score_with("1 0.05 0\n2 0 1\n3 0 2\n", 900_000_000);
    let r = aggregate(&vec![None, Some(a), Some(b)]);
    assert_eq!(r.longest_mcombo, 2);
    assert_eq!(r.longest_mcombo_index, Some(1));
    assert_eq!(r.score_indices, vec![1, 2]);
    assert_eq!(r.notes_per_column, vec![2, 2, 2, 0]);
    assert_eq!(r.offset_buckets[180], 4);
    assert_eq!(r.sub_93_offset_buckets[180], 2);
    assert_eq!(r.manipulations.len(), 2);
}

#[test]
fn aggregate_fastest_combo_across_scores() {
    let cbs = vec![false; 100];
    let slow: Vec<i64> = (0..100).map(|i| i * 100_000_000).collect();
    let mut a = score_with("1 0 0\n", 1_000_000_000);
    a.fastest_combo = fastest_combo(&slow, &cbs, 1000);
    let mut b = score_with("1 0 0\n", 1_000_000_000);
    b.fastest_combo = fastest_combo(&slow, &cbs, 2000);
    let mut c = score_with("1 0 0\n", 1_000_000_000);
    c.fastest_combo = fastest_combo(&slow, &cbs, 2000);
    let r = aggregate(&vec![Some(a), Some(b), Some(c)]);
    let (pos, best) = r.fastest_combo.unwrap();
    assert_eq!(pos, 1);
    assert_eq!(best.rate_milli, 2000);
}

#[test]
fn aggregate_of_empty_batch() {
    for batch in [vec![], vec![None, None]] {
        let r = aggregate(&batch);
        assert!(r.score_indices.is_empty());
        assert!(r.manipulations.is_empty());
        assert!(r.deviation_means.is_empty());
        assert_eq!(r.notes_per_column, vec![0; 4]);
        assert_eq!(r.cbs_per_column, vec![0; 4]);
        assert!(r.offset_buckets.iter().all(|&x| x == 0));
        assert!(r.sub_93_offset_buckets.iter().all(|&x| x == 0));
        assert_eq!(r.longest_mcombo, 0);
        assert_eq!(r.longest_mcombo_index, None);
        assert_eq!(r.fastest_combo, None);
        assert!((r.variance.numerator as f64 / r.variance.denominator as f64).is_nan());
        let mean_sum: f64 = 0.0;
        assert!((mean_sum / r.deviation_means.len() as f64).is_nan());
    }
}
