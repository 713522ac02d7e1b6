use frontier_sim::budget::{sorted_by_time, SafeBudgetEstimator, RATE_UNITS_PER_MBPS};
use frontier_sim::tracker::FrontierEvent;

fn make_events(pairs: &[(u64, u64)]) -> Vec<FrontierEvent> {
    let mut contiguous: u64 = 0;
    pairs
        .iter()
        .map(|&(t_ms, delta)| {
            contiguous += delta;
            FrontierEvent {
                t_ms,
                contiguous_frontier_bytes: contiguous,
                delta_contiguous_bytes: delta,
            }
        })
        .collect()
}

fn mbps(rate: u64) -> f64 {
    rate as f64 / RATE_UNITS_PER_MBPS as f64
}

#[test]
fn empty_events_returns_zero() {
    let est = SafeBudgetEstimator::new();
    let result = est.find_max_sustainable_bitrate(&[]);
    assert_eq!(mbps(result.max_sustainable_bitrate), 0.0);
    assert_eq!(mbps(result.safe_budget), 0.0);
}

#[test]
fn single_event_returns_zero() {
    let est = SafeBudgetEstimator::new();
    let events = make_events(&[(0, 1_000_000)]);
    let result = est.find_max_sustainable_bitrate(&events);
    assert_eq!(mbps(result.max_sustainable_bitrate), 0.0);
}

#[test]
fn zero_bitrate_always_survives() {
    let est = SafeBudgetEstimator::new();
    let events = make_events(&[(0, 1_000), (1_000, 1_000)]);
    let run = est.simulate(&events, 0);
    assert!(run.survived);
    assert_eq!(run.rebuffer_count, 0);
}

#[test]
fn high_throughput_survives_high_bitrate() {
    let est = SafeBudgetEstimator::new();
    // Deliver 100MB over 10 seconds = 80 Mbps
    let chunk = 10_000_000u64; // 10MB per event
    let events = make_events(&[
        (0, chunk),
        (1_000, chunk),
        (2_000, chunk),
        (3_000, chunk),
        (4_000, chunk),
        (5_000, chunk),
        (6_000, chunk),
        (7_000, chunk),
        (8_000, chunk),
        (9_000, chunk),
    ]);
    let result = est.find_max_sustainable_bitrate(&events);
    assert!(mbps(result.max_sustainable_bitrate) > 30.0);
    assert!(mbps(result.safe_budget) > 0.0);
    assert_eq!(result.simulated_rebuffer_count, 0);
}

#[test]
fn safety_factor_applied() {
    let est = SafeBudgetEstimator::new();
    let events = make_events(&[
        (0, 5_000_000),
        (1_000, 5_000_000),
        (2_000, 5_000_000),
        (3_000, 5_000_000),
        (4_000, 5_000_000),
    ]);
    let result = est.find_max_sustainable_bitrate(&events);
    let ratio = mbps(result.safe_budget) / mbps(result.max_sustainable_bitrate);
    assert!((ratio - 0.85).abs() < 0.01);
}

#[test]
fn settings_are_the_standard_ones() {
    let result = SafeBudgetEstimator::default()
        .find_max_sustainable_bitrate(&make_events(&[(0, 1_000_000), (1_000, 1_000_000)]));
    assert_eq!(result.startup_buffer_ms, 3_000);
    assert_eq!(result.max_buffer_ms, 50_000);
    assert_eq!(result.search_iterations, 15);
    assert_eq!(result.safe_budget * 100, result.max_sustainable_bitrate * 85);
}

#[test]
fn simulation_follows_the_buffer() {
    let est = SafeBudgetEstimator::new();
    // At 8 Mbps a player consumes 1000 bytes per millisecond.
    let rate = 8 * RATE_UNITS_PER_MBPS;
    // 4000 ms of data, then 1000 ms pass, then 500 ms more arrive.
    let events = make_events(&[(0, 4_000_000), (1_000, 500_000)]);
    let run = est.simulate(&events, rate);
    assert!(run.survived);
    assert_eq!(run.rebuffer_count, 0);
    assert_eq!(run.min_buffer_ms, 3_500);
}

#[test]
fn playback_waits_for_the_startup_buffer() {
    let est = SafeBudgetEstimator::new();
    let rate = 8 * RATE_UNITS_PER_MBPS;
    let short = est.simulate(&make_events(&[(0, 2_999_999), (60_000, 0)]), rate);
    assert!(!short.survived);
    assert_eq!(short.rebuffer_count, 0);
    assert_eq!(short.min_buffer_ms, 0);
    let enough = est.simulate(&make_events(&[(0, 3_000_000), (3_000, 0)]), rate);
    assert!(enough.survived);
    assert_eq!(enough.min_buffer_ms, 0);
}

#[test]
fn dry_buffer_is_a_rebuffer() {
    let est = SafeBudgetEstimator::new();
    let rate = 8 * RATE_UNITS_PER_MBPS;
    let run = est.simulate(&make_events(&[(0, 3_000_000), (3_001, 3_000_000)]), rate);
    assert!(!run.survived);
    assert_eq!(run.rebuffer_count, 1);
}

#[test]
fn buffer_is_capped() {
    let est = SafeBudgetEstimator::new();
    let rate = 8 * RATE_UNITS_PER_MBPS;
    // 80 s of data fill the buffer to 50 s only, so 51 s later it is dry.
    let run = est.simulate(&make_events(&[(0, 80_000_000), (51_000, 1)]), rate);
    assert_eq!(run.rebuffer_count, 1);
    let run = est.simulate(&make_events(&[(0, 80_000_000), (50_000, 1)]), rate);
    assert_eq!(run.rebuffer_count, 0);
}

#[test]
fn empty_timeline_does_not_survive() {
    let run = SafeBudgetEstimator::new().simulate(&[], RATE_UNITS_PER_MBPS);
    assert!(!run.survived);
    assert_eq!(run.min_buffer_ms, 0);
}

#[test]
fn events_are_put_in_order_of_time() {
    let events = make_events(&[(30, 1), (10, 2), (30, 3), (20, 4)]);
    let sorted = sorted_by_time(&events);
    let order: Vec<(u64, u64)> =
        sorted.iter().map(|e| (e.t_ms, e.delta_contiguous_bytes)).collect();
    assert_eq!(order, vec![(10, 2), (20, 4), (30, 1), (30, 3)]);
}

#[test]
fn order_of_events_does_not_change_the_search() {
    let est = SafeBudgetEstimator::new();
    let forward = make_events(&[(0, 5_000_000), (1_000, 5_000_000), (2_000, 5_000_000)]);
    let mut backward = forward.clone();
    backward.reverse();
    assert_eq!(
        est.find_max_sustainable_bitrate(&forward),
        est.find_max_sustainable_bitrate(&backward)
    );
}

#[test]
fn search_finds_the_bitrate_that_the_startup_buffer_allows() {
    // 15 MB in all: the startup buffer of 3 s is there up to 40 Mbps.
    let est = SafeBudgetEstimator::new();
    let events = make_events(&[(0, 5_000_000), (0, 5_000_000), (0, 5_000_000)]);
    let result = est.find_max_sustainable_bitrate(&events);
    assert!(est.simulate(&events, result.max_sustainable_bitrate).survived);
    assert!(!est.simulate(&events, result.max_sustainable_bitrate + 65_536).survived);
    assert!((mbps(result.max_sustainable_bitrate) - 40.0).abs() <= 0.1);
}

#[test]
fn bitrates_above_five_hundred_are_found() {
    let est = SafeBudgetEstimator::new();
    let events = make_events(&[(0, 1_000_000_000), (1_000, 1_000_000_000)]);
    let result = est.find_max_sustainable_bitrate(&events);
    assert!(mbps(result.safe_budget) > 762.0);
    assert!(mbps(result.max_sustainable_bitrate) <= 2000.0);
}

#[test]
fn survival_is_not_monotone_in_the_bitrate() {
    // The lower bitrate starts playback earlier and then runs dry.
    let est = SafeBudgetEstimator::new();
    let events = make_events(&[(0, 3_000_000), (10_000, 3_500_000)]);
    let low = est.simulate(&events, 8 * RATE_UNITS_PER_MBPS);
    let high = est.simulate(&events, 16 * RATE_UNITS_PER_MBPS);
    assert!(!low.survived);
    assert!(high.survived);
}

#[test]
fn tail_pause_never_raises_the_bitrate() {
    let est = SafeBudgetEstimator::new();
    let events = make_events(&[(0, 5_000_000), (1_000, 5_000_000), (2_000, 5_000_000)]);
    let mut with_tail = events.clone();
    with_tail.push(FrontierEvent {
        t_ms: 60_000,
        contiguous_frontier_bytes: 15_000_000,
        delta_contiguous_bytes: 0,
    });
    let plain = est.find_max_sustainable_bitrate(&events);
    let drained = est.find_max_sustainable_bitrate(&with_tail);
    assert!(drained.max_sustainable_bitrate < plain.max_sustainable_bitrate);
    assert!(drained.safe_budget < plain.safe_budget);
}
