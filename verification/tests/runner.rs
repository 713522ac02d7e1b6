use frontier_sim::budget::SafeBudgetEstimator;
use frontier_sim::envelope::{default_true, CapabilityEnvelope};
use frontier_sim::events::{Lane, TraceEvent};
use frontier_sim::pages::PageCounter;
use frontier_sim::runner::{
    compute_stability_penalty, run_frontier_tracker, FrontierRunConfig, FrontierRunner,
};
use frontier_sim::tracker::{FrontierEvent, Throughput};

fn config() -> FrontierRunConfig {
    FrontierRunConfig {
        page_size: 128 * 1024,
        chunk_size_bytes: 4 * 1024 * 1024,
        urgent_workers: 2,
        prefetch_workers: 1,
        range_support: true,
    }
}

fn page(i: u64, timestamp_ns: u64) -> TraceEvent {
    TraceEvent::PageCompleted {
        request_id: 1,
        chunk_id: 0,
        page_index: i,
        page_start_byte: i * 128 * 1024,
        page_end_byte: (i + 1) * 128 * 1024,
        page_bytes: 128 * 1024,
        cumulative_bytes: (i + 1) * 128 * 1024,
        timestamp_ns,
    }
}

fn mbps(rate: Throughput) -> f64 {
    rate.bytes as f64 * 8.0 / rate.elapsed_ms as f64 / 1000.0
}

#[test]
fn frontier_runner_processes_pages() {
    let mut events = Vec::new();
    for i in 0..10u64 {
        events.push(page(i, (i + 1) * 100_000_000)); // 100ms apart
    }
    let run = run_frontier_tracker(events, 1_000, 1_712_345_678_000, config());

    assert_eq!(run.result.final_frontier_bytes, 10 * 128 * 1024);
    assert!(run.result.frontier_events_count > 0);
    assert!(mbps(run.result.envelope.sustained_throughput) > 0.0);
    assert!(run.result.envelope.supports_range_requests);

    let announced = run
        .trace
        .iter()
        .filter(|e| matches!(e, TraceEvent::FrontierAdvanced { .. }))
        .count();
    assert_eq!(announced, 10);
}

#[test]
fn stability_penalty_ranges() {
    let penalty = |count, longest| compute_stability_penalty(count, longest) as f64 / 10.0;
    assert_eq!(penalty(0, 0), 0.0);
    assert!(penalty(3, 1000) > 0.0);
    assert!(penalty(5, 6000) >= 0.5);
    assert!(penalty(10, 10000) <= 1.0);
}

#[test]
fn stability_penalty_values() {
    assert_eq!(compute_stability_penalty(3, 1_000), 3);
    assert_eq!(compute_stability_penalty(0, 2_001), 3);
    assert_eq!(compute_stability_penalty(0, 2_000), 0);
    assert_eq!(compute_stability_penalty(0, 5_000), 3);
    assert_eq!(compute_stability_penalty(0, 5_001), 5);
    assert_eq!(compute_stability_penalty(5, 6_000), 10);
    assert_eq!(compute_stability_penalty(u32::MAX, u64::MAX), 10);
}

#[test]
fn announcements_come_before_their_cause() {
    let run = run_frontier_tracker(vec![page(1, 1), page(0, 2_000_000)], 10, 0, config());
    assert_eq!(run.trace.len(), 3);
    assert!(matches!(run.trace[0], TraceEvent::PageCompleted { page_index: 1, .. }));
    match run.trace[1] {
        TraceEvent::FrontierAdvanced {
            frontier_byte,
            frontier_page,
            contiguous_bytes,
            timestamp_ns,
        } => {
            assert_eq!(frontier_byte, 262_144);
            assert_eq!(frontier_page, 2);
            assert_eq!(contiguous_bytes, 262_144);
            assert_eq!(timestamp_ns, 2_000_000);
        }
        _ => panic!("expected an announcement"),
    }
    assert!(matches!(run.trace[2], TraceEvent::PageCompleted { page_index: 0, .. }));
    assert_eq!(run.feedback, vec![262_144]);
}

#[test]
fn other_events_are_handed_on() {
    let started = TraceEvent::RequestStarted {
        request_id: 1,
        chunk_id: 0,
        lane: Lane::Urgent,
        attempt: 1,
        requested_range: "0-1".to_string(),
        timestamp_ns: 3,
    };
    let run = run_frontier_tracker(vec![started], 50, 0, config());
    assert_eq!(run.trace.len(), 1);
    assert!(matches!(run.trace[0], TraceEvent::RequestStarted { request_id: 1, .. }));
    assert!(run.feedback.is_empty());
}

#[test]
fn following_in_parts_gives_the_same() {
    let events: Vec<TraceEvent> =
        [0, 2, 1, 4, 3].iter().map(|i| page(*i, (*i + 1) * 7_000_000)).collect();
    let whole = run_frontier_tracker(events.clone(), 5_000, 9, config());
    let mut runner = FrontierRunner::new(config());
    let mut told = Vec::new();
    for event in &events {
        if let Some(moved) = runner.on_event(event) {
            told.push(moved.frontier);
        }
    }
    assert_eq!(runner.events_recorded(), 3);
    assert_eq!(runner.finish(5_000, 9), whole.result);
    assert_eq!(told, whole.feedback);
    assert_eq!(told, vec![131_072, 393_216, 655_360]);
}

#[test]
fn pause_at_the_end_counts() {
    let events: Vec<TraceEvent> = (0..10).map(|i| page(i, (i + 1) * 100_000_000)).collect();
    let prompt = run_frontier_tracker(events.clone(), 1_050, 5, config()).result;
    assert_eq!(prompt.tail_drain_ms, 50);
    assert_eq!(prompt.frontier_stall_count, 0);
    assert_eq!(prompt.max_frontier_stall_ms, 100);
    assert_eq!(prompt.envelope.stability_penalty_tenths, 0);
    let frozen = run_frontier_tracker(events, 31_000, 5, config()).result;
    assert_eq!(frozen.tail_drain_ms, 30_000);
    assert_eq!(frozen.frontier_stall_count, 1);
    assert_eq!(frozen.max_frontier_stall_ms, 30_000);
    assert_eq!(frozen.envelope.stability_penalty_tenths, 6);
    assert_eq!(frozen.run_duration_ms, 31_000);
    assert!(frozen.max_sustainable_bitrate <= prompt.max_sustainable_bitrate);
    assert!(frozen.safe_budget <= prompt.safe_budget);
}

#[test]
fn budget_is_that_of_the_timeline_with_its_tail() {
    let events: Vec<TraceEvent> = (0..100).map(|i| page(i, (i + 1) * 10_000_000)).collect();
    let size = 128 * 1024;
    let mut timeline: Vec<FrontierEvent> = (1..=100)
        .map(|i| FrontierEvent {
            t_ms: i * 10,
            contiguous_frontier_bytes: i * size,
            delta_contiguous_bytes: size,
        })
        .collect();
    let est = SafeBudgetEstimator::new();
    let plain = est.find_max_sustainable_bitrate(&timeline);
    let run = run_frontier_tracker(events.clone(), 1_100, 5, config());
    assert_eq!(run.result.max_sustainable_bitrate, plain.max_sustainable_bitrate);
    assert_eq!(run.result.safe_budget, plain.safe_budget);

    timeline.push(FrontierEvent {
        t_ms: 6_000,
        contiguous_frontier_bytes: 100 * size,
        delta_contiguous_bytes: 0,
    });
    let drained = est.find_max_sustainable_bitrate(&timeline);
    assert!(drained.max_sustainable_bitrate < plain.max_sustainable_bitrate);
    let run = run_frontier_tracker(events, 6_000, 5, config());
    assert_eq!(run.result.max_sustainable_bitrate, drained.max_sustainable_bitrate);
    assert_eq!(run.result.safe_budget, drained.safe_budget);
    assert_eq!(run.result.frontier_events_count, 100);
    assert_eq!(run.feedback.len(), 100);
    assert_eq!(run.trace.len(), 200);
}

#[test]
fn run_without_progress() {
    let result = run_frontier_tracker(Vec::new(), 0, 0, config()).result;
    assert_eq!(result.tail_drain_ms, 0);
    assert_eq!(result.envelope.sustained_throughput, Throughput { bytes: 0, elapsed_ms: 1 });
    assert_eq!(result.max_sustainable_bitrate, 0);
    assert!(!result.envelope.is_measured());
    let result = run_frontier_tracker(Vec::new(), 7_000, 1, config()).result;
    assert_eq!(result.tail_drain_ms, 7_000);
    assert_eq!(result.frontier_stall_count, 1);
    assert!(result.envelope.is_measured());
}

#[test]
fn envelope_takes_over_the_configuration() {
    let envelope = run_frontier_tracker(vec![page(0, 1)], 2_000, 77, config()).result.envelope;
    assert_eq!(envelope.max_safe_urgent_workers, 2);
    assert_eq!(envelope.max_safe_prefetch_workers, 1);
    assert_eq!(envelope.max_safe_urgent_chunk_bytes, 4_194_304);
    assert_eq!(envelope.max_safe_prefetch_chunk_bytes, 8_388_608);
    assert_eq!(envelope.sustained_throughput, Throughput { bytes: 131_072, elapsed_ms: 2_000 });
    assert_eq!(envelope.p10_throughput, None);
    assert_eq!(envelope.seek_ttfb_p50_ms, None);
    assert_eq!(envelope.measured_at_ms, 77);
}

#[test]
fn default_envelope_values() {
    let envelope = CapabilityEnvelope::default_envelope();
    assert_eq!(envelope.max_safe_urgent_workers, 2);
    assert_eq!(envelope.max_safe_prefetch_workers, 1);
    assert_eq!(envelope.max_safe_urgent_chunk_bytes, 8_388_608);
    assert_eq!(envelope.max_safe_prefetch_chunk_bytes, 16_777_216);
    assert_eq!(mbps(envelope.sustained_throughput), 50.0);
    assert_eq!(envelope.stability_penalty_tenths as f64 / 10.0, 0.5);
    assert!(envelope.supports_range_requests);
    assert!(!envelope.is_measured());
    assert!(default_true());
}

#[test]
fn received_pages_move_the_frontier() {
    let mut counter = PageCounter::new(1, 0, 0, 128 * 1024);
    let events = counter.write(5 * 128 * 1024 + 77, 1_000_000);
    let result = run_frontier_tracker(events, 10, 0, config()).result;
    assert_eq!(result.final_frontier_bytes, 5 * 128 * 1024);
}
