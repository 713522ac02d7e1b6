use frontier_sim::tracker::{FrontierTracker, Throughput, PAGE_SIZE};

#[test]
fn sequential_pages_advance_frontier() {
    let mut tracker = FrontierTracker::new();
    tracker.on_page_completed(0, 100);
    tracker.on_page_completed(1, 200);
    tracker.on_page_completed(2, 300);

    assert_eq!(tracker.contiguous_frontier_bytes(), 3 * PAGE_SIZE);
    assert_eq!(tracker.frontier_events().len(), 3);
}

#[test]
fn gap_blocks_frontier() {
    let mut tracker = FrontierTracker::new();
    tracker.on_page_completed(0, 100);
    tracker.on_page_completed(2, 200); // skip page 1

    assert_eq!(tracker.contiguous_frontier_bytes(), PAGE_SIZE); // only page 0
    assert_eq!(tracker.frontier_events().len(), 1);

    // Fill the gap
    tracker.on_page_completed(1, 300);
    assert_eq!(tracker.contiguous_frontier_bytes(), 3 * PAGE_SIZE);
    assert_eq!(tracker.frontier_events().len(), 2);
}

#[test]
fn stall_detection_matches_kotlin() {
    let mut tracker = FrontierTracker::new();
    tracker.on_page_completed(0, 0);
    tracker.on_page_completed(1, 1_000); // 1s gap, not a stall
    tracker.on_page_completed(2, 4_000); // 3s gap, a stall (> 2000ms)

    let metrics = tracker.compute_metrics(4_000);
    assert_eq!(metrics.frontier_stall_count, 1);
    assert_eq!(metrics.max_frontier_stall_ms, 3_000);
}

#[test]
fn bytes_downloaded_computes_pages() {
    let mut tracker = FrontierTracker::new();
    // Download first 256KB (covers pages 0 and 1 at 128KB each)
    tracker.on_bytes_downloaded(0, 256 * 1024, 100);
    assert_eq!(tracker.contiguous_frontier_bytes(), 2 * PAGE_SIZE);
}

#[test]
fn zero_bytes_is_noop() {
    let mut tracker = FrontierTracker::new();
    tracker.on_bytes_downloaded(0, 0, 100);
    assert_eq!(tracker.contiguous_frontier_bytes(), 0);
    assert!(tracker.frontier_events().is_empty());
}

#[test]
fn metrics_advance_rate() {
    let mut tracker = FrontierTracker::new();
    for i in 0..10 {
        tracker.on_page_completed(i, i as u64 * 100);
    }
    let metrics = tracker.compute_metrics(900);
    let rate = metrics.frontier_advance_rate.unwrap();
    let mbps = rate.bytes as f64 * 8.0 / rate.elapsed_ms as f64 / 1000.0;
    assert!(mbps > 0.0);
    assert_eq!(metrics.final_frontier_bytes, 10 * PAGE_SIZE);
}

#[test]
fn advance_rate_is_the_exact_fraction() {
    let mut tracker = FrontierTracker::new();
    for i in 0..10 {
        tracker.on_page_completed(i, i * 100);
    }
    let metrics = tracker.compute_metrics(900);
    assert_eq!(
        metrics.frontier_advance_rate,
        Some(Throughput { bytes: 1_310_720, elapsed_ms: 900 })
    );
    assert_eq!(metrics.total_frontier_events, 10);
    assert_eq!(tracker.compute_metrics(0).frontier_advance_rate, None);
}

#[test]
fn events_tell_what_the_frontier_did() {
    let mut tracker = FrontierTracker::with_page_size(10);
    tracker.on_page_completed(1, 5);
    tracker.on_page_completed(0, 7);
    tracker.on_page_completed(3, 8);
    tracker.on_page_completed(2, 9);
    let events = tracker.frontier_events();
    assert_eq!(events.len(), 2);
    assert_eq!(events[0].t_ms, 7);
    assert_eq!(events[0].contiguous_frontier_bytes, 20);
    assert_eq!(events[0].delta_contiguous_bytes, 20);
    assert_eq!(events[1].t_ms, 9);
    assert_eq!(events[1].contiguous_frontier_bytes, 40);
    assert_eq!(events[1].delta_contiguous_bytes, 20);
    let total: u64 = events.iter().map(|e| e.delta_contiguous_bytes).sum();
    assert_eq!(total, tracker.contiguous_frontier_bytes());
}

#[test]
fn page_order_does_not_matter() {
    let mut one = FrontierTracker::with_page_size(10);
    let mut other = FrontierTracker::with_page_size(10);
    for page in [4, 0, 2, 1] {
        one.on_page_completed(page, 1);
    }
    for page in [1, 2, 0, 4] {
        other.on_page_completed(page, 1);
    }
    assert_eq!(one.contiguous_frontier_bytes(), 30);
    assert_eq!(other.contiguous_frontier_bytes(), 30);
}

#[test]
fn repeated_page_changes_nothing() {
    let mut tracker = FrontierTracker::new();
    tracker.on_page_completed(0, 1);
    tracker.on_page_completed(0, 2);
    assert_eq!(tracker.contiguous_frontier_bytes(), PAGE_SIZE);
    assert_eq!(tracker.frontier_events().len(), 1);
}

#[test]
fn split_download_marks_the_same_pages() {
    let mut whole = FrontierTracker::with_page_size(10);
    whole.on_bytes_downloaded(5, 27, 1);
    whole.on_page_completed(0, 2);
    let mut parts = FrontierTracker::with_page_size(10);
    parts.on_bytes_downloaded(5, 4, 1);
    parts.on_bytes_downloaded(9, 23, 2);
    assert_eq!(whole.contiguous_frontier_bytes(), 40);
    assert_eq!(parts.contiguous_frontier_bytes(), 40);
}

#[test]
fn partial_page_counts_as_complete() {
    let mut tracker = FrontierTracker::with_page_size(10);
    tracker.on_bytes_downloaded(0, 11, 1);
    assert_eq!(tracker.contiguous_frontier_bytes(), 20);
}

#[test]
fn clock_that_goes_back_is_no_stall() {
    let mut tracker = FrontierTracker::new();
    tracker.on_page_completed(0, 9_000);
    tracker.on_page_completed(1, 1_000);
    let metrics = tracker.compute_metrics(9_000);
    assert_eq!(metrics.frontier_stall_count, 0);
    assert_eq!(metrics.max_frontier_stall_ms, 0);
}

#[test]
fn gap_of_the_threshold_is_no_stall() {
    let mut tracker = FrontierTracker::default();
    tracker.on_page_completed(0, 0);
    tracker.on_page_completed(1, 2_000);
    tracker.on_page_completed(2, 4_001);
    let metrics = tracker.compute_metrics(5_000);
    assert_eq!(metrics.frontier_stall_count, 1);
    assert_eq!(metrics.max_frontier_stall_ms, 2_001);
}

#[test]
fn empty_tracker_has_empty_metrics() {
    let metrics = FrontierTracker::new().compute_metrics(1_000);
    assert_eq!(metrics.total_frontier_events, 0);
    assert_eq!(metrics.final_frontier_bytes, 0);
    assert_eq!(metrics.frontier_stall_count, 0);
    assert_eq!(metrics.max_frontier_stall_ms, 0);
    assert_eq!(metrics.frontier_advance_rate, Some(Throughput { bytes: 0, elapsed_ms: 1_000 }));
}
