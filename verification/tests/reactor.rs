use frontier_sim::download::{ReportedTimes, TransferReport};
use frontier_sim::events::{ErrorClass, Lane, StallClass, TraceEvent, TransferTimings};
use frontier_sim::headers::ResponseHead;
use frontier_sim::outcome::{
    classify_error, classify_failure, connection_protocol, request_http_version,
};
use frontier_sim::reactor::{
    ChunkRequest, ConnectionRecord, Reactor, ReactorConfig, ReactorHandler, RequestState,
};
use frontier_sim::retry::{backoff_ms, chunk_to_requeue};
use frontier_sim::tracker::PAGE_SIZE;
use frontier_sim::transport::Sink;

const MS: u64 = 1_000_000;

fn chunk(chunk_id: u64, range_start: u64, range_end: u64, lane: Lane) -> ChunkRequest {
    ChunkRequest { chunk_id, range_start, range_end, lane }
}

fn report(connection_id: i64) -> TransferReport {
    TransferReport {
        times: ReportedTimes {
            namelookup_ns: None,
            connect_ns: Some(600_000),
            appconnect_ns: Some(900_000),
            starttransfer_ns: Some(1_000_000),
            total_ns: Some(2_000_000),
            queue_us: 1,
        },
        connection_id,
        remote_ip: "1.2.3.4".to_string(),
        remote_port: 443,
        local_ip: "5.6.7.8".to_string(),
        local_port: 1,
        http_version: Some(2),
        effective_url: None,
    }
}

fn handler_with(state: &RequestState, bytes: usize) -> ReactorHandler {
    let mut handler =
        ReactorHandler::new(state.request_id, state.chunk_id, state.range_start, PAGE_SIZE);
    handler.header(b"HTTP/1.1 206 Partial Content\r\n");
    handler.write(&vec![0u8; bytes], 0);
    handler
}

#[test]
fn reactor_handler_page_aggregation() {
    let mut handler = ReactorHandler::new(1, 0, 0, PAGE_SIZE);

    // Write 2 full pages
    let data = vec![0u8; (PAGE_SIZE * 2) as usize];
    let (_, events) = handler.write(&data, 0);

    assert_eq!(events.len(), 2);
    assert_eq!(handler.pages.bytes_received, PAGE_SIZE * 2);
}

#[test]
fn chunk_request_queue_ordering() {
    let chunks = vec![
        ChunkRequest {
            chunk_id: 0,
            range_start: 0,
            range_end: 1024,
            lane: Lane::Urgent,
        },
        ChunkRequest {
            chunk_id: 1,
            range_start: 1025,
            range_end: 2048,
            lane: Lane::Prefetch,
        },
    ];
    let mut reactor = Reactor::new(&chunks, ReactorConfig::default());
    // The first one to start is chunk 0 (urgent)
    let starts = reactor.fill_slots(0, false);
    let first = &starts[0];
    assert_eq!(first.state.chunk_id, 0);
    assert_eq!(first.state.lane, Lane::Urgent);
    assert_eq!(first.range, "0-1024");
    assert_eq!(starts[1].state.chunk_id, 1);
}

#[test]
fn connection_record_defaults() {
    let record = ConnectionRecord {
        connection_id: 42,
        protocol: "https".to_string(),
        local_endpoint: "127.0.0.1:5000".to_string(),
        remote_endpoint: "93.184.216.34:443".to_string(),
        first_use_ns: 1000,
        last_use_ns: 5000,
        requests_count: 3,
        bytes_total: 1_000_000,
    };
    assert_eq!(record.requests_count, 3);
    assert_eq!(record.bytes_total, 1_000_000);
}

#[test]
fn default_configuration() {
    let config = ReactorConfig::default();
    assert_eq!(config.urgent_workers, 2);
    assert_eq!(config.prefetch_workers, 1);
    assert_eq!(config.page_size, PAGE_SIZE);
    assert_eq!(config.sink, Sink::Discard);
    assert_eq!(config.stall_timeout_ms, 2_000);
    assert_eq!(config.request_timeout_ms, 120_000);
    assert_eq!(config.max_duration_ms, 120_000);
}

#[test]
fn slots_limit_what_is_in_flight() {
    let chunks: Vec<ChunkRequest> =
        (0..5).map(|i| chunk(i, i * 10, i * 10 + 9, Lane::Prefetch)).collect();
    let mut reactor = Reactor::new(&chunks, ReactorConfig::default());
    let starts = reactor.fill_slots(7, false);
    assert_eq!(starts.len(), 3);
    let ids: Vec<u64> = starts.iter().map(|s| s.state.request_id).collect();
    assert_eq!(ids, vec![1, 2, 3]);
    let tokens: Vec<usize> = starts.iter().map(|s| s.state.token).collect();
    assert_eq!(tokens, vec![0, 1, 2]);
    assert!(reactor.fill_slots(8, false).is_empty());
    assert_eq!(reactor.active_requests().len(), 3);
    match &starts[2].event {
        TraceEvent::RequestStarted { request_id, chunk_id, lane, attempt, requested_range, timestamp_ns } => {
            assert_eq!((*request_id, *chunk_id, *attempt, *timestamp_ns), (3, 2, 1, 7));
            assert_eq!(*lane, Lane::Prefetch);
            assert_eq!(requested_range, "20-29");
        }
        _ => panic!("expected the start"),
    }
}

#[test]
fn run_without_retries_keeps_the_order() {
    let lanes = [Lane::Urgent, Lane::Prefetch, Lane::Urgent, Lane::Prefetch, Lane::Urgent];
    let mut chunks = Vec::new();
    for (i, lane) in lanes.iter().enumerate() {
        let start = 1_000 * i as u64;
        chunks.push(chunk(10 + i as u64, start, start + 999, *lane));
    }
    let mut config = ReactorConfig::default();
    config.urgent_workers = 1;
    config.prefetch_workers = 1;
    config.max_duration_ms = 0;
    let mut reactor = Reactor::new(&chunks, config);

    let mut started = Vec::new();
    let mut now = 0;
    while !reactor.is_finished(reactor.time_expired(now)) {
        let time_expired = reactor.time_expired(now);
        started.extend(reactor.fill_slots(now, time_expired));
        assert!(reactor.active_requests().len() <= 2);
        // The youngest request ends first.
        let state = *reactor.active_requests().last().unwrap();
        let handler = handler_with(&state, 1_000);
        reactor.observe(state.token, &handler.pages, now);
        reactor.on_frontier(now);
        reactor.on_completed(state.token, &handler, &report(1), None, now + MS);
        now += 10 * MS;
    }

    assert_eq!(started.len(), 5);
    for (k, start) in started.iter().enumerate() {
        assert_eq!(start.state.token, k);
        assert_eq!(start.state.request_id, k as u64 + 1);
        assert_eq!(start.state.chunk_id, 10 + k as u64);
        assert_eq!(start.state.lane, lanes[k]);
        assert_eq!(start.state.attempt, 1);
        assert_eq!(start.range, format!("{}-{}", 1_000 * k, 1_000 * k + 999));
    }
    let (_, result) = reactor.finish(now);
    assert_eq!(result.retried_chunks, 0);
}

#[test]
fn nothing_starts_once_the_time_is_up() {
    let mut reactor = Reactor::new(&[chunk(0, 0, 9, Lane::Urgent)], ReactorConfig::default());
    assert!(!reactor.time_expired(120_000 * MS - 1));
    assert!(reactor.time_expired(120_000 * MS));
    assert!(reactor.fill_slots(120_000 * MS, true).is_empty());
    assert!(reactor.is_finished(true));
    assert!(!reactor.is_finished(false));
    let mut unlimited = ReactorConfig::default();
    unlimited.max_duration_ms = 0;
    assert!(!Reactor::new(&[], unlimited).time_expired(u64::MAX));
}

#[test]
fn complete_transfer_ends_its_chunk() {
    let mut reactor = Reactor::new(&[chunk(4, 0, 99, Lane::Urgent)], ReactorConfig::default());
    let state = reactor.fill_slots(0, false)[0].state;
    let events = reactor.on_completed(state.token, &handler_with(&state, 100), &report(5), None, 50);
    assert_eq!(events.len(), 3);
    assert!(matches!(
        events[0],
        TraceEvent::PageCompleted { request_id: 1, chunk_id: 4, page_index: 0, page_bytes: 100, .. }
    ));
    match &events[1] {
        TraceEvent::RequestFinished {
            request_id,
            total_bytes,
            timings,
            http_version,
            connection_id,
            new_connection,
            error_class,
            timestamp_ns,
        } => {
            assert_eq!((*request_id, *total_bytes, *connection_id, *timestamp_ns), (1, 100, 5, 50));
            assert_eq!(timings.tls_ns, 300_000);
            assert_eq!(http_version, "h1.1");
            assert!(*new_connection);
            assert_eq!(*error_class, None);
        }
        _ => panic!("expected the end"),
    }
    match &events[2] {
        TraceEvent::RequestPrereq { protocol, local_endpoint, remote_endpoint, .. } => {
            assert_eq!(protocol, "https/h1.1");
            assert_eq!(local_endpoint, "5.6.7.8:1");
            assert_eq!(remote_endpoint, "1.2.3.4:443");
        }
        _ => panic!("expected the connection"),
    }
    assert!(reactor.is_finished(false));
    let (lives, result) = reactor.finish(123);
    assert_eq!(lives.len(), 1);
    assert_eq!(result.total_bytes, 100);
    assert_eq!(result.total_requests, 1);
    assert_eq!(result.total_connections, 1);
    assert_eq!(result.duration_ns, 123);
    assert_eq!(result.retried_chunks, 0);
    assert_eq!(result.failed_chunks, 0);
}

#[test]
fn immediate_failure_is_retried() {
    let mut reactor = Reactor::new(&[chunk(0, 0, 99, Lane::Urgent)], ReactorConfig::default());
    let state = reactor.fill_slots(0, false)[0].state;
    let mut handler = handler_with(&state, 0);
    handler.head.response_code = None;
    let events =
        reactor.on_completed(state.token, &handler, &report(1), Some("Connection RESET"), 10 * MS);
    assert_eq!(events.len(), 2);
    assert!(matches!(
        events[0],
        TraceEvent::RequestFinished { error_class: Some(ErrorClass::ConnectionReset), .. }
    ));
    assert!(!reactor.is_finished(false));
    // The chunk holds up the frontier: it waits half a second.
    assert!(reactor.fill_slots(509 * MS, false).is_empty());
    let again = reactor.fill_slots(510 * MS, false);
    assert_eq!(again.len(), 1);
    assert_eq!(again[0].state.attempt, 2);
    assert_eq!(again[0].state.request_id, 2);
    assert_eq!(again[0].range, "0-99");
}

#[test]
fn chunk_is_given_up_after_ten_attempts() {
    let mut reactor = Reactor::new(&[chunk(0, 0, 99, Lane::Urgent)], ReactorConfig::default());
    let mut now = 0;
    for attempt in 1..=10 {
        let starts = reactor.fill_slots(now, false);
        assert_eq!(starts.len(), 1);
        let state = starts[0].state;
        assert_eq!(state.attempt, attempt);
        reactor.on_completed(state.token, &handler_with(&state, 0), &report(1), Some("eof"), now);
        now += 100_000 * MS;
    }
    assert!(reactor.is_finished(false));
    let (_, result) = reactor.finish(now);
    assert_eq!(result.total_requests, 10);
    assert_eq!(result.retried_chunks, 9);
    assert_eq!(result.failed_chunks, 1);
    assert_eq!(result.connections[0].requests_count, 10);
}

#[test]
fn stalled_urgent_request_resumes_with_its_suffix() {
    let last = 4 * PAGE_SIZE - 1;
    let mut reactor =
        Reactor::new(&[chunk(0, PAGE_SIZE, last, Lane::Urgent)], ReactorConfig::default());
    let state = reactor.fill_slots(0, false)[0].state;
    let handler = handler_with(&state, PAGE_SIZE as usize + 400);
    assert!(reactor.observe(state.token, &handler.pages, 100 * MS).is_none());
    assert!(reactor.observe(state.token, &handler.pages, 2_100 * MS).is_none());
    match reactor.observe(state.token, &handler.pages, 2_100 * MS + 1) {
        Some(TraceEvent::RequestStalled {
            request_id,
            stall_class,
            no_progress_duration_ms,
            timestamp_ns,
        }) => {
            assert_eq!(request_id, 1);
            assert_eq!(stall_class, StallClass::MidstreamNoProgress);
            assert_eq!(no_progress_duration_ms, 2_000);
            assert_eq!(timestamp_ns, 2_100 * MS + 1);
        }
        _ => panic!("expected a stall"),
    }
    assert!(reactor.observe(state.token, &handler.pages, 9_000 * MS).is_none());
    reactor.on_frontier(2 * PAGE_SIZE);
    let events = reactor.on_completed(
        state.token,
        &handler,
        &report(1),
        Some("Operation timed out"),
        9_000 * MS,
    );
    match events.last() {
        Some(TraceEvent::RequestResumed { request_id, suffix_range, attempt, timestamp_ns }) => {
            assert_eq!((*request_id, *attempt, *timestamp_ns), (1, 2, 9_000 * MS));
            assert_eq!(*suffix_range, format!("{}-{last}", 2 * PAGE_SIZE + 400));
        }
        _ => panic!("expected the resumption"),
    }
    let again = reactor.fill_slots(9_500 * MS, false);
    assert_eq!(again[0].range, format!("{}-{last}", 2 * PAGE_SIZE + 400));
}

#[test]
fn trickle_without_a_full_page_stalls() {
    let mut reactor =
        Reactor::new(&[chunk(0, 0, 4 * PAGE_SIZE - 1, Lane::Urgent)], ReactorConfig::default());
    let state = reactor.fill_slots(0, false)[0].state;
    let mut handler = handler_with(&state, 10);
    assert_eq!(handler.pages.full_page_bytes(), 0);
    assert!(reactor.observe(state.token, &handler.pages, 1_000 * MS).is_none());
    handler.write(&[0u8; 10], 0);
    assert!(reactor.observe(state.token, &handler.pages, 2_000 * MS).is_none());
    // A page that fills restarts the clock.
    handler.write(&vec![0u8; PAGE_SIZE as usize], 0);
    assert_eq!(handler.pages.full_page_bytes(), PAGE_SIZE);
    assert!(reactor.observe(state.token, &handler.pages, 2_001 * MS).is_none());
    handler.write(&[0u8; 10], 0);
    assert!(reactor.observe(state.token, &handler.pages, 4_001 * MS).is_none());
    handler.write(&[0u8; 10], 0);
    assert!(reactor.observe(state.token, &handler.pages, 4_001 * MS + 1).is_some());
    assert!(reactor.active_requests()[0].stalled);
}

#[test]
fn each_chunk_is_received_or_given_up() {
    let size = 1_000;
    let chunks: Vec<ChunkRequest> =
        (0..3).map(|i| chunk(i, i * size, (i + 1) * size - 1, Lane::Urgent)).collect();
    let mut reactor = Reactor::new(&chunks, ReactorConfig::default());
    let mut brought = [0u64; 3];
    let mut now = 0;
    while !reactor.is_finished(false) {
        for start in reactor.fill_slots(now, false) {
            let state = start.state;
            let id = state.chunk_id as usize;
            // What is asked for is what is left of the chunk.
            assert_eq!(state.range_start, chunks[id].range_start + brought[id]);
            assert_eq!(state.range_end, chunks[id].range_end);
            // The first comes at once, the second in parts, the third never.
            let bytes = [1_000, 300, 0][id].min(size - brought[id]);
            brought[id] += bytes;
            let handler = handler_with(&state, bytes as usize);
            reactor.on_completed(state.token, &handler, &report(1), None, now);
        }
        now += 60_000 * MS;
    }
    assert_eq!(brought, [1_000, 1_000, 0]);
    let (_, result) = reactor.finish(now);
    assert_eq!(result.total_requests, 1 + 4 + 10);
    assert_eq!(result.retried_chunks, 3 + 9);
    assert_eq!(result.failed_chunks, 1);
}

#[test]
fn prefetch_request_is_retried_without_resumption() {
    let far = 100 * PAGE_SIZE;
    let mut reactor =
        Reactor::new(&[chunk(0, far, far + 99, Lane::Prefetch)], ReactorConfig::default());
    let state = reactor.fill_slots(0, false)[0].state;
    assert!(reactor.observe(state.token, &handler_with(&state, 0).pages, 3_000 * MS).is_some());
    let events =
        reactor.on_completed(state.token, &handler_with(&state, 0), &report(1), Some("x"), 0);
    assert_eq!(events.len(), 2);
    assert!(reactor.fill_slots(1_999 * MS, false).is_empty());
    let again = reactor.fill_slots(2_000 * MS, false);
    assert_eq!(again[0].state.lane, Lane::Prefetch);
}

#[test]
fn chunk_at_the_frontier_goes_first() {
    let chunks = vec![
        chunk(0, 0, 99, Lane::Urgent),
        chunk(1, 50 * PAGE_SIZE, 50 * PAGE_SIZE + 99, Lane::Prefetch),
        chunk(2, 90 * PAGE_SIZE, 90 * PAGE_SIZE + 99, Lane::Prefetch),
        chunk(3, 91 * PAGE_SIZE, 91 * PAGE_SIZE + 99, Lane::Prefetch),
    ];
    let mut config = ReactorConfig::default();
    config.urgent_workers = 1;
    let mut reactor = Reactor::new(&chunks, config);
    let starts = reactor.fill_slots(0, false);
    assert_eq!(starts.len(), 2);
    reactor.on_frontier(49 * PAGE_SIZE);
    // Chunk 1 begins one page behind the frontier, chunk 2 far from it.
    let first = starts[0].state;
    let second = starts[1].state;
    reactor.on_completed(second.token, &handler_with(&second, 0), &report(1), Some("x"), 0);
    reactor.on_completed(first.token, &handler_with(&first, 100), &report(1), None, 0);
    let third = reactor.fill_slots(0, false);
    assert_eq!(third[0].state.chunk_id, 2);
    assert_eq!(third[1].state.chunk_id, 3);
    let far = third[0].state;
    let last = third[1].state;
    reactor.on_completed(far.token, &handler_with(&far, 0), &report(1), Some("x"), 0);
    reactor.on_completed(last.token, &handler_with(&last, 100), &report(1), None, 0);
    let next = reactor.fill_slots(10_000 * MS, false);
    assert_eq!(next[0].state.chunk_id, 1);
    assert_eq!(next[0].state.lane, Lane::Urgent);
    assert_eq!(next[1].state.chunk_id, 2);
    assert_eq!(next[1].state.lane, Lane::Prefetch);
}

#[test]
fn unknown_tokens_are_passed_over() {
    let mut reactor = Reactor::new(&[chunk(0, 0, 9, Lane::Urgent)], ReactorConfig::default());
    let state = reactor.fill_slots(0, false)[0].state;
    assert!(reactor.observe(99, &handler_with(&state, 5).pages, u64::MAX).is_none());
    assert!(reactor.on_completed(99, &handler_with(&state, 5), &report(1), None, 0).is_empty());
    assert_eq!(reactor.total_bytes(), 0);
    assert_eq!(reactor.active_requests().len(), 1);
}

#[test]
fn registry_adds_up_per_connection() {
    let chunks: Vec<ChunkRequest> =
        (0..3).map(|i| chunk(i, i * 10, i * 10 + 9, Lane::Urgent)).collect();
    let mut reactor = Reactor::new(&chunks, ReactorConfig::default());
    let starts = reactor.fill_slots(0, false);
    for (i, start) in starts.iter().enumerate() {
        let id = if i == 1 { 8 } else { 7 };
        reactor.on_completed(
            start.state.token,
            &handler_with(&start.state, 10),
            &report(id),
            None,
            100 + i as u64,
        );
    }
    let (lives, result) = reactor.finish(1);
    assert_eq!(result.total_connections, 2);
    let first = &result.connections[0];
    assert_eq!(first.connection_id, 7);
    assert_eq!((first.requests_count, first.bytes_total), (2, 20));
    assert_eq!((first.first_use_ns, first.last_use_ns), (100, 102));
    let bytes: u64 = result.connections.iter().map(|c| c.bytes_total).sum();
    assert_eq!(bytes, result.total_bytes);
    assert!(matches!(
        lives[1],
        TraceEvent::ConnectionLifecycle { connection_id: 8, requests_count: 1, bytes_total: 10, .. }
    ));
}

#[test]
fn backoff_doubles_up_to_a_limit() {
    let frontier: Vec<u64> = (1..=7).map(|a| backoff_ms(a, true)).collect();
    assert_eq!(frontier, vec![500, 1_000, 2_000, 4_000, 8_000, 8_000, 8_000]);
    let other: Vec<u64> = (1..=7).map(|a| backoff_ms(a, false)).collect();
    assert_eq!(other, vec![2_000, 4_000, 8_000, 16_000, 32_000, 32_000, 32_000]);
}

#[test]
fn what_is_missing_is_asked_for_again() {
    let state = RequestState {
        token: 0,
        request_id: 1,
        chunk_id: 6,
        lane: Lane::Prefetch,
        attempt: 3,
        range_start: 1_000,
        range_end: 1_999,
        page_bytes: 0,
        last_progress_ns: 0,
        stalled: false,
    };
    let again = chunk_to_requeue(&state, 999, 0, 5).unwrap();
    assert_eq!((again.chunk.range_start, again.chunk.range_end), (1_999, 1_999));
    assert_eq!(again.attempt, 4);
    assert!(again.blocks_frontier);
    assert_eq!(again.chunk.lane, Lane::Urgent);
    assert_eq!(again.ready_ns, 2_000 * MS + 5);
    assert!(chunk_to_requeue(&state, 1_000, 0, 5).is_none());
    assert!(chunk_to_requeue(&RequestState { attempt: 10, ..state }, 0, 0, 5).is_none());
    let late = chunk_to_requeue(&state, 0, 0, u64::MAX).unwrap();
    assert_eq!(late.ready_ns, u64::MAX);
}

#[test]
fn failures_are_told_apart() {
    for (desc, class) in [
        ("operation timeout", ErrorClass::Timeout),
        ("the request timed out", ErrorClass::Timeout),
        ("peer reset", ErrorClass::ConnectionReset),
        ("connection was refused", ErrorClass::ConnectionReset),
        ("refused", ErrorClass::Other),
        ("could not resolve host", ErrorClass::DnsFailure),
        ("dns", ErrorClass::DnsFailure),
        ("ssl connect error", ErrorClass::TlsFailure),
        ("tls alert", ErrorClass::TlsFailure),
        ("bad certificate", ErrorClass::TlsFailure),
        ("recv failure", ErrorClass::RecvError),
        ("unexpected eof", ErrorClass::RecvError),
        ("socket closed", ErrorClass::RecvError),
        ("something else", ErrorClass::Other),
        ("ssl timeout", ErrorClass::Timeout),
    ] {
        assert_eq!(classify_failure(desc, 1, None), class);
    }
    assert_eq!(classify_failure("x", 0, Some(503)), ErrorClass::HttpError);
    assert_eq!(classify_failure("x", 1, Some(503)), ErrorClass::Other);
    assert_eq!(classify_failure("x", 0, Some(399)), ErrorClass::Other);
}

#[test]
fn http_errors_count_without_a_failure() {
    assert_eq!(classify_error(None, 10, Some(404)), Some(ErrorClass::HttpError));
    assert_eq!(classify_error(None, 0, Some(206)), None);
    assert_eq!(classify_error(None, 0, None), None);
    assert_eq!(classify_error(Some("SSL"), 0, None), Some(ErrorClass::TlsFailure));
}

#[test]
fn version_of_a_request() {
    let mut head = ResponseHead::new();
    assert_eq!(request_http_version(&head, Some(2)), "h1.1");
    assert_eq!(request_http_version(&head, Some(3)), "h2");
    assert_eq!(request_http_version(&head, Some(4)), "h3");
    assert_eq!(request_http_version(&head, Some(1)), "http/1");
    assert_eq!(request_http_version(&head, Some(-7)), "http/-7");
    assert_eq!(request_http_version(&head, None), "unknown");
    head.headers.push(("http/2 200 a".to_string(), "b".to_string()));
    assert_eq!(request_http_version(&head, Some(2)), "h1.1");
    assert_eq!(request_http_version(&head, None), "unknown");
    head.response_code = Some(200);
    assert_eq!(request_http_version(&head, Some(2)), "h1.1");
    assert_eq!(request_http_version(&head, Some(1)), "http/1");
    assert_eq!(request_http_version(&head, Some(0)), "h2");
    assert_eq!(request_http_version(&head, None), "h2");
}

#[test]
fn protocol_of_a_connection() {
    let mut timings = TransferTimings {
        dns_ns: 0,
        connect_ns: 0,
        tls_ns: 0,
        ttfb_ns: 0,
        queue_us: 0,
        total_ns: 0,
    };
    assert_eq!(connection_protocol(&timings, "h1.1"), "http/h1.1");
    timings.tls_ns = 1;
    assert_eq!(connection_protocol(&timings, "h2"), "https/h2");
}
