use frontier_sim::download::{
    download_http_version, finish_download, request_started, transfer_timings, DownloadHandler,
    DownloadParams, ReportedTimes, TransferReport,
};
use frontier_sim::events::{Lane, TraceEvent};
use frontier_sim::headers::{header_field, header_line, ResponseHead};
use frontier_sim::pages::PageCounter;
use frontier_sim::probe::{
    content_length, finish_probe, probe_protocol, range_support, ProbeHandler, ProbeReport,
    ReportedLength,
};
use frontier_sim::tracker::PAGE_SIZE;
use frontier_sim::transport::Sink;
use frontier_sim::url_hash::url_hash;

fn pairs(list: &[(&str, &str)]) -> Vec<(String, String)> {
    list.iter().map(|(k, v)| (k.to_string(), v.to_string())).collect()
}

fn report() -> TransferReport {
    TransferReport {
        times: ReportedTimes {
            namelookup_ns: Some(1_000),
            connect_ns: Some(700_000),
            appconnect_ns: Some(1_500_000),
            starttransfer_ns: Some(2_000_000),
            total_ns: Some(9_000_000),
            queue_us: 12,
        },
        connection_id: 3,
        remote_ip: "10.0.0.1".to_string(),
        remote_port: 443,
        local_ip: "10.0.0.2".to_string(),
        local_port: 50_000,
        http_version: Some(2),
        effective_url: Some("https://cdn.example/x".to_string()),
    }
}

#[test]
fn page_aggregation_logic() {
    let mut handler = DownloadHandler::new(1, 0, 0, PAGE_SIZE, Sink::Discard);

    // Write exactly one page worth of data
    let data = vec![0u8; PAGE_SIZE as usize];
    let (written, events) = handler.write(&data, 5);
    assert_eq!(written, PAGE_SIZE as usize);

    // Should have emitted one page_completed event
    assert_eq!(events.len(), 1);
    if let TraceEvent::PageCompleted { page_index, page_bytes, .. } = &events[0] {
        assert_eq!(*page_index, 0);
        assert_eq!(*page_bytes, PAGE_SIZE);
    } else {
        panic!("Expected PageCompleted event");
    }
}

#[test]
fn partial_page_not_emitted_until_full() {
    let mut handler = DownloadHandler::new(1, 0, 0, PAGE_SIZE, Sink::Discard);

    // Write half a page
    let data = vec![0u8; (PAGE_SIZE / 2) as usize];
    let (_, events) = handler.write(&data, 5);

    // No event emitted yet
    assert_eq!(events.len(), 0);
    assert_eq!(handler.pages.bytes_received, PAGE_SIZE / 2);
}

#[test]
fn multi_page_write() {
    let mut handler = DownloadHandler::new(1, 0, 0, PAGE_SIZE, Sink::Discard);

    // Write 2.5 pages in one call
    let size = (PAGE_SIZE * 2 + PAGE_SIZE / 2) as usize;
    let data = vec![0u8; size];
    let (_, events) = handler.write(&data, 5);

    // Should have emitted 2 complete page events
    assert_eq!(events.len(), 2);
    assert_eq!(handler.pages.current_page_index, 2);
    assert_eq!(handler.pages.current_page_bytes, PAGE_SIZE / 2);
}

#[test]
fn range_offset_page_alignment() {
    // Start at page 5 (offset = 5 * 128KB)
    let range_start = 5 * PAGE_SIZE;
    let mut handler = DownloadHandler::new(1, 0, range_start, PAGE_SIZE, Sink::Discard);

    let data = vec![0u8; PAGE_SIZE as usize];
    let (_, events) = handler.write(&data, 5);

    assert_eq!(events.len(), 1);
    if let TraceEvent::PageCompleted { page_index, .. } = &events[0] {
        assert_eq!(*page_index, 5);
    }
}

#[test]
fn probe_handler_captures_headers() {
    let mut handler = ProbeHandler::new();
    handler.header(b"Content-Type: application/octet-stream\r\n");
    handler.header(b"Accept-Ranges: bytes\r\n");
    handler.header(b"Content-Length: 1234567\r\n");

    assert_eq!(handler.headers.len(), 3);
    assert_eq!(handler.headers[0].0, "content-type");
    assert_eq!(handler.headers[1].0, "accept-ranges");
    assert_eq!(handler.headers[1].1, "bytes");
}

#[test]
fn page_events_say_where_the_pages_lie() {
    let mut counter = PageCounter::new(7, 2, 25, 10);
    assert_eq!(counter.current_page_index, 2);
    let events = counter.write(23, 99);
    assert_eq!(events.len(), 2);
    match events[1] {
        TraceEvent::PageCompleted {
            request_id,
            chunk_id,
            page_index,
            page_start_byte,
            page_end_byte,
            page_bytes,
            cumulative_bytes,
            timestamp_ns,
        } => {
            assert_eq!((request_id, chunk_id, page_index), (7, 2, 3));
            assert_eq!((page_start_byte, page_end_byte, page_bytes), (30, 40, 10));
            assert_eq!((cumulative_bytes, timestamp_ns), (20, 99));
        }
        _ => panic!("expected a page"),
    }
    match counter.flush(100) {
        Some(TraceEvent::PageCompleted { page_start_byte, page_end_byte, page_bytes, .. }) => {
            assert_eq!((page_start_byte, page_end_byte, page_bytes), (40, 43, 3));
        }
        _ => panic!("expected a page"),
    }
}

#[test]
fn bytes_in_parts_fill_the_same_pages() {
    let mut whole = PageCounter::new(1, 1, 0, 10);
    let mut parts = whole;
    let at_once = whole.write(57, 1);
    let mut one_by_one = Vec::new();
    for n in [3, 0, 20, 7, 27] {
        one_by_one.extend(parts.write(n, 1));
    }
    assert_eq!(whole, parts);
    assert_eq!(at_once.len(), 5);
    assert_eq!(format!("{at_once:?}"), format!("{one_by_one:?}"));
}

#[test]
fn full_last_page_is_not_flushed() {
    let mut counter = PageCounter::new(1, 1, 0, 10);
    counter.write(20, 1);
    assert!(counter.flush(2).is_none());
}

#[test]
fn status_lines_set_the_response_code() {
    let mut head = ResponseHead::new();
    assert!(head.header(b"HTTP/1.1 302 Found\r\n"));
    assert_eq!(head.response_code, Some(302));
    head.header(b"Location: https://cdn.example:8443/x\r\n");
    head.header(b"\r\n");
    head.header(b"HTTP/2 206\r\n");
    assert_eq!(head.response_code, Some(206));
    head.header(b"HTTP/1.1 abc\r\n");
    assert_eq!(head.response_code, None);
    head.header(b"HTTP/1.1 200 OK\r\n");
    head.header(b"HTTP/1.1\r\n");
    assert_eq!(head.response_code, Some(200));
    assert_eq!(head.headers, pairs(&[("location", "https://cdn.example:8443/x")]));
}

#[test]
fn header_lines_must_be_text() {
    let mut head = ResponseHead::new();
    assert!(head.header(&[0xff, b':', b'x']));
    assert!(head.headers.is_empty());
    assert_eq!(header_line(b"  a: b \r\n"), Some("a: b".to_string()));
    assert_eq!(header_line(&[0xc3]), None);
    assert_eq!(
        header_field("X-\u{c4}b : 1:2 "),
        Some(("x-\u{e4}b".to_string(), "1:2".to_string()))
    );
    assert_eq!(header_field("no colon"), None);
}

#[test]
fn handlers_take_headers_and_bytes_apart() {
    let mut handler = DownloadHandler::new(1, 0, 0, 10, Sink::SparseFile);
    handler.header(b"HTTP/1.1 206 Partial Content\r\n");
    let (written, events) = handler.write(b"0123456789abc", 4);
    assert_eq!(written, 13);
    assert_eq!(events.len(), 1);
    assert_eq!(handler.head.response_code, Some(206));
    assert_eq!(handler.range_start, 0);
    let mut probe = ProbeHandler::new();
    assert_eq!(probe.write(b"body"), 4);
    assert!(probe.headers.is_empty());
}

#[test]
fn phases_of_a_transfer() {
    let timings = transfer_timings(&report().times);
    assert_eq!(timings.dns_ns, 1_000);
    assert_eq!(timings.connect_ns, 700_000);
    assert_eq!(timings.tls_ns, 800_000);
    assert_eq!(timings.ttfb_ns, 2_000_000);
    assert_eq!(timings.queue_us, 12);
    assert_eq!(timings.total_ns, 9_000_000);
    let none = transfer_timings(&ReportedTimes {
        namelookup_ns: None,
        connect_ns: Some(5),
        appconnect_ns: None,
        starttransfer_ns: None,
        total_ns: None,
        queue_us: 0,
    });
    assert_eq!((none.dns_ns, none.tls_ns, none.ttfb_ns, none.total_ns), (0, 0, 0, 0));
}

#[test]
fn download_version_is_the_negotiated_one() {
    let headers = pairs(&[("a", "b"), ("http/2 200 x", ""), ("http/3", "")]);
    assert_eq!(download_http_version(&headers, Some(2)), "h1.1");
    assert_eq!(download_http_version(&headers, Some(0)), "http/2 200 x");
    assert_eq!(download_http_version(&headers, None), "http/2 200 x");
    assert_eq!(download_http_version(&pairs(&[("a", "http/2")]), Some(3)), "h2");
    assert_eq!(download_http_version(&pairs(&[("a", "http/2")]), Some(0)), "unknown");
    assert_eq!(download_http_version(&Vec::new(), None), "unknown");
}

#[test]
fn download_outcome() {
    let params = DownloadParams {
        request_id: 9,
        chunk_id: 4,
        url: "https://example.com/x".to_string(),
        range_start: 0,
        range_end: 12,
        lane: Lane::Urgent,
        attempt: 1,
        page_size: 10,
        timeout_ms: 120_000,
        sink: Sink::Discard,
    };
    match request_started(&params, 1) {
        TraceEvent::RequestStarted { request_id, lane, attempt, requested_range, .. } => {
            assert_eq!((request_id, lane, attempt), (9, Lane::Urgent, 1));
            assert_eq!(requested_range, "0-12");
        }
        _ => panic!("expected the start"),
    }
    let mut handler = DownloadHandler::new(9, 4, 0, 10, Sink::Discard);
    handler.header(b"HTTP/1.1 206 Partial Content\r\n");
    handler.write(b"0123456789abc", 4);
    let outcome = finish_download(&params, &handler, &report(), 77);
    assert_eq!(outcome.result.request_id, 9);
    assert_eq!(outcome.result.total_bytes, 13);
    assert_eq!(outcome.result.http_version, "h1.1");
    assert_eq!(outcome.result.connection_id, 3);
    assert!(outcome.result.new_connection);
    assert_eq!(outcome.result.response_code, 206);
    assert_eq!(outcome.result.effective_url_hash, url_hash("https://cdn.example/x"));
    assert_eq!(outcome.result.remote_endpoint, "10.0.0.1:443");
    assert_eq!(outcome.result.local_endpoint, "10.0.0.2:50000");
    assert_eq!(outcome.events.len(), 2);
    assert!(matches!(
        outcome.events[0],
        TraceEvent::PageCompleted { page_index: 1, page_bytes: 3, cumulative_bytes: 13, .. }
    ));
    assert!(matches!(
        outcome.events[1],
        TraceEvent::RequestFinished {
            request_id: 9,
            total_bytes: 13,
            connection_id: 3,
            new_connection: true,
            error_class: None,
            timestamp_ns: 77,
            ..
        }
    ));
}

#[test]
fn download_outcome_without_effective_url() {
    let params = DownloadParams {
        request_id: 1,
        chunk_id: 0,
        url: "u".to_string(),
        range_start: 0,
        range_end: 9,
        lane: Lane::Prefetch,
        attempt: 1,
        page_size: 10,
        timeout_ms: 1,
        sink: Sink::Discard,
    };
    let mut handler = DownloadHandler::new(1, 0, 0, 10, Sink::Discard);
    handler.write(&[0; 10], 1);
    let mut facts = report();
    facts.effective_url = None;
    facts.times.connect_ns = Some(500_000);
    let outcome = finish_download(&params, &handler, &facts, 5);
    assert_eq!(outcome.result.effective_url_hash, url_hash("u"));
    assert_eq!(outcome.result.response_code, 0);
    assert!(!outcome.result.new_connection);
    assert_eq!(outcome.events.len(), 1);
}

#[test]
fn range_support_needs_the_right_header() {
    assert!(range_support(&pairs(&[("a", "b"), ("accept-ranges", "Bytes")])));
    assert!(!range_support(&pairs(&[("accept-ranges", "none")])));
    assert!(!range_support(&pairs(&[("x-accept-ranges", "bytes")])));
    assert!(!range_support(&Vec::new()));
}

#[test]
fn content_length_falls_back_to_the_header() {
    let headers = pairs(&[("content-length", "42"), ("content-length", "43")]);
    assert_eq!(content_length(ReportedLength::Bytes(7), &headers), Some(7));
    assert_eq!(content_length(ReportedLength::NotPositive, &headers), Some(42));
    assert_eq!(content_length(ReportedLength::Unavailable, &headers), None);
    assert_eq!(
        content_length(ReportedLength::NotPositive, &pairs(&[("content-length", "x")])),
        None
    );
    assert_eq!(content_length(ReportedLength::NotPositive, &Vec::new()), None);
}

#[test]
fn probe_protocol_is_the_negotiated_one() {
    let advertised = pairs(&[("alt-svc", "h2=\":443\"")]);
    assert_eq!(probe_protocol(true, &advertised, Some(2)), "h1.1");
    assert_eq!(probe_protocol(true, &advertised, Some(0)), "h2");
    assert_eq!(probe_protocol(true, &advertised, None), "h2");
    assert_eq!(probe_protocol(true, &pairs(&[("via", "HTTP/2 proxy")]), None), "h2");
    assert_eq!(probe_protocol(true, &pairs(&[("h2", "x")]), Some(2)), "h1.1");
    assert_eq!(probe_protocol(true, &Vec::new(), Some(3)), "h2");
    assert_eq!(probe_protocol(true, &Vec::new(), None), "unknown");
    assert_eq!(probe_protocol(false, &advertised, Some(3)), "unknown");
}

#[test]
fn probe_outcome() {
    let mut handler = ProbeHandler::new();
    handler.header(b"HTTP/1.1 200 OK\r\n");
    handler.header(b"Accept-Ranges: BYTES\r\n");
    handler.header(b"Content-Length: 1234567\r\n");
    let result = finish_probe(
        "https://example.com/x",
        handler,
        &ProbeReport {
            transfer: report(),
            responded: true,
            content_length: ReportedLength::NotPositive,
        },
    );
    assert!(result.range_support);
    assert_eq!(result.content_length, Some(1_234_567));
    assert_eq!(result.protocol, "h1.1");
    assert_eq!(result.remote_endpoint, "10.0.0.1:443");
    assert_eq!(result.local_endpoint, "10.0.0.2:50000");
    assert_eq!(result.effective_url_hash, url_hash("https://cdn.example/x"));
    assert_eq!(
        (result.dns_ns, result.connect_ns, result.tls_ns, result.ttfb_ns),
        (1_000, 700_000, 800_000, 2_000_000)
    );
    assert_eq!(result.response_headers.len(), 2);
}
