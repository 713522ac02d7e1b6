//! The events of a trace.
//!
//! Times are whole nanoseconds (queue times whole microseconds), and JSON
//! values are carried as their text.

use vstd::prelude::*;

verus! {

/// The lane that a request belongs to.
#[derive(Debug, Clone, Copy, PartialEq, Eq, Structural)]
pub enum Lane {
    Urgent,
    Prefetch,
}

/// Why a request makes no progress.
#[derive(Debug, Clone, Copy, PartialEq, Eq, Structural)]
pub enum StallClass {
    QueuedByClient,
    DnsConnectTlsSlow,
    HighTtfb,
    MidstreamNoProgress,
    ResetEofRecv,
    LocalCancellation,
}

/// How a request failed.
#[derive(Debug, Clone, Copy, PartialEq, Eq, Structural)]
pub enum ErrorClass {
    Timeout,
    ConnectionReset,
    DnsFailure,
    TlsFailure,
    HttpError,
    RecvError,
    Cancelled,
    Other,
}

/// The phases of a finished transfer.
#[derive(Debug, Clone, Copy, PartialEq, Eq, Structural)]
pub struct TransferTimings {
    pub dns_ns: u64,
    pub connect_ns: u64,
    pub tls_ns: u64,
    pub ttfb_ns: u64,
    pub queue_us: i64,
    pub total_ns: u64,
}

/// All trace events.
#[derive(Debug, Clone)]
pub enum TraceEvent {
    RunStarted { run_id: String, asset_key: String, config: String, timestamp_ns: u64 },
    ProbeCompleted {
        effective_url_hash: String,
        range_support: bool,
        content_length: Option<u64>,
        protocol: String,
        dns_ns: u64,
        connect_ns: u64,
        tls_ns: u64,
        ttfb_ns: u64,
        remote_endpoint: String,
        local_endpoint: String,
        timestamp_ns: u64,
    },
    RequestStarted {
        request_id: u64,
        chunk_id: u64,
        lane: Lane,
        attempt: u32,
        requested_range: String,
        timestamp_ns: u64,
    },
    RequestPrereq {
        request_id: u64,
        connection_id: i64,
        new_connection: bool,
        local_endpoint: String,
        remote_endpoint: String,
        protocol: String,
        timestamp_ns: u64,
    },
    HeadersReceived {
        request_id: u64,
        response_code: u32,
        served_range: Option<String>,
        effective_url_hash: String,
        timestamp_ns: u64,
    },
    PageCompleted {
        request_id: u64,
        chunk_id: u64,
        page_index: u64,
        page_start_byte: u64,
        page_end_byte: u64,
        page_bytes: u64,
        cumulative_bytes: u64,
        timestamp_ns: u64,
    },
    RequestStalled {
        request_id: u64,
        stall_class: StallClass,
        no_progress_duration_ms: u64,
        timestamp_ns: u64,
    },
    RequestResumed { request_id: u64, suffix_range: String, attempt: u32, timestamp_ns: u64 },
    RequestFinished {
        request_id: u64,
        total_bytes: u64,
        timings: TransferTimings,
        http_version: String,
        connection_id: i64,
        new_connection: bool,
        error_class: Option<ErrorClass>,
        timestamp_ns: u64,
    },
    FrontierAdvanced {
        frontier_byte: u64,
        frontier_page: u64,
        contiguous_bytes: u64,
        timestamp_ns: u64,
    },
    ConnectionLifecycle {
        connection_id: i64,
        protocol: String,
        local_endpoint: String,
        remote_endpoint: String,
        requests_count: u32,
        bytes_total: u64,
        first_use_ns: u64,
        last_use_ns: u64,
    },
    RunCompleted {
        run_id: String,
        total_bytes: u64,
        total_requests: u32,
        total_connections: u32,
        duration_ns: u64,
        capability_envelope: Option<String>,
        summary: Vec<(String, String)>,
        timestamp_ns: u64,
    },
}

/// A trace event with its texts as sequences of characters.
pub enum TraceEventView {
    RunStarted {
        run_id: Seq<char>,
        asset_key: Seq<char>,
        config: Seq<char>,
        timestamp_ns: u64,
    },
    ProbeCompleted {
        effective_url_hash: Seq<char>,
        range_support: bool,
        content_length: Option<u64>,
        protocol: Seq<char>,
        dns_ns: u64,
        connect_ns: u64,
        tls_ns: u64,
        ttfb_ns: u64,
        remote_endpoint: Seq<char>,
        local_endpoint: Seq<char>,
        timestamp_ns: u64,
    },
    RequestStarted {
        request_id: u64,
        chunk_id: u64,
        lane: Lane,
        attempt: u32,
        requested_range: Seq<char>,
        timestamp_ns: u64,
    },
    RequestPrereq {
        request_id: u64,
        connection_id: i64,
        new_connection: bool,
        local_endpoint: Seq<char>,
        remote_endpoint: Seq<char>,
        protocol: Seq<char>,
        timestamp_ns: u64,
    },
    HeadersReceived {
        request_id: u64,
        response_code: u32,
        served_range: Option<Seq<char>>,
        effective_url_hash: Seq<char>,
        timestamp_ns: u64,
    },
    PageCompleted {
        request_id: u64,
        chunk_id: u64,
        page_index: u64,
        page_start_byte: u64,
        page_end_byte: u64,
        page_bytes: u64,
        cumulative_bytes: u64,
        timestamp_ns: u64,
    },
    RequestStalled {
        request_id: u64,
        stall_class: StallClass,
        no_progress_duration_ms: u64,
        timestamp_ns: u64,
    },
    RequestResumed { request_id: u64, suffix_range: Seq<char>, attempt: u32, timestamp_ns: u64 },
    RequestFinished {
        request_id: u64,
        total_bytes: u64,
        timings: TransferTimings,
        http_version: Seq<char>,
        connection_id: i64,
        new_connection: bool,
        error_class: Option<ErrorClass>,
        timestamp_ns: u64,
    },
    FrontierAdvanced {
        frontier_byte: u64,
        frontier_page: u64,
        contiguous_bytes: u64,
        timestamp_ns: u64,
    },
    ConnectionLifecycle {
        connection_id: i64,
        protocol: Seq<char>,
        local_endpoint: Seq<char>,
        remote_endpoint: Seq<char>,
        requests_count: u32,
        bytes_total: u64,
        first_use_ns: u64,
        last_use_ns: u64,
    },
    RunCompleted {
        run_id: Seq<char>,
        total_bytes: u64,
        total_requests: u32,
        total_connections: u32,
        duration_ns: u64,
        capability_envelope: Option<Seq<char>>,
        summary: Seq<(Seq<char>, Seq<char>)>,
        timestamp_ns: u64,
    },
}

/// The view of an optional text.
pub open spec fn text_option(s: Option<String>) -> Option<Seq<char>> {
    match s {
        Some(t) => Some(t@),
        None => None,
    }
}

/// The view of a list of pairs of texts.
pub open spec fn text_pairs(v: Seq<(String, String)>) -> Seq<(Seq<char>, Seq<char>)> {
    v.map_values(|p: (String, String)| (p.0@, p.1@))
}

impl View for TraceEvent {
    type V = TraceEventView;

    open spec fn view(&self) -> TraceEventView {
        match *self {
            TraceEvent::RunStarted { run_id, asset_key, config, timestamp_ns } => {
                TraceEventView::RunStarted {
                    run_id: run_id@,
                    asset_key: asset_key@,
                    config: config@,
                    timestamp_ns,
                }
            },
            TraceEvent::ProbeCompleted {
                effective_url_hash,
                range_support,
                content_length,
                protocol,
                dns_ns,
                connect_ns,
                tls_ns,
                ttfb_ns,
                remote_endpoint,
                local_endpoint,
                timestamp_ns,
            } => TraceEventView::ProbeCompleted {
                effective_url_hash: effective_url_hash@,
                range_support,
                content_length,
                protocol: protocol@,
                dns_ns,
                connect_ns,
                tls_ns,
                ttfb_ns,
                remote_endpoint: remote_endpoint@,
                local_endpoint: local_endpoint@,
                timestamp_ns,
            },
            TraceEvent::RequestStarted {
                request_id,
                chunk_id,
                lane,
                attempt,
                requested_range,
                timestamp_ns,
            } => TraceEventView::RequestStarted {
                request_id,
                chunk_id,
                lane,
                attempt,
                requested_range: requested_range@,
                timestamp_ns,
            },
            TraceEvent::RequestPrereq {
                request_id,
                connection_id,
                new_connection,
                local_endpoint,
                remote_endpoint,
                protocol,
                timestamp_ns,
            } => TraceEventView::RequestPrereq {
                request_id,
                connection_id,
                new_connection,
                local_endpoint: local_endpoint@,
                remote_endpoint: remote_endpoint@,
                protocol: protocol@,
                timestamp_ns,
            },
            TraceEvent::HeadersReceived {
                request_id,
                response_code,
                served_range,
                effective_url_hash,
                timestamp_ns,
            } => TraceEventView::HeadersReceived {
                request_id,
                response_code,
                served_range: text_option(served_range),
                effective_url_hash: effective_url_hash@,
                timestamp_ns,
            },
            TraceEvent::PageCompleted {
                request_id,
                chunk_id,
                page_index,
                page_start_byte,
                page_end_byte,
                page_bytes,
                cumulative_bytes,
                timestamp_ns,
            } => TraceEventView::PageCompleted {
                request_id,
                chunk_id,
                page_index,
                page_start_byte,
                page_end_byte,
                page_bytes,
                cumulative_bytes,
                timestamp_ns,
            },
            TraceEvent::RequestStalled {
                request_id,
                stall_class,
                no_progress_duration_ms,
                timestamp_ns,
            } => TraceEventView::RequestStalled {
                request_id,
                stall_class,
                no_progress_duration_ms,
                timestamp_ns,
            },
            TraceEvent::RequestResumed { request_id, suffix_range, attempt, timestamp_ns } => {
                TraceEventView::RequestResumed {
                    request_id,
                    suffix_range: suffix_range@,
                    attempt,
                    timestamp_ns,
                }
            },
            TraceEvent::RequestFinished {
                request_id,
                total_bytes,
                timings,
                http_version,
                connection_id,
                new_connection,
                error_class,
                timestamp_ns,
            } => TraceEventView::RequestFinished {
                request_id,
                total_bytes,
                timings,
                http_version: http_version@,
                connection_id,
                new_connection,
                error_class,
                timestamp_ns,
            },
            TraceEvent::FrontierAdvanced {
                frontier_byte,
                frontier_page,
                contiguous_bytes,
                timestamp_ns,
            } => TraceEventView::FrontierAdvanced {
                frontier_byte,
                frontier_page,
                contiguous_bytes,
                timestamp_ns,
            },
            TraceEvent::ConnectionLifecycle {
                connection_id,
                protocol,
                local_endpoint,
                remote_endpoint,
                requests_count,
                bytes_total,
                first_use_ns,
                last_use_ns,
            } => TraceEventView::ConnectionLifecycle {
                connection_id,
                protocol: protocol@,
                local_endpoint: local_endpoint@,
                remote_endpoint: remote_endpoint@,
                requests_count,
                bytes_total,
                first_use_ns,
                last_use_ns,
            },
            TraceEvent::RunCompleted {
                run_id,
                total_bytes,
                total_requests,
                total_connections,
                duration_ns,
                capability_envelope,
                summary,
                timestamp_ns,
            } => TraceEventView::RunCompleted {
                run_id: run_id@,
                total_bytes,
                total_requests,
                total_connections,
                duration_ns,
                capability_envelope: text_option(capability_envelope),
                summary: text_pairs(summary@),
                timestamp_ns,
            },
        }
    }
}

/// The views of a list of events.
pub open spec fn event_views(events: Seq<TraceEvent>) -> Seq<TraceEventView> {
    events.map_values(|e: TraceEvent| e@)
}

/// The view of an event shows all of it: each field in its place, texts by their
/// characters.
pub proof fn view_shows_the_whole_event(event: TraceEvent)
    ensures
        match event {
            TraceEvent::RequestStarted {
                request_id,
                chunk_id,
                lane,
                attempt,
                requested_range,
                timestamp_ns,
            } => event@ matches TraceEventView::RequestStarted {
                request_id: a,
                chunk_id: b,
                lane: c,
                attempt: d,
                requested_range: e,
                timestamp_ns: f,
            } && a == request_id && b == chunk_id && c == lane && d == attempt && e
                == requested_range@ && f == timestamp_ns,
            TraceEvent::RequestPrereq {
                request_id,
                connection_id,
                new_connection,
                local_endpoint,
                remote_endpoint,
                protocol,
                timestamp_ns,
            } => event@ matches TraceEventView::RequestPrereq {
                request_id: a,
                connection_id: b,
                new_connection: c,
                local_endpoint: d,
                remote_endpoint: e,
                protocol: f,
                timestamp_ns: g,
            } && a == request_id && b == connection_id && c == new_connection && d
                == local_endpoint@ && e == remote_endpoint@ && f == protocol@ && g == timestamp_ns,
            TraceEvent::PageCompleted {
                request_id,
                chunk_id,
                page_index,
                page_start_byte,
                page_end_byte,
                page_bytes,
                cumulative_bytes,
                timestamp_ns,
            } => event@ matches TraceEventView::PageCompleted {
                request_id: a,
                chunk_id: b,
                page_index: c,
                page_start_byte: d,
                page_end_byte: e,
                page_bytes: f,
                cumulative_bytes: g,
                timestamp_ns: h,
            } && a == request_id && b == chunk_id && c == page_index && d == page_start_byte && e
                == page_end_byte && f == page_bytes && g == cumulative_bytes && h == timestamp_ns,
            TraceEvent::RequestResumed { request_id, suffix_range, attempt, timestamp_ns } => event@
                matches TraceEventView::RequestResumed {
                request_id: a,
                suffix_range: b,
                attempt: c,
                timestamp_ns: d,
            } && a == request_id && b == suffix_range@ && c == attempt && d == timestamp_ns,
            TraceEvent::RequestFinished {
                request_id,
                total_bytes,
                timings,
                http_version,
                connection_id,
                new_connection,
                error_class,
                timestamp_ns,
            } => event@ matches TraceEventView::RequestFinished {
                request_id: a,
                total_bytes: b,
                timings: c,
                http_version: d,
                connection_id: e,
                new_connection: f,
                error_class: g,
                timestamp_ns: h,
            } && a == request_id && b == total_bytes && c == timings && d == http_version@ && e
                == connection_id && f == new_connection && g == error_class && h == timestamp_ns,
            TraceEvent::ConnectionLifecycle {
                connection_id,
                protocol,
                local_endpoint,
                remote_endpoint,
                requests_count,
                bytes_total,
                first_use_ns,
                last_use_ns,
            } => event@ matches TraceEventView::ConnectionLifecycle {
                connection_id: a,
                protocol: b,
                local_endpoint: c,
                remote_endpoint: d,
                requests_count: e,
                bytes_total: f,
                first_use_ns: g,
                last_use_ns: h,
            } && a == connection_id && b == protocol@ && c == local_endpoint@ && d
                == remote_endpoint@ && e == requests_count && f == bytes_total && g == first_use_ns
                && h == last_use_ns,
            _ => true,
        },
{
}

/// The views of a list show each of its elements, in order.
pub proof fn views_keep_the_order(
    events: Seq<TraceEvent>,
    pairs: Seq<(String, String)>,
    text: Option<String>,
    i: int,
)
    ensures
        event_views(events).len() == events.len(),
        0 <= i < events.len() ==> event_views(events)[i] == events[i]@,
        text_pairs(pairs).len() == pairs.len(),
        0 <= i < pairs.len() ==> text_pairs(pairs)[i] == (pairs[i].0@, pairs[i].1@),
        text matches Some(s) ==> text_option(text) == Some(s@),
        text is None ==> text_option(text) is None,
{
}

} // verus!
