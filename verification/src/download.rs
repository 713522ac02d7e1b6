//! Download of a single byte range.
//!
//! The transfer itself happens outside. The handler takes in what arrives, and
//! the outcome is made of what the handler has seen and of what the transfer
//! reports at its end.

use crate::events;
use crate::events::{Lane, TraceEvent, TraceEventView, TransferTimings};
use crate::headers::ResponseHead;
use crate::pages::PageCounter;
use crate::text;
use crate::transport;
use crate::transport::Sink;
use crate::url_hash;
use vstd::prelude::*;

verus! {

/// A connection that took longer than this to come about is a new one.
pub const NEW_CONNECTION_NS: u64 = 500_000;

/// State of a single-range download.
#[derive(Debug, Clone)]
pub struct DownloadHandler {
    pub range_start: u64,
    pub pages: PageCounter,
    pub head: ResponseHead,
    pub sink: Sink,
}

impl DownloadHandler {
    /// A handler for the bytes from `range_start` on.
    pub fn new(
        request_id: u64,
        chunk_id: u64,
        range_start: u64,
        page_size: u64,
        sink: Sink,
    ) -> (res: Self)
        requires
            page_size > 0,
        ensures
            res.range_start == range_start,
            res.pages.wf(),
            res.pages == (PageCounter {
                request_id,
                chunk_id,
                page_size,
                current_page_bytes: 0,
                current_page_index: range_start / page_size,
                bytes_received: 0,
            }),
            res.pages.position() <= range_start,
            res.head@.headers == Seq::<(Seq<char>, Seq<char>)>::empty(),
            res.head@.response_code is None,
            res.sink == sink,
    {
        Self {
            range_start,
            pages: PageCounter::new(request_id, chunk_id, range_start, page_size),
            head: ResponseHead::new(),
            sink,
        }
    }

    /// Take in received bytes. They are accounted for and discarded, whatever
    /// the sink. All of them are consumed, and each page that they fill gives
    /// an event.
    pub fn write(&mut self, data: &[u8], timestamp_ns: u64) -> (res: (usize, Vec<TraceEvent>))
        requires
            old(self).pages.wf(),
            old(self).pages.position() + data@.len() <= u64::MAX,
        ensures
            res.0 == data@.len(),
            res.1@ == old(self).pages.events(data@.len() as int, timestamp_ns),
            final(self).pages.wf(),
            final(self).pages == old(self).pages.after(data@.len() as int),
            final(self).pages.position() == old(self).pages.position() + data@.len(),
            final(self).head == old(self).head,
            final(self).range_start == old(self).range_start,
            final(self).sink == old(self).sink,
    {
        let len: u64 = data.len() as u64;
        let events = self.pages.write(len, timestamp_ns);
        (data.len(), events)
    }

    /// Take in a header line. The transfer always goes on.
    pub fn header(&mut self, data: &[u8]) -> (res: bool)
        ensures
            res,
            final(self).head@ == old(self).head@.after_line(data@),
            final(self).pages == old(self).pages,
            final(self).range_start == old(self).range_start,
            final(self).sink == old(self).sink,
    {
        self.head.header(data)
    }
}

/// Parameters for a single-range download.
#[derive(Debug, Clone)]
pub struct DownloadParams {
    pub request_id: u64,
    pub chunk_id: u64,
    pub url: String,
    pub range_start: u64,
    pub range_end: u64,
    pub lane: Lane,
    pub attempt: u32,
    pub page_size: u64,
    pub timeout_ms: u64,
    pub sink: Sink,
}

/// Result of a completed single-range download.
#[derive(Debug, Clone)]
pub struct DownloadResult {
    pub request_id: u64,
    pub total_bytes: u64,
    pub timings: TransferTimings,
    pub http_version: String,
    pub connection_id: i64,
    pub new_connection: bool,
    pub response_code: u32,
    pub effective_url_hash: String,
    pub remote_endpoint: String,
    pub local_endpoint: String,
}

/// The times that a finished transfer reports, each where it is known. The times
/// run from the start of the transfer.
#[derive(Debug, Clone, Copy, PartialEq, Eq)]
pub struct ReportedTimes {
    pub namelookup_ns: Option<u64>,
    pub connect_ns: Option<u64>,
    pub appconnect_ns: Option<u64>,
    pub starttransfer_ns: Option<u64>,
    pub total_ns: Option<u64>,
    pub queue_us: i64,
}

/// What a finished transfer reports.
#[derive(Debug, Clone)]
pub struct TransferReport {
    pub times: ReportedTimes,
    pub connection_id: i64,
    pub remote_ip: String,
    pub remote_port: u16,
    pub local_ip: String,
    pub local_port: u16,
    /// Curl's number for the HTTP version, where it gave one.
    pub http_version: Option<i64>,
    /// The URL at the end of all redirects, where it is known.
    pub effective_url: Option<String>,
}

/// A reported time, zero where it is not known.
pub open spec fn known_or_zero(t: Option<u64>) -> u64 {
    match t {
        Some(ns) => ns,
        None => 0,
    }
}

/// The phases of a transfer. The TLS phase lies between the connection and the
/// end of the handshake; a handshake that was not reported takes no time.
pub open spec fn phases(times: ReportedTimes) -> TransferTimings {
    let connect = known_or_zero(times.connect_ns);
    let appconnect = known_or_zero(times.appconnect_ns);
    TransferTimings {
        dns_ns: known_or_zero(times.namelookup_ns),
        connect_ns: connect,
        tls_ns: if appconnect > connect {
            (appconnect - connect) as u64
        } else {
            0
        },
        ttfb_ns: known_or_zero(times.starttransfer_ns),
        queue_us: times.queue_us,
        total_ns: known_or_zero(times.total_ns),
    }
}

/// A reported time, zero where it is not known.
pub fn time_or_zero(t: Option<u64>) -> (res: u64)
    ensures
        res == known_or_zero(t),
{
    match t {
        Some(ns) => ns,
        None => 0,
    }
}

/// The phases of a transfer.
pub fn transfer_timings(times: &ReportedTimes) -> (res: TransferTimings)
    ensures
        res == phases(*times),
{
    let connect_ns = time_or_zero(times.connect_ns);
    let appconnect_ns = time_or_zero(times.appconnect_ns);
    TransferTimings {
        dns_ns: time_or_zero(times.namelookup_ns),
        connect_ns,
        tls_ns: appconnect_ns.saturating_sub(connect_ns),
        ttfb_ns: time_or_zero(times.starttransfer_ns),
        queue_us: times.queue_us,
        total_ns: time_or_zero(times.total_ns),
    }
}

/// The first header name that begins with `p`.
pub open spec fn first_name_with(
    headers: Seq<(Seq<char>, Seq<char>)>,
    p: Seq<char>,
) -> Option<Seq<char>>
    decreases headers.len(),
{
    if headers.len() == 0 {
        None
    } else if p.is_prefix_of(headers[0].0) {
        Some(headers[0].0)
    } else {
        first_name_with(headers.drop_first(), p)
    }
}

/// The HTTP version of a download: what was negotiated. Where that cannot be told,
/// it is what the headers say of it.
pub open spec fn download_version(
    headers: Seq<(Seq<char>, Seq<char>)>,
    negotiated: Option<i64>,
) -> Seq<char> {
    if transport::is_negotiated(negotiated) {
        transport::negotiated_name(negotiated)
    } else {
        match first_name_with(headers, "http/"@) {
            Some(name) => name,
            None => "unknown"@,
        }
    }
}

/// The HTTP version of a download.
pub fn download_http_version(headers: &Vec<(String, String)>, negotiated: Option<i64>) -> (res:
    String)
    ensures
        res@ == download_version(events::text_pairs(headers@), negotiated),
{
    if transport::version_negotiated(negotiated) {
        return transport::negotiated_http_version(negotiated);
    }
    let ghost all = events::text_pairs(headers@);
    let mut i: usize = 0;
    assert(all.skip(0) =~= all);
    while i < headers.len()
        invariant
            !transport::is_negotiated(negotiated),
            all == events::text_pairs(headers@),
            i <= headers@.len(),
            first_name_with(all.skip(i as int), "http/"@) == first_name_with(all, "http/"@),
        decreases headers@.len() - i,
    {
        assert(all.skip(i as int)[0] == (headers@[i as int].0@, headers@[i as int].1@));
        assert(all.skip(i as int).drop_first() =~= all.skip(i + 1));
        if text::starts_with(headers[i].0.as_str(), "http/") {
            return headers[i].0.clone();
        }
        i += 1;
    }
    "unknown".to_owned()
}

/// The event that a request starts.
pub open spec fn started_event(params: DownloadParams, timestamp_ns: u64) -> TraceEventView {
    TraceEventView::RequestStarted {
        request_id: params.request_id,
        chunk_id: params.chunk_id,
        lane: params.lane,
        attempt: params.attempt,
        requested_range: transport::range_text(params.range_start, params.range_end),
        timestamp_ns,
    }
}

/// The event that a request starts.
pub fn request_started(params: &DownloadParams, timestamp_ns: u64) -> (res: TraceEvent)
    ensures
        res@ == started_event(*params, timestamp_ns),
{
    TraceEvent::RequestStarted {
        request_id: params.request_id,
        chunk_id: params.chunk_id,
        lane: params.lane,
        attempt: params.attempt,
        requested_range: transport::byte_range(params.range_start, params.range_end),
        timestamp_ns,
    }
}

/// The outcome of a download: its result, and its last events.
#[derive(Debug, Clone)]
pub struct DownloadOutcome {
    pub result: DownloadResult,
    pub events: Vec<TraceEvent>,
}

/// The result is the one that the handler and the report make.
pub open spec fn is_result(
    result: DownloadResult,
    params: DownloadParams,
    handler: DownloadHandler,
    report: TransferReport,
) -> bool {
    &&& result.request_id == params.request_id
    &&& result.total_bytes == handler.pages.bytes_received
    &&& result.timings == phases(report.times)
    &&& result.http_version@ == download_version(handler.head@.headers, report.http_version)
    &&& result.connection_id == report.connection_id
    &&& result.new_connection == (known_or_zero(report.times.connect_ns) > NEW_CONNECTION_NS)
    &&& result.response_code == match handler.head.response_code {
        Some(code) => code,
        None => 0,
    }
    &&& result.effective_url_hash@ == url_hash::url_digest(
        match report.effective_url {
            Some(url) => url@,
            None => params.url@,
        },
    )
    &&& result.remote_endpoint@ == transport::endpoint_text(report.remote_ip@, report.remote_port)
    &&& result.local_endpoint@ == transport::endpoint_text(report.local_ip@, report.local_port)
}

/// The event that a request with this result finishes.
pub open spec fn finished_event(result: DownloadResult, timestamp_ns: u64) -> TraceEventView {
    TraceEventView::RequestFinished {
        request_id: result.request_id,
        total_bytes: result.total_bytes,
        timings: result.timings,
        http_version: result.http_version@,
        connection_id: result.connection_id,
        new_connection: result.new_connection,
        error_class: None,
        timestamp_ns,
    }
}

/// The last events of a download: a page that is not full, and the end of the request.
pub open spec fn closing_events(
    handler: DownloadHandler,
    result: DownloadResult,
    timestamp_ns: u64,
) -> Seq<TraceEventView> {
    if handler.pages.current_page_bytes > 0 {
        seq![handler.pages.partial_page(timestamp_ns)@, finished_event(result, timestamp_ns)]
    } else {
        seq![finished_event(result, timestamp_ns)]
    }
}

/// What a transfer that went through amounts to.
pub fn finish_download(
    params: &DownloadParams,
    handler: &DownloadHandler,
    report: &TransferReport,
    timestamp_ns: u64,
) -> (res: DownloadOutcome)
    requires
        handler.pages.position() <= u64::MAX,
    ensures
        is_result(res.result, *params, *handler, *report),
        events::event_views(res.events@) == closing_events(*handler, res.result, timestamp_ns),
{
    let mut closing: Vec<TraceEvent> = Vec::new();
    if let Some(page) = handler.pages.flush(timestamp_ns) {
        closing.push(page);
    }
    let timings = transfer_timings(&report.times);
    let http_version = download_http_version(&handler.head.headers, report.http_version);
    let response_code: u32 = match handler.head.response_code {
        Some(code) => code,
        None => 0,
    };
    let hash = match &report.effective_url {
        Some(url) => url_hash::effective_url_hash(Some(url.as_str()), params.url.as_str()),
        None => url_hash::effective_url_hash(None, params.url.as_str()),
    };
    let result = DownloadResult {
        request_id: params.request_id,
        total_bytes: handler.pages.bytes_received,
        timings,
        http_version,
        connection_id: report.connection_id,
        new_connection: timings.connect_ns > NEW_CONNECTION_NS,
        response_code,
        effective_url_hash: hash,
        remote_endpoint: transport::endpoint(report.remote_ip.as_str(), report.remote_port),
        local_endpoint: transport::endpoint(report.local_ip.as_str(), report.local_port),
    };
    closing.push(
        TraceEvent::RequestFinished {
            request_id: result.request_id,
            total_bytes: result.total_bytes,
            timings: result.timings,
            http_version: result.http_version.clone(),
            connection_id: result.connection_id,
            new_connection: result.new_connection,
            error_class: None,
            timestamp_ns,
        },
    );
    assert(events::event_views(closing@) =~= closing_events(*handler, result, timestamp_ns));
    DownloadOutcome { result, events: closing }
}

/// The phases of a transfer are the times that it reports, and zero for those that
/// it does not. The handshake takes the time from the connection to its own end,
/// and none where its end is not reported or comes no later.
pub proof fn phases_are_reported_times(times: ReportedTimes)
    ensures
        ({
            let p = phases(times);
            &&& times.namelookup_ns matches Some(ns) ==> p.dns_ns == ns
            &&& times.namelookup_ns is None ==> p.dns_ns == 0
            &&& times.connect_ns matches Some(ns) ==> p.connect_ns == ns
            &&& times.connect_ns is None ==> p.connect_ns == 0
            &&& times.starttransfer_ns matches Some(ns) ==> p.ttfb_ns == ns
            &&& times.starttransfer_ns is None ==> p.ttfb_ns == 0
            &&& times.total_ns matches Some(ns) ==> p.total_ns == ns
            &&& times.total_ns is None ==> p.total_ns == 0
            &&& p.queue_us == times.queue_us
            &&& times.appconnect_ns matches Some(done) ==> {
                &&& p.connect_ns <= done ==> p.connect_ns + p.tls_ns == done
                &&& done < p.connect_ns ==> p.tls_ns == 0
            }
            &&& times.appconnect_ns is None ==> p.tls_ns == 0
        }),
{
}

/// Without a negotiated version, that of a download is the first header name that
/// looks like one, and unknown where there is none.
pub proof fn first_version_name_counts(
    headers: Seq<(Seq<char>, Seq<char>)>,
    negotiated: Option<i64>,
    k: int,
)
    requires
        negotiated is None || negotiated == Some(0i64),
    ensures
        0 <= k < headers.len() && "http/"@.is_prefix_of(headers[k].0) && (forall|i: int|
            0 <= i < k ==> !"http/"@.is_prefix_of((#[trigger] headers[i]).0)) ==> download_version(
            headers,
            negotiated,
        ) == headers[k].0,
        (forall|i: int| 0 <= i < headers.len() ==> !"http/"@.is_prefix_of((#[trigger] headers[i]).0))
            ==> download_version(headers, negotiated) == "unknown"@,
{
    lemma_first_name(headers, "http/"@, k);
}

proof fn lemma_first_name(headers: Seq<(Seq<char>, Seq<char>)>, p: Seq<char>, k: int)
    ensures
        0 <= k < headers.len() && p.is_prefix_of(headers[k].0) && (forall|i: int|
            0 <= i < k ==> !p.is_prefix_of((#[trigger] headers[i]).0)) ==> first_name_with(headers, p)
            == Some(headers[k].0),
        (forall|i: int| 0 <= i < headers.len() ==> !p.is_prefix_of((#[trigger] headers[i]).0))
            ==> first_name_with(headers, p) is None,
    decreases headers.len(),
{
    if headers.len() > 0 && !p.is_prefix_of(headers[0].0) {
        let rest = headers.drop_first();
        lemma_first_name(rest, p, k - 1);
        if forall|i: int| 0 <= i < k ==> !p.is_prefix_of((#[trigger] headers[i]).0) {
            assert forall|i: int| 0 <= i < k - 1 && i < rest.len() implies !p.is_prefix_of(
                (#[trigger] rest[i]).0,
            ) by {
                assert(rest[i] == headers[i + 1]);
            }
        }
        if forall|i: int| 0 <= i < headers.len() ==> !p.is_prefix_of((#[trigger] headers[i]).0) {
            assert forall|i: int| 0 <= i < rest.len() implies !p.is_prefix_of(
                (#[trigger] rest[i]).0,
            ) by {
                assert(rest[i] == headers[i + 1]);
            }
        }
    } else if headers.len() > 0 && 0 < k < headers.len() {
        assert(p.is_prefix_of(headers[0].0));
    }
}

/// What a download came to: its own numbers, the bytes that were received, and
/// each fact of the transfer in its place. A connection is new where it took more
/// than half a millisecond to come about.
pub proof fn download_tells_the_transfer(
    result: DownloadResult,
    params: DownloadParams,
    handler: DownloadHandler,
    report: TransferReport,
)
    requires
        is_result(result, params, handler, report),
    ensures
        result.request_id == params.request_id,
        result.total_bytes == handler.pages.bytes_received,
        result.timings == phases(report.times),
        result.connection_id == report.connection_id,
        result.new_connection <==> (report.times.connect_ns matches Some(ns) && ns > 500_000),
        handler.head.response_code matches Some(code) ==> result.response_code == code,
        handler.head.response_code is None ==> result.response_code == 0,
        report.effective_url matches Some(url) ==> result.effective_url_hash@
            == url_hash::url_digest(url@),
        report.effective_url is None ==> result.effective_url_hash@ == url_hash::url_digest(
            params.url@,
        ),
        result.remote_endpoint@ == transport::endpoint_text(report.remote_ip@, report.remote_port),
        result.local_endpoint@ == transport::endpoint_text(report.local_ip@, report.local_port),
        result.http_version@ == download_version(handler.head@.headers, report.http_version),
{
}

/// The last event of a download is that it has finished, without an error. The
/// event of a page stands before it where a page is there in part, and nowhere
/// else.
pub proof fn download_ends_with_its_result(
    handler: DownloadHandler,
    result: DownloadResult,
    timestamp_ns: u64,
)
    ensures
        ({
            let events = closing_events(handler, result, timestamp_ns);
            &&& events.last() matches TraceEventView::RequestFinished {
                request_id,
                total_bytes,
                timings,
                http_version,
                connection_id,
                new_connection,
                error_class,
                timestamp_ns: at,
            }
            &&& request_id == result.request_id
            &&& total_bytes == result.total_bytes
            &&& timings == result.timings
            &&& http_version == result.http_version@
            &&& connection_id == result.connection_id
            &&& new_connection == result.new_connection
            &&& error_class is None
            &&& at == timestamp_ns
            &&& handler.pages.current_page_bytes == 0 ==> events.len() == 1
            &&& handler.pages.current_page_bytes > 0 ==> events.len() == 2 && events[0]
                == handler.pages.partial_page(timestamp_ns)@
        }),
{
}

/// The event that a request starts holds what the request is for.
pub proof fn start_tells_the_request(params: DownloadParams, timestamp_ns: u64)
    ensures
        started_event(params, timestamp_ns) matches TraceEventView::RequestStarted {
            request_id,
            chunk_id,
            lane,
            attempt,
            requested_range,
            timestamp_ns: at,
        } && request_id == params.request_id && chunk_id == params.chunk_id && lane == params.lane
            && attempt == params.attempt && requested_range == transport::range_text(
            params.range_start,
            params.range_end,
        ) && at == timestamp_ns,
{
}

} // verus!
