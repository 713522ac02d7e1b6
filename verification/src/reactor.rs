//! Transfer reactor: the decisions of a loop that drives parallel range requests.
//!
//! The transfers themselves happen outside. The reactor says which requests to
//! start, takes note of their progress and of their ends, decides which chunks
//! to request again, and keeps the registry of connections. Times are
//! nanoseconds since the start of the run.

use crate::download;
use crate::download::TransferReport;
use crate::events;
use crate::events::{Lane, StallClass, TraceEvent, TraceEventView};
use crate::headers::ResponseHead;
use crate::outcome;
use crate::pages;
use crate::pages::PageCounter;
use crate::retry;
use crate::retry::{MAX_ATTEMPTS, NS_PER_MS};
use crate::seqs;
use crate::tracker::PAGE_SIZE;
use crate::transport;
use crate::transport::Sink;
use vstd::prelude::*;

verus! {

/// A request to which no page has come for longer than this is stalled.
pub const STALL_THRESHOLD_MS: u64 = 2_000;

/// Configuration of a reactor run.
#[derive(Debug, Clone, Copy, PartialEq, Eq)]
pub struct ReactorConfig {
    pub urgent_workers: u32,
    pub prefetch_workers: u32,
    pub page_size: u64,
    pub sink: Sink,
    pub stall_timeout_ms: u64,
    pub request_timeout_ms: u64,
    /// Once this much time has passed, no new chunks are started. Requests in
    /// flight complete normally. Zero means no limit.
    pub max_duration_ms: u64,
}

impl Default for ReactorConfig {
    fn default() -> (res: Self)
        ensures
            res == (ReactorConfig {
                urgent_workers: 2,
                prefetch_workers: 1,
                page_size: PAGE_SIZE,
                sink: Sink::Discard,
                stall_timeout_ms: STALL_THRESHOLD_MS,
                request_timeout_ms: 120_000,
                max_duration_ms: 120_000,
            }),
    {
        Self {
            urgent_workers: 2,
            prefetch_workers: 1,
            page_size: PAGE_SIZE,
            sink: Sink::Discard,
            stall_timeout_ms: STALL_THRESHOLD_MS,
            request_timeout_ms: 120_000,
            max_duration_ms: 120_000,
        }
    }
}

/// A chunk to be downloaded as a range request; both ends are part of it.
#[derive(Debug, Clone, Copy, PartialEq, Eq, Structural)]
pub struct ChunkRequest {
    pub chunk_id: u64,
    pub range_start: u64,
    pub range_end: u64,
    pub lane: Lane,
}

/// A chunk that waits to be requested.
#[derive(Debug, Clone, Copy, PartialEq, Eq, Structural)]
pub struct QueuedChunk {
    pub chunk: ChunkRequest,
    /// The number of the attempt that the request will be.
    pub attempt: u32,
    /// The time before which the chunk is not requested.
    pub ready_ns: u64,
    /// The chunk was requeued because it holds up the frontier.
    pub blocks_frontier: bool,
}

/// A request in flight.
#[derive(Debug, Clone, Copy, PartialEq, Eq, Structural)]
pub struct RequestState {
    pub token: usize,
    pub request_id: u64,
    pub chunk_id: u64,
    pub lane: Lane,
    pub attempt: u32,
    pub range_start: u64,
    pub range_end: u64,
    /// The bytes of the pages that were last seen to have arrived in full.
    pub page_bytes: u64,
    /// The time at which a page was last seen to have arrived.
    pub last_progress_ns: u64,
    pub stalled: bool,
}

/// What is known of a connection.
#[derive(Debug, Clone)]
pub struct ConnectionRecord {
    pub connection_id: i64,
    pub protocol: String,
    pub local_endpoint: String,
    pub remote_endpoint: String,
    pub first_use_ns: u64,
    pub last_use_ns: u64,
    pub requests_count: u32,
    pub bytes_total: u64,
}

/// A connection record with its texts as sequences of characters.
pub struct ConnectionView {
    pub connection_id: i64,
    pub protocol: Seq<char>,
    pub local_endpoint: Seq<char>,
    pub remote_endpoint: Seq<char>,
    pub first_use_ns: u64,
    pub last_use_ns: u64,
    pub requests_count: u32,
    pub bytes_total: u64,
}

impl View for ConnectionRecord {
    type V = ConnectionView;

    open spec fn view(&self) -> ConnectionView {
        ConnectionView {
            connection_id: self.connection_id,
            protocol: self.protocol@,
            local_endpoint: self.local_endpoint@,
            remote_endpoint: self.remote_endpoint@,
            first_use_ns: self.first_use_ns,
            last_use_ns: self.last_use_ns,
            requests_count: self.requests_count,
            bytes_total: self.bytes_total,
        }
    }
}

/// The views of a list of connection records.
pub open spec fn connection_views(records: Seq<ConnectionRecord>) -> Seq<ConnectionView> {
    records.map_values(|r: ConnectionRecord| r@)
}

// ---------------------------------------------------------------------------
// Handler
// ---------------------------------------------------------------------------

/// Takes in what arrives for one request.
#[derive(Debug, Clone)]
pub struct ReactorHandler {
    pub pages: PageCounter,
    pub head: ResponseHead,
}

impl ReactorHandler {
    /// A handler for the bytes from `range_start` on.
    pub fn new(request_id: u64, chunk_id: u64, range_start: u64, page_size: u64) -> (res: Self)
        requires
            page_size > 0,
        ensures
            res.pages.wf(),
            res.pages == (PageCounter {
                request_id,
                chunk_id,
                page_size,
                current_page_bytes: 0,
                current_page_index: range_start / page_size,
                bytes_received: 0,
            }),
            res.pages.position() <= range_start,
            res.head@.headers == Seq::<(Seq<char>, Seq<char>)>::empty(),
            res.head@.response_code is None,
    {
        Self {
            pages: PageCounter::new(request_id, chunk_id, range_start, page_size),
            head: ResponseHead::new(),
        }
    }

    /// Take in received bytes. All of them are consumed, and each page that
    /// they fill gives an event.
    pub fn write(&mut self, data: &[u8], timestamp_ns: u64) -> (res: (usize, Vec<TraceEvent>))
        requires
            old(self).pages.wf(),
            old(self).pages.position() + data@.len() <= u64::MAX,
        ensures
            res.0 == data@.len(),
            res.1@ == old(self).pages.events(data@.len() as int, timestamp_ns),
            final(self).pages.wf(),
            final(self).pages == old(self).pages.after(data@.len() as int),
            final(self).pages.position() == old(self).pages.position() + data@.len(),
            final(self).head == old(self).head,
    {
        let len: u64 = data.len() as u64;
        let events = self.pages.write(len, timestamp_ns);
        (data.len(), events)
    }

    /// Take in a header line. The transfer always goes on.
    pub fn header(&mut self, data: &[u8]) -> (res: bool)
        ensures
            res,
            final(self).head@ == old(self).head@.after_line(data@),
            final(self).pages == old(self).pages,
    {
        self.head.header(data)
    }
}

// ---------------------------------------------------------------------------
// The loop
// ---------------------------------------------------------------------------

/// The state of a reactor.
pub struct ReactorView {
    pub config: ReactorConfig,
    /// The number of chunks that the run began with.
    pub chunk_count: nat,
    /// The chunks that wait. The one at the end is next.
    pub queue: Seq<QueuedChunk>,
    /// The requests in flight, oldest first.
    pub active: Seq<RequestState>,
    pub connections: Seq<ConnectionView>,
    /// The number of requests started so far.
    pub started: nat,
    pub total_bytes: nat,
    /// The number of requests that have ended.
    pub total_requests: nat,
    pub retried_chunks: nat,
    pub failed_chunks: nat,
    /// The frontier that was last reported.
    pub frontier: u64,
}

/// The number of requests that may be in flight at a time.
pub open spec fn slots(config: ReactorConfig) -> int {
    config.urgent_workers + config.prefetch_workers
}

/// The attempts that a waiting chunk has left.
pub open spec fn attempts_queued(queue: Seq<QueuedChunk>) -> int {
    seqs::total(queue, |q: QueuedChunk| MAX_ATTEMPTS + 1 - q.attempt)
}

/// The attempts that the requests in flight have left after the current ones.
pub open spec fn attempts_active(active: Seq<RequestState>) -> int {
    seqs::total(active, |r: RequestState| MAX_ATTEMPTS - r.attempt)
}

/// The requests that went over the registered connections.
pub open spec fn requests_over(connections: Seq<ConnectionView>) -> int {
    seqs::total(connections, |c: ConnectionView| c.requests_count as int)
}

/// The bytes that went over the registered connections.
pub open spec fn bytes_over(connections: Seq<ConnectionView>) -> int {
    seqs::total(connections, |c: ConnectionView| c.bytes_total as int)
}

/// A chunk that can be requested.
pub open spec fn queued_ok(q: QueuedChunk) -> bool {
    &&& q.chunk.range_start <= q.chunk.range_end
    &&& 1 <= q.attempt <= MAX_ATTEMPTS
}

/// A request that can be in flight.
pub open spec fn active_ok(r: RequestState, started: nat) -> bool {
    &&& r.range_start <= r.range_end
    &&& 1 <= r.attempt <= MAX_ATTEMPTS
    &&& r.token < started
    &&& r.request_id == r.token + 1
}

impl ReactorView {
    /// What holds of every reactor: the requests in flight fit into the slots,
    /// tokens and request numbers are all different, each connection is
    /// registered once, the registry holds all the traffic, no chunk is lost,
    /// and no chunk is requested too often.
    pub open spec fn wf(self) -> bool {
        &&& self.active.len() <= slots(self.config) <= u32::MAX
        &&& forall|i: int| 0 <= i < self.queue.len() ==> queued_ok(#[trigger] self.queue[i])
        &&& forall|i: int|
            0 <= i < self.active.len() ==> active_ok(#[trigger] self.active[i], self.started)
        &&& forall|i: int, j: int|
            0 <= i < j < self.active.len() ==> (#[trigger] self.active[i]).token < (
            #[trigger] self.active[j]).token
        &&& forall|i: int, j: int|
            0 <= i < j < self.connections.len() ==> (#[trigger] self.connections[i]).connection_id
                != (#[trigger] self.connections[j]).connection_id
        &&& forall|i: int|
            0 <= i < self.connections.len() ==> (#[trigger] self.connections[i]).requests_count
                >= 1
        &&& requests_over(self.connections) == self.total_requests
        &&& bytes_over(self.connections) == self.total_bytes
        &&& self.total_bytes <= u64::MAX
        &&& self.started == self.total_requests + self.active.len()
        &&& self.retried_chunks + self.failed_chunks <= self.total_requests
        &&& self.queue.len() + self.active.len() + (self.total_requests - self.retried_chunks)
            == self.chunk_count
        &&& self.started + attempts_queued(self.queue) + attempts_active(self.active)
            <= MAX_ATTEMPTS * self.chunk_count
        &&& MAX_ATTEMPTS * self.chunk_count <= u32::MAX
    }

    /// The chunk that is requested next at a time: one that may be requested,
    /// before all others one that holds up the frontier.
    pub open spec fn next_index(self, now_ns: u64) -> Option<int> {
        match seqs::last_where(
            self.queue,
            |q: QueuedChunk| q.ready_ns <= now_ns && q.blocks_frontier,
        ) {
            Some(k) => Some(k),
            None => seqs::last_where(self.queue, |q: QueuedChunk| q.ready_ns <= now_ns),
        }
    }

    /// The request for the chunk at index `k` of the queue.
    pub open spec fn request_for(self, k: int, now_ns: u64) -> RequestState {
        let q = self.queue[k];
        RequestState {
            token: self.started as usize,
            request_id: (self.started + 1) as u64,
            chunk_id: q.chunk.chunk_id,
            lane: q.chunk.lane,
            attempt: q.attempt,
            range_start: q.chunk.range_start,
            range_end: q.chunk.range_end,
            page_bytes: 0,
            last_progress_ns: now_ns,
            stalled: false,
        }
    }

    /// The reactor after the chunk at index `k` of the queue has been requested.
    pub open spec fn requested(self, k: int, now_ns: u64) -> ReactorView {
        ReactorView {
            queue: self.queue.remove(k),
            active: self.active.push(self.request_for(k, now_ns)),
            started: self.started + 1,
            ..self
        }
    }

    /// The reactor after the free slots have been filled as far as there are
    /// chunks to request.
    pub open spec fn filled(self, now_ns: u64) -> ReactorView
        decreases slots(self.config) - self.active.len(),
    {
        if self.active.len() < slots(self.config) {
            match self.next_index(now_ns) {
                Some(k) => self.requested(k, now_ns).filled(now_ns),
                None => self,
            }
        } else {
            self
        }
    }

    /// The request in flight with a token.
    pub open spec fn active_index(self, token: usize) -> Option<int> {
        seqs::last_where(self.active, |r: RequestState| r.token == token)
    }

    /// The reactor after the request at index `k` has been seen to have
    /// `page_bytes` bytes in full pages.
    pub open spec fn noted(self, k: int, page_bytes: u64, now_ns: u64) -> ReactorView {
        ReactorView {
            active: self.active.update(
                k,
                progressed(self.active[k], page_bytes, now_ns, self.config.stall_timeout_ms),
            ),
            ..self
        }
    }

    /// The reactor after the end of the request at index `k`, which transferred
    /// `bytes` bytes over the connection `used`.
    pub open spec fn ended(
        self,
        k: int,
        bytes: u64,
        used: ConnectionUse,
        now_ns: u64,
    ) -> ReactorView {
        let state = self.active[k];
        let again = retry::requeued(state, bytes, self.frontier, now_ns);
        ReactorView {
            active: self.active.remove(k),
            queue: match again {
                Some(q) => self.queue.push(q),
                None => self.queue,
            },
            connections: registered(self.connections, used, bytes, now_ns),
            total_bytes: self.total_bytes + bytes as nat,
            total_requests: self.total_requests + 1,
            retried_chunks: self.retried_chunks + if again is Some {
                1nat
            } else {
                0nat
            },
            failed_chunks: self.failed_chunks + if again is None && retry::incomplete(state, bytes) {
                1nat
            } else {
                0nat
            },
            ..self
        }
    }
}

/// How a request used a connection.
pub struct ConnectionUse {
    pub connection_id: i64,
    pub protocol: Seq<char>,
    pub local_endpoint: Seq<char>,
    pub remote_endpoint: Seq<char>,
}

/// The registered connection with an identifier.
pub open spec fn connection_index(
    connections: Seq<ConnectionView>,
    connection_id: i64,
) -> Option<int> {
    seqs::last_where(connections, |c: ConnectionView| c.connection_id == connection_id)
}

/// The registry after one more request over a connection. What a connection
/// looked like at its first use stays.
pub open spec fn registered(
    connections: Seq<ConnectionView>,
    used: ConnectionUse,
    bytes: u64,
    now_ns: u64,
) -> Seq<ConnectionView> {
    match connection_index(connections, used.connection_id) {
        Some(k) => connections.update(
            k,
            ConnectionView {
                last_use_ns: now_ns,
                requests_count: (connections[k].requests_count + 1) as u32,
                bytes_total: (connections[k].bytes_total + bytes) as u64,
                ..connections[k]
            },
        ),
        None => connections.push(
            ConnectionView {
                connection_id: used.connection_id,
                protocol: used.protocol,
                local_endpoint: used.local_endpoint,
                remote_endpoint: used.remote_endpoint,
                first_use_ns: now_ns,
                last_use_ns: now_ns,
                requests_count: 1,
                bytes_total: bytes,
            },
        ),
    }
}

/// The reactor at the start of a run: the chunks wait in their order.
pub open spec fn initial(chunks: Seq<ChunkRequest>, config: ReactorConfig) -> ReactorView {
    ReactorView {
        config,
        chunk_count: chunks.len(),
        queue: Seq::new(
            chunks.len(),
            |i: int|
                QueuedChunk {
                    chunk: chunks[chunks.len() - 1 - i],
                    attempt: 1,
                    ready_ns: 0,
                    blocks_frontier: false,
                },
        ),
        active: Seq::empty(),
        connections: Seq::empty(),
        started: 0,
        total_bytes: 0,
        total_requests: 0,
        retried_chunks: 0,
        failed_chunks: 0,
        frontier: 0,
    }
}

proof fn lemma_initial_wf(chunks: Seq<ChunkRequest>, config: ReactorConfig)
    requires
        forall|i: int|
            0 <= i < chunks.len() ==> (#[trigger] chunks[i]).range_start <= chunks[i].range_end,
        MAX_ATTEMPTS * chunks.len() <= u32::MAX,
        slots(config) <= u32::MAX,
    ensures
        initial(chunks, config).wf(),
{
    let v = initial(chunks, config);
    let left = |q: QueuedChunk| MAX_ATTEMPTS + 1 - q.attempt;
    assert forall|i: int| 0 <= i < v.queue.len() implies queued_ok(#[trigger] v.queue[i]) by {
        assert(chunks[chunks.len() - 1 - i].range_start <= chunks[chunks.len() - 1 - i].range_end);
    }
    assert forall|i: int| 0 <= i < v.queue.len() implies left(#[trigger] v.queue[i])
        == MAX_ATTEMPTS by {}
    seqs::total_constant(v.queue, left, MAX_ATTEMPTS as int);
}

proof fn lemma_next_index(v: ReactorView, now_ns: u64)
    ensures
        v.next_index(now_ns) matches Some(k) ==> 0 <= k < v.queue.len()
            && v.queue[k].ready_ns <= now_ns,
{
    seqs::last_where_is_last(
        v.queue,
        |q: QueuedChunk| q.ready_ns <= now_ns && q.blocks_frontier,
    );
    seqs::last_where_is_last(v.queue, |q: QueuedChunk| q.ready_ns <= now_ns);
}

/// Requesting a chunk keeps the reactor in order.
proof fn lemma_requested_wf(v: ReactorView, k: int, now_ns: u64)
    requires
        v.wf(),
        0 <= k < v.queue.len(),
        v.active.len() < slots(v.config),
    ensures
        v.requested(k, now_ns).wf(),
        v.started < u32::MAX,
{
    let next = v.requested(k, now_ns);
    let state = v.request_for(k, now_ns);
    let left_queued = |q: QueuedChunk| MAX_ATTEMPTS + 1 - q.attempt;
    let left_active = |r: RequestState| MAX_ATTEMPTS - r.attempt;
    assert(queued_ok(v.queue[k]));
    assert forall|i: int| 0 <= i < v.queue.len() implies left_queued(#[trigger] v.queue[i])
        >= 0 by {
        assert(queued_ok(v.queue[i]));
    }
    assert forall|i: int| 0 <= i < v.active.len() implies left_active(#[trigger] v.active[i])
        >= 0 by {
        assert(active_ok(v.active[i], v.started));
    }
    seqs::total_bounds(v.queue, left_queued);
    seqs::total_bounds(v.active, left_active);
    assert(left_queued(v.queue[k]) >= 1);
    seqs::total_remove(v.queue, k, left_queued);
    seqs::total_push(v.active, state, left_active);
    assert forall|i: int| 0 <= i < next.queue.len() implies queued_ok(#[trigger] next.queue[i]) by {
        if i < k {
            assert(queued_ok(v.queue[i]));
        } else {
            assert(queued_ok(v.queue[i + 1]));
        }
    }
    assert forall|i: int| 0 <= i < next.active.len() implies active_ok(
        #[trigger] next.active[i],
        next.started,
    ) by {
        if i < v.active.len() {
            assert(active_ok(v.active[i], v.started));
        }
    }
    assert forall|i: int, j: int| 0 <= i < j < next.active.len() implies (
    #[trigger] next.active[i]).token < (#[trigger] next.active[j]).token by {
        if j == v.active.len() {
            assert(active_ok(v.active[i], v.started));
        }
    }
}

proof fn lemma_filled_wf(v: ReactorView, now_ns: u64)
    requires
        v.wf(),
    ensures
        v.filled(now_ns).wf(),
        v.active.is_prefix_of(v.filled(now_ns).active),
    decreases slots(v.config) - v.active.len(),
{
    if v.active.len() < slots(v.config) {
        if let Some(k) = v.next_index(now_ns) {
            lemma_next_index(v, now_ns);
            lemma_requested_wf(v, k, now_ns);
            lemma_filled_wf(v.requested(k, now_ns), now_ns);
        }
    }
}

proof fn lemma_registered(
    connections: Seq<ConnectionView>,
    used: ConnectionUse,
    bytes: u64,
    now_ns: u64,
)
    requires
        forall|i: int, j: int|
            0 <= i < j < connections.len() ==> (#[trigger] connections[i]).connection_id != (
            #[trigger] connections[j]).connection_id,
        forall|i: int|
            0 <= i < connections.len() ==> (#[trigger] connections[i]).requests_count >= 1,
        requests_over(connections) < u32::MAX,
        bytes_over(connections) + bytes <= u64::MAX,
    ensures
        ({
            let next = registered(connections, used, bytes, now_ns);
            &&& forall|i: int, j: int|
                0 <= i < j < next.len() ==> (#[trigger] next[i]).connection_id != (
                #[trigger] next[j]).connection_id
            &&& forall|i: int| 0 <= i < next.len() ==> (#[trigger] next[i]).requests_count >= 1
            &&& requests_over(next) == requests_over(connections) + 1
            &&& bytes_over(next) == bytes_over(connections) + bytes
        }),
        connection_index(connections, used.connection_id) matches Some(k) ==> {
            &&& 0 <= k < connections.len()
            &&& connections[k].requests_count < u32::MAX
            &&& connections[k].bytes_total + bytes <= u64::MAX
        },
{
    let requests = |c: ConnectionView| c.requests_count as int;
    let sent = |c: ConnectionView| c.bytes_total as int;
    let is_it = |c: ConnectionView| c.connection_id == used.connection_id;
    let next = registered(connections, used, bytes, now_ns);
    seqs::last_where_is_last(connections, is_it);
    seqs::total_bounds(connections, requests);
    seqs::total_bounds(connections, sent);
    match connection_index(connections, used.connection_id) {
        Some(k) => {
            assert(requests(connections[k]) <= requests_over(connections));
            assert(sent(connections[k]) <= bytes_over(connections));
            seqs::total_update(connections, k, next[k], requests);
            seqs::total_update(connections, k, next[k], sent);
        },
        None => {
            seqs::total_push(connections, next.last(), requests);
            seqs::total_push(connections, next.last(), sent);
            assert forall|i: int, j: int| 0 <= i < j < next.len() implies (
            #[trigger] next[i]).connection_id != (#[trigger] next[j]).connection_id by {
                if j == connections.len() {
                    assert(!is_it(connections[i]));
                }
            }
        },
    }
}

/// The end of a request keeps the reactor in order.
proof fn lemma_ended_wf(v: ReactorView, k: int, bytes: u64, used: ConnectionUse, now_ns: u64)
    requires
        v.wf(),
        0 <= k < v.active.len(),
        v.total_bytes + bytes <= u64::MAX,
    ensures
        v.ended(k, bytes, used, now_ns).wf(),
        v.total_requests < u32::MAX,
        requests_over(v.connections) < u32::MAX,
{
    let next = v.ended(k, bytes, used, now_ns);
    let state = v.active[k];
    let left_queued = |q: QueuedChunk| MAX_ATTEMPTS + 1 - q.attempt;
    let left_active = |r: RequestState| MAX_ATTEMPTS - r.attempt;
    assert(active_ok(state, v.started));
    assert forall|i: int| 0 <= i < v.queue.len() implies left_queued(#[trigger] v.queue[i])
        >= 0 by {
        assert(queued_ok(v.queue[i]));
    }
    assert forall|i: int| 0 <= i < v.active.len() implies left_active(#[trigger] v.active[i])
        >= 0 by {
        assert(active_ok(v.active[i], v.started));
    }
    seqs::total_bounds(v.queue, left_queued);
    seqs::total_bounds(v.active, left_active);
    lemma_registered(v.connections, used, bytes, now_ns);
    seqs::total_remove(v.active, k, left_active);
    retry::retry_asks_for_what_is_missing(state, bytes, v.frontier, now_ns);
    if let Some(q) = retry::requeued(state, bytes, v.frontier, now_ns) {
        seqs::total_push(v.queue, q, left_queued);
        assert(queued_ok(q));
    }
    assert forall|i: int| 0 <= i < next.queue.len() implies queued_ok(#[trigger] next.queue[i]) by {
        if i < v.queue.len() {
            assert(queued_ok(v.queue[i]));
        }
    }
    assert forall|i: int| 0 <= i < next.active.len() implies active_ok(
        #[trigger] next.active[i],
        next.started,
    ) by {
        if i < k {
            assert(active_ok(v.active[i], v.started));
        } else {
            assert(active_ok(v.active[i + 1], v.started));
        }
    }
    assert forall|i: int, j: int| 0 <= i < j < next.active.len() implies (
    #[trigger] next.active[i]).token < (#[trigger] next.active[j]).token by {
        let a = if i < k {
            i
        } else {
            i + 1
        };
        let b = if j < k {
            j
        } else {
            j + 1
        };
        assert(v.active[a].token < v.active[b].token);
    }
}

/// There are no more connections than requests.
proof fn lemma_few_connections(v: ReactorView)
    requires
        v.wf(),
    ensures
        v.connections.len() <= v.total_requests <= u32::MAX,
{
    let requests = |c: ConnectionView| c.requests_count as int;
    let left_queued = |q: QueuedChunk| MAX_ATTEMPTS + 1 - q.attempt;
    let left_active = |r: RequestState| MAX_ATTEMPTS - r.attempt;
    assert forall|i: int| 0 <= i < v.queue.len() implies left_queued(#[trigger] v.queue[i])
        >= 0 by {
        assert(queued_ok(v.queue[i]));
    }
    assert forall|i: int| 0 <= i < v.active.len() implies left_active(#[trigger] v.active[i])
        >= 0 by {
        assert(active_ok(v.active[i], v.started));
    }
    seqs::total_bounds(v.queue, left_queued);
    seqs::total_bounds(v.active, left_active);
    seqs::total_counts(v.connections, requests);
}

/// Taking note of progress keeps the reactor in order.
proof fn lemma_observed_wf(v: ReactorView, k: int, state: RequestState)
    requires
        v.wf(),
        0 <= k < v.active.len(),
        state.token == v.active[k].token,
        state.request_id == v.active[k].request_id,
        state.attempt == v.active[k].attempt,
        state.range_start == v.active[k].range_start,
        state.range_end == v.active[k].range_end,
    ensures
        (ReactorView { active: v.active.update(k, state), ..v }).wf(),
{
    let next = ReactorView { active: v.active.update(k, state), ..v };
    let left_active = |r: RequestState| MAX_ATTEMPTS - r.attempt;
    assert(active_ok(v.active[k], v.started));
    seqs::total_update(v.active, k, state, left_active);
    assert forall|i: int| 0 <= i < next.active.len() implies active_ok(
        #[trigger] next.active[i],
        next.started,
    ) by {
        assert(active_ok(v.active[i], v.started));
    }
    assert forall|i: int, j: int| 0 <= i < j < next.active.len() implies (
    #[trigger] next.active[i]).token < (#[trigger] next.active[j]).token by {
        assert(v.active[i].token < v.active[j].token);
    }
}

/// A request to start: its state, the range to ask for, and the event to record.
#[derive(Debug, Clone)]
pub struct StartedRequest {
    pub state: RequestState,
    pub range: String,
    pub event: TraceEvent,
}

/// The request is the one to start for a state.
pub open spec fn is_start(start: StartedRequest, state: RequestState, now_ns: u64) -> bool {
    &&& start.state == state
    &&& start.range@ == transport::range_text(state.range_start, state.range_end)
    &&& start.event@ == (TraceEventView::RequestStarted {
        request_id: state.request_id,
        chunk_id: state.chunk_id,
        lane: state.lane,
        attempt: state.attempt,
        requested_range: transport::range_text(state.range_start, state.range_end),
        timestamp_ns: now_ns,
    })
}

/// A request after its handler has been seen to have `page_bytes` bytes in full
/// pages. A page that arrives restarts the clock; without one the request stalls
/// once the time is up, even where single bytes still come in.
pub open spec fn progressed(
    state: RequestState,
    page_bytes: u64,
    now_ns: u64,
    stall_timeout_ms: u64,
) -> RequestState {
    if page_bytes > state.page_bytes {
        RequestState { page_bytes, last_progress_ns: now_ns, ..state }
    } else if stalls(state, page_bytes, now_ns, stall_timeout_ms) {
        RequestState { stalled: true, ..state }
    } else {
        state
    }
}

/// A request that has not stalled yet stalls now.
pub open spec fn stalls(
    state: RequestState,
    page_bytes: u64,
    now_ns: u64,
    stall_timeout_ms: u64,
) -> bool {
    &&& page_bytes <= state.page_bytes
    &&& !state.stalled
    &&& now_ns - state.last_progress_ns > stall_timeout_ms * NS_PER_MS
}

/// The time limit of a run is reached.
pub open spec fn expired(config: ReactorConfig, now_ns: u64) -> bool {
    config.max_duration_ms > 0 && now_ns >= config.max_duration_ms * NS_PER_MS
}

/// How a request used its connection.
pub open spec fn connection_used(handler: ReactorHandler, report: TransferReport) -> ConnectionUse {
    ConnectionUse {
        connection_id: report.connection_id,
        protocol: outcome::protocol_text(
            download::phases(report.times),
            outcome::version_of(handler.head@, report.http_version),
        ),
        local_endpoint: transport::endpoint_text(report.local_ip@, report.local_port),
        remote_endpoint: transport::endpoint_text(report.remote_ip@, report.remote_port),
    }
}

/// The events at the end of a request: the page that is not full, the end
/// itself, the facts of the connection, and the resumption of an urgent request
/// that stalled.
pub open spec fn ending_events(
    state: RequestState,
    handler: ReactorHandler,
    report: TransferReport,
    error: Option<Seq<char>>,
    frontier: u64,
    now_ns: u64,
) -> Seq<TraceEventView> {
    let pages = PageCounter {
        request_id: state.request_id,
        chunk_id: state.chunk_id,
        ..handler.pages
    };
    let bytes = pages.bytes_received;
    let timings = download::phases(report.times);
    let new_connection = timings.connect_ns > download::NEW_CONNECTION_NS;
    let used = connection_used(handler, report);
    let last_page = if pages.current_page_bytes > 0 {
        seq![pages.partial_page(now_ns)@]
    } else {
        Seq::empty()
    };
    let end = seq![
        TraceEventView::RequestFinished {
            request_id: state.request_id,
            total_bytes: bytes,
            timings,
            http_version: outcome::version_of(handler.head@, report.http_version),
            connection_id: report.connection_id,
            new_connection,
            error_class: outcome::error_of(error, bytes, handler.head.response_code),
            timestamp_ns: now_ns,
        },
        TraceEventView::RequestPrereq {
            request_id: state.request_id,
            connection_id: report.connection_id,
            new_connection,
            local_endpoint: used.local_endpoint,
            remote_endpoint: used.remote_endpoint,
            protocol: used.protocol,
            timestamp_ns: now_ns,
        },
    ];
    let resumed = match retry::requeued(state, bytes, frontier, now_ns) {
        Some(q) => if state.stalled && state.lane == Lane::Urgent {
            seq![
                TraceEventView::RequestResumed {
                    request_id: state.request_id,
                    suffix_range: transport::range_text(q.chunk.range_start, q.chunk.range_end),
                    attempt: q.attempt,
                    timestamp_ns: now_ns,
                },
            ]
        } else {
            Seq::empty()
        },
        None => Seq::empty(),
    };
    last_page + end + resumed
}

/// Result of a reactor run.
#[derive(Debug, Clone)]
pub struct ReactorResult {
    pub total_bytes: u64,
    pub total_requests: u32,
    pub total_connections: u32,
    pub duration_ns: u64,
    pub connections: Vec<ConnectionRecord>,
    /// How often a chunk was requested again.
    pub retried_chunks: u32,
    /// How many chunks were given up.
    pub failed_chunks: u32,
}

/// The events at the end of a run: the life of each connection.
pub open spec fn lifecycle(c: ConnectionView) -> TraceEventView {
    TraceEventView::ConnectionLifecycle {
        connection_id: c.connection_id,
        protocol: c.protocol,
        local_endpoint: c.local_endpoint,
        remote_endpoint: c.remote_endpoint,
        requests_count: c.requests_count,
        bytes_total: c.bytes_total,
        first_use_ns: c.first_use_ns,
        last_use_ns: c.last_use_ns,
    }
}

/// The decisions of a reactor run.
pub struct Reactor {
    config: ReactorConfig,
    chunk_count: usize,
    queue: Vec<QueuedChunk>,
    active: Vec<RequestState>,
    connections: Vec<ConnectionRecord>,
    started: u32,
    total_bytes: u64,
    total_requests: u32,
    retried_chunks: u32,
    failed_chunks: u32,
    frontier: u64,
}

impl View for Reactor {
    type V = ReactorView;

    closed spec fn view(&self) -> ReactorView {
        ReactorView {
            config: self.config,
            chunk_count: self.chunk_count as nat,
            queue: self.queue@,
            active: self.active@,
            connections: connection_views(self.connections@),
            started: self.started as nat,
            total_bytes: self.total_bytes as nat,
            total_requests: self.total_requests as nat,
            retried_chunks: self.retried_chunks as nat,
            failed_chunks: self.failed_chunks as nat,
            frontier: self.frontier,
        }
    }
}

impl Reactor {
    /// A reactor for a list of chunks.
    pub fn new(chunks: &[ChunkRequest], config: ReactorConfig) -> (res: Self)
        requires
            forall|i: int|
                0 <= i < chunks@.len() ==> (#[trigger] chunks@[i]).range_start
                    <= chunks@[i].range_end,
            MAX_ATTEMPTS * chunks@.len() <= u32::MAX,
            slots(config) <= u32::MAX,
        ensures
            res@ == initial(chunks@, config),
            res@.wf(),
    {
        let mut queue: Vec<QueuedChunk> = Vec::new();
        let mut i: usize = chunks.len();
        while i > 0
            invariant
                i <= chunks@.len(),
                queue@.len() == chunks@.len() - i,
                forall|j: int|
                    0 <= j < queue@.len() ==> queue@[j] == initial(chunks@, config).queue[j],
            decreases i,
        {
            i -= 1;
            queue.push(
                QueuedChunk {
                    chunk: chunks[i],
                    attempt: 1,
                    ready_ns: 0,
                    blocks_frontier: false,
                },
            );
        }
        let res = Self {
            config,
            chunk_count: chunks.len(),
            queue,
            active: Vec::new(),
            connections: Vec::new(),
            started: 0,
            total_bytes: 0,
            total_requests: 0,
            retried_chunks: 0,
            failed_chunks: 0,
            frontier: 0,
        };
        proof {
            assert(res@.queue =~= initial(chunks@, config).queue);
            assert(res@.connections =~= Seq::empty());
            lemma_initial_wf(chunks@, config);
        }
        res
    }

    /// Whether the time limit of the run is reached.
    pub fn time_expired(&self, now_ns: u64) -> (res: bool)
        ensures
            res == expired(self@.config, now_ns),
            res <==> self@.config.max_duration_ms > 0 && now_ns >= self@.config.max_duration_ms
                * 1_000_000,
    {
        self.config.max_duration_ms > 0 && now_ns as u128 >= self.config.max_duration_ms as u128
            * 1_000_000
    }

    /// Whether nothing is left to do: nothing is in flight, and nothing waits or
    /// the time is up.
    pub fn is_finished(&self, time_expired: bool) -> (res: bool)
        ensures
            res == (self@.active.len() == 0 && (self@.queue.len() == 0 || time_expired)),
    {
        self.active.len() == 0 && (self.queue.len() == 0 || time_expired)
    }

    /// The requests in flight, oldest first.
    pub fn active_requests(&self) -> (res: &[RequestState])
        ensures
            res@ == self@.active,
    {
        self.active.as_slice()
    }

    /// The bytes of all requests that have ended.
    pub fn total_bytes(&self) -> (res: u64)
        ensures
            res == self@.total_bytes,
    {
        self.total_bytes
    }

    /// Take note of the frontier.
    pub fn on_frontier(&mut self, frontier: u64)
        requires
            old(self)@.wf(),
        ensures
            final(self)@ == (ReactorView { frontier, ..old(self)@ }),
            final(self)@.wf(),
    {
        self.frontier = frontier;
    }

    /// The chunk that is requested next.
    fn find_next(&self, now_ns: u64) -> (res: Option<usize>)
        ensures
            match res {
                Some(k) => self@.next_index(now_ns) == Some(k as int),
                None => self@.next_index(now_ns) is None,
            },
    {
        let ghost first = |q: QueuedChunk| q.ready_ns <= now_ns && q.blocks_frontier;
        let ghost any = |q: QueuedChunk| q.ready_ns <= now_ns;
        let mut k: usize = self.queue.len();
        while k > 0
            invariant
                first == (|q: QueuedChunk| q.ready_ns <= now_ns && q.blocks_frontier),
                k <= self.queue@.len(),
                forall|j: int| k <= j < self.queue@.len() ==> !first(#[trigger] self.queue@[j]),
            decreases k,
        {
            k -= 1;
            if self.queue[k].ready_ns <= now_ns && self.queue[k].blocks_frontier {
                proof {
                    seqs::last_where_found(self.queue@, first, k as int);
                }
                return Some(k);
            }
        }
        proof {
            seqs::last_where_missing(self.queue@, first);
        }
        let mut k: usize = self.queue.len();
        while k > 0
            invariant
                first == (|q: QueuedChunk| q.ready_ns <= now_ns && q.blocks_frontier),
                seqs::last_where(self.queue@, first) is None,
                any == (|q: QueuedChunk| q.ready_ns <= now_ns),
                k <= self.queue@.len(),
                forall|j: int| k <= j < self.queue@.len() ==> !any(#[trigger] self.queue@[j]),
            decreases k,
        {
            k -= 1;
            if self.queue[k].ready_ns <= now_ns {
                proof {
                    seqs::last_where_found(self.queue@, any, k as int);
                }
                return Some(k);
            }
        }
        proof {
            seqs::last_where_missing(self.queue@, any);
        }
        None
    }

    /// Fill the free slots with the chunks that wait, unless the time is up.
    /// What comes back is to be started, in this order.
    pub fn fill_slots(&mut self, now_ns: u64, time_expired: bool) -> (res: Vec<StartedRequest>)
        requires
            old(self)@.wf(),
        ensures
            final(self)@.wf(),
            final(self)@ == if time_expired {
                old(self)@
            } else {
                old(self)@.filled(now_ns)
            },
            old(self)@.active.is_prefix_of(final(self)@.active),
            res@.len() == final(self)@.active.len() - old(self)@.active.len(),
            forall|i: int|
                0 <= i < res@.len() ==> is_start(
                    #[trigger] res@[i],
                    final(self)@.active[old(self)@.active.len() + i],
                    now_ns,
                ),
    {
        let mut starts: Vec<StartedRequest> = Vec::new();
        if time_expired {
            return starts;
        }
        let ghost goal = self@.filled(now_ns);
        let ghost before = self@.active;
        proof {
            lemma_filled_wf(self@, now_ns);
        }
        let max_concurrent: usize = (self.config.urgent_workers + self.config.prefetch_workers)
            as usize;
        while self.active.len() < max_concurrent
            invariant_except_break
                true,
            invariant
                self@.wf(),
                max_concurrent == slots(self@.config),
                self@.filled(now_ns) == goal,
                before.is_prefix_of(self@.active),
                starts@.len() == self@.active.len() - before.len(),
                forall|i: int|
                    0 <= i < starts@.len() ==> is_start(
                        #[trigger] starts@[i],
                        self@.active[before.len() + i],
                        now_ns,
                    ),
            ensures
                self@ == goal,
            decreases max_concurrent - self.active@.len(),
        {
            let ghost v = self@;
            let k = match self.find_next(now_ns) {
                Some(k) => k,
                None => {
                    break;
                },
            };
            proof {
                lemma_next_index(v, now_ns);
                lemma_requested_wf(v, k as int, now_ns);
            }
            let queued = self.queue.remove(k);
            let state = RequestState {
                token: self.started as usize,
                request_id: self.started as u64 + 1,
                chunk_id: queued.chunk.chunk_id,
                lane: queued.chunk.lane,
                attempt: queued.attempt,
                range_start: queued.chunk.range_start,
                range_end: queued.chunk.range_end,
                page_bytes: 0,
                last_progress_ns: now_ns,
                stalled: false,
            };
            self.started = self.started + 1;
            self.active.push(state);
            assert(self@ == v.requested(k as int, now_ns));
            let range = transport::byte_range(state.range_start, state.range_end);
            let event = TraceEvent::RequestStarted {
                request_id: state.request_id,
                chunk_id: state.chunk_id,
                lane: state.lane,
                attempt: state.attempt,
                requested_range: range.clone(),
                timestamp_ns: now_ns,
            };
            starts.push(StartedRequest { state, range, event });
        }
        starts
    }

    /// The index of the request with a token.
    fn find_active(&self, token: usize) -> (res: Option<usize>)
        ensures
            match res {
                Some(k) => k < self.active@.len() && self@.active_index(token) == Some(k as int),
                None => self@.active_index(token) is None,
            },
    {
        let ghost is_it = |r: RequestState| r.token == token;
        let mut k: usize = self.active.len();
        while k > 0
            invariant
                is_it == (|r: RequestState| r.token == token),
                k <= self.active@.len(),
                forall|j: int| k <= j < self.active@.len() ==> !is_it(#[trigger] self.active@[j]),
            decreases k,
        {
            k -= 1;
            if self.active[k].token == token {
                proof {
                    seqs::last_where_found(self.active@, is_it, k as int);
                }
                return Some(k);
            }
        }
        proof {
            seqs::last_where_missing(self.active@, is_it);
        }
        None
    }

    /// Take note of the pages that a request has received so far. A request to
    /// which no page comes for too long stalls, once.
    pub fn observe(&mut self, token: usize, pages: &PageCounter, now_ns: u64) -> (res: Option<
        TraceEvent,
    >)
        requires
            old(self)@.wf(),
            pages.wf(),
        ensures
            final(self)@.wf(),
            match old(self)@.active_index(token) {
                Some(k) => {
                    let state = old(self)@.active[k];
                    let timeout = old(self)@.config.stall_timeout_ms;
                    let page_bytes = pages.arrived() as u64;
                    &&& final(self)@ == old(self)@.noted(k, page_bytes, now_ns)
                    &&& res == if stalls(state, page_bytes, now_ns, timeout) {
                        Some(
                            TraceEvent::RequestStalled {
                                request_id: state.request_id,
                                stall_class: StallClass::MidstreamNoProgress,
                                no_progress_duration_ms: timeout,
                                timestamp_ns: now_ns,
                            },
                        )
                    } else {
                        None
                    }
                },
                None => final(self)@ == old(self)@ && res is None,
            },
    {
        let ghost v = self@;
        let k = match self.find_active(token) {
            Some(k) => k,
            None => {
                return None;
            },
        };
        let mut state = self.active[k];
        let mut event: Option<TraceEvent> = None;
        let waited: u64 = now_ns.saturating_sub(state.last_progress_ns);
        let page_bytes: u64 = pages.full_page_bytes();
        if page_bytes > state.page_bytes {
            state.page_bytes = page_bytes;
            state.last_progress_ns = now_ns;
        } else if !state.stalled && waited as u128 > self.config.stall_timeout_ms as u128
            * 1_000_000 {
            state.stalled = true;
            event = Some(
                TraceEvent::RequestStalled {
                    request_id: state.request_id,
                    stall_class: StallClass::MidstreamNoProgress,
                    no_progress_duration_ms: self.config.stall_timeout_ms,
                    timestamp_ns: now_ns,
                },
            );
        }
        self.active.set(k, state);
        proof {
            lemma_observed_wf(v, k as int, state);
            assert(self@ == (ReactorView { active: v.active.update(k as int, state), ..v }));
        }
        event
    }

    /// The index of the registered connection with an identifier.
    fn find_connection(&self, connection_id: i64) -> (res: Option<usize>)
        ensures
            match res {
                Some(k) => k < self.connections@.len() && connection_index(
                    self@.connections,
                    connection_id,
                ) == Some(k as int),
                None => connection_index(self@.connections, connection_id) is None,
            },
    {
        let ghost all = self@.connections;
        let ghost is_it = |c: ConnectionView| c.connection_id == connection_id;
        let mut k: usize = self.connections.len();
        while k > 0
            invariant
                all == connection_views(self.connections@),
                is_it == (|c: ConnectionView| c.connection_id == connection_id),
                k <= self.connections@.len(),
                forall|j: int| k <= j < all.len() ==> !is_it(#[trigger] all[j]),
            decreases k,
        {
            k -= 1;
            assert(all[k as int] == self.connections@[k as int]@);
            if self.connections[k].connection_id == connection_id {
                proof {
                    seqs::last_where_found(all, is_it, k as int);
                }
                return Some(k);
            }
        }
        proof {
            seqs::last_where_missing(all, is_it);
        }
        None
    }

    /// Register one more request over a connection.
    fn register(
        &mut self,
        connection_id: i64,
        protocol: String,
        local_endpoint: String,
        remote_endpoint: String,
        bytes: u64,
        now_ns: u64,
    )
        requires
            connection_index(old(self)@.connections, connection_id) matches Some(k) ==> {
                &&& old(self)@.connections[k].requests_count < u32::MAX
                &&& old(self)@.connections[k].bytes_total + bytes <= u64::MAX
            },
        ensures
            final(self)@ == (ReactorView {
                connections: registered(
                    old(self)@.connections,
                    ConnectionUse {
                        connection_id,
                        protocol: protocol@,
                        local_endpoint: local_endpoint@,
                        remote_endpoint: remote_endpoint@,
                    },
                    bytes,
                    now_ns,
                ),
                ..old(self)@
            }),
    {
        let ghost all = self@.connections;
        match self.find_connection(connection_id) {
            Some(k) => {
                let mut record = self.connections.remove(k);
                assert(all[k as int] == record@);
                record.last_use_ns = now_ns;
                record.requests_count = record.requests_count + 1;
                record.bytes_total = record.bytes_total + bytes;
                let ghost changed = record@;
                self.connections.insert(k, record);
                assert(self@.connections =~= all.update(k as int, changed));
            },
            None => {
                let record = ConnectionRecord {
                    connection_id,
                    protocol,
                    local_endpoint,
                    remote_endpoint,
                    first_use_ns: now_ns,
                    last_use_ns: now_ns,
                    requests_count: 1,
                    bytes_total: bytes,
                };
                let ghost added = record@;
                self.connections.push(record);
                assert(self@.connections =~= all.push(added));
            },
        }
    }

    /// Take note of the end of a request: what its handler took in, what the
    /// transfer reports, and the description of its failure if it failed. A
    /// token that is not in flight is passed over.
    pub fn on_completed(
        &mut self,
        token: usize,
        handler: &ReactorHandler,
        report: &TransferReport,
        error: Option<&str>,
        now_ns: u64,
    ) -> (res: Vec<TraceEvent>)
        requires
            old(self)@.wf(),
            handler.pages.position() <= u64::MAX,
            old(self)@.total_bytes + handler.pages.bytes_received <= u64::MAX,
        ensures
            final(self)@.wf(),
            match old(self)@.active_index(token) {
                Some(k) => {
                    &&& final(self)@ == old(self)@.ended(
                        k,
                        handler.pages.bytes_received,
                        connection_used(*handler, *report),
                        now_ns,
                    )
                    &&& events::event_views(res@) == ending_events(
                        old(self)@.active[k],
                        *handler,
                        *report,
                        match error {
                            Some(desc) => Some(desc@),
                            None => None,
                        },
                        old(self)@.frontier,
                        now_ns,
                    )
                },
                None => final(self)@ == old(self)@ && res@.len() == 0,
            },
    {
        let mut trace: Vec<TraceEvent> = Vec::new();
        let ghost v = self@;
        let k = match self.find_active(token) {
            Some(k) => k,
            None => {
                return trace;
            },
        };
        let bytes = handler.pages.bytes_received;
        let ghost used = connection_used(*handler, *report);
        proof {
            seqs::last_where_is_last(v.active, |r: RequestState| r.token == token);
            lemma_ended_wf(v, k as int, bytes, used, now_ns);
            lemma_registered(v.connections, used, bytes, now_ns);
            assert(active_ok(v.active[k as int], v.started));
        }
        let state = self.active.remove(k);
        let pages = PageCounter {
            request_id: state.request_id,
            chunk_id: state.chunk_id,
            ..handler.pages
        };
        if let Some(page) = pages.flush(now_ns) {
            trace.push(page);
        }
        let timings = download::transfer_timings(&report.times);
        let new_connection = timings.connect_ns > download::NEW_CONNECTION_NS;
        let remote_endpoint = transport::endpoint(report.remote_ip.as_str(), report.remote_port);
        let local_endpoint = transport::endpoint(report.local_ip.as_str(), report.local_port);
        let error_class = outcome::classify_error(error, bytes, handler.head.response_code);
        let http_version = outcome::request_http_version(&handler.head, report.http_version);
        let protocol = outcome::connection_protocol(&timings, http_version.as_str());
        trace.push(
            TraceEvent::RequestFinished {
                request_id: state.request_id,
                total_bytes: bytes,
                timings,
                http_version,
                connection_id: report.connection_id,
                new_connection,
                error_class,
                timestamp_ns: now_ns,
            },
        );
        trace.push(
            TraceEvent::RequestPrereq {
                request_id: state.request_id,
                connection_id: report.connection_id,
                new_connection,
                local_endpoint: local_endpoint.clone(),
                remote_endpoint: remote_endpoint.clone(),
                protocol: protocol.clone(),
                timestamp_ns: now_ns,
            },
        );
        self.total_requests = self.total_requests + 1;
        self.total_bytes = self.total_bytes + bytes;
        self.register(
            report.connection_id,
            protocol,
            local_endpoint,
            remote_endpoint,
            bytes,
            now_ns,
        );
        match retry::chunk_to_requeue(&state, bytes, self.frontier, now_ns) {
            Some(again) => {
                if state.stalled && state.lane == Lane::Urgent {
                    trace.push(
                        TraceEvent::RequestResumed {
                            request_id: state.request_id,
                            suffix_range: transport::byte_range(
                                again.chunk.range_start,
                                again.chunk.range_end,
                            ),
                            attempt: again.attempt,
                            timestamp_ns: now_ns,
                        },
                    );
                }
                self.retried_chunks = self.retried_chunks + 1;
                self.queue.push(again);
            },
            None => {
                if bytes <= state.range_end - state.range_start {
                    self.failed_chunks = self.failed_chunks + 1;
                }
            },
        }
        proof {
            let goal = v.ended(k as int, bytes, used, now_ns);
            assert(self@.queue =~= goal.queue);
            assert(self@ == goal);
            let desc = match error {
                Some(desc) => Some(desc@),
                None => None,
            };
            assert(events::event_views(trace@) =~= ending_events(
                state,
                *handler,
                *report,
                desc,
                v.frontier,
                now_ns,
            ));
        }
        trace
    }

    /// The end of the run: the lives of the connections, and the result.
    pub fn finish(self, duration_ns: u64) -> (res: (Vec<TraceEvent>, ReactorResult))
        requires
            self@.wf(),
        ensures
            events::event_views(res.0@) == self@.connections.map_values(
                |c: ConnectionView| lifecycle(c),
            ),
            res.1.total_bytes == self@.total_bytes,
            res.1.total_requests == self@.total_requests,
            res.1.total_connections == self@.connections.len(),
            res.1.duration_ns == duration_ns,
            connection_views(res.1.connections@) == self@.connections,
            res.1.retried_chunks == self@.retried_chunks,
            res.1.failed_chunks == self@.failed_chunks,
    {
        proof {
            lemma_few_connections(self@);
        }
        let mut trace: Vec<TraceEvent> = Vec::new();
        let ghost lives = self@.connections.map_values(|c: ConnectionView| lifecycle(c));
        let mut i: usize = 0;
        while i < self.connections.len()
            invariant
                lives == connection_views(self.connections@).map_values(
                    |c: ConnectionView| lifecycle(c),
                ),
                i <= self.connections@.len(),
                events::event_views(trace@) == lives.take(i as int),
            decreases self.connections@.len() - i,
        {
            let record = &self.connections[i];
            let ghost before = events::event_views(trace@);
            let event = TraceEvent::ConnectionLifecycle {
                connection_id: record.connection_id,
                protocol: record.protocol.clone(),
                local_endpoint: record.local_endpoint.clone(),
                remote_endpoint: record.remote_endpoint.clone(),
                requests_count: record.requests_count,
                bytes_total: record.bytes_total,
                first_use_ns: record.first_use_ns,
                last_use_ns: record.last_use_ns,
            };
            assert(event@ == lives[i as int]);
            trace.push(event);
            assert(events::event_views(trace@) =~= before.push(event@));
            assert(lives.take(i + 1) =~= before.push(event@));
            i += 1;
        }
        assert(lives.take(i as int) =~= lives);
        let total_connections: u32 = self.connections.len() as u32;
        let result = ReactorResult {
            total_bytes: self.total_bytes,
            total_requests: self.total_requests,
            total_connections,
            duration_ns,
            connections: self.connections,
            retried_chunks: self.retried_chunks,
            failed_chunks: self.failed_chunks,
        };
        (trace, result)
    }
}

// ---------------------------------------------------------------------------
// What holds of every run
// ---------------------------------------------------------------------------

/// A run ends: however its transfers go, no more requests are started than ten
/// for each chunk.
pub proof fn requests_are_bounded(reactor: &Reactor)
    requires
        reactor@.wf(),
    ensures
        reactor@.started <= MAX_ATTEMPTS * reactor@.chunk_count,
        reactor@.active.len() <= slots(reactor@.config),
{
    let v = reactor@;
    let left_queued = |q: QueuedChunk| MAX_ATTEMPTS + 1 - q.attempt;
    let left_active = |r: RequestState| MAX_ATTEMPTS - r.attempt;
    assert forall|i: int| 0 <= i < v.queue.len() implies left_queued(#[trigger] v.queue[i])
        >= 0 by {
        assert(queued_ok(v.queue[i]));
    }
    assert forall|i: int| 0 <= i < v.active.len() implies left_active(#[trigger] v.active[i])
        >= 0 by {
        assert(active_ok(v.active[i], v.started));
    }
    seqs::total_bounds(v.queue, left_queued);
    seqs::total_bounds(v.active, left_active);
}

/// The counts of a run add up: the chunks that wait, those in flight, those given
/// up and those there in full are together as many as the run began with.
pub proof fn chunk_counts_add_up(reactor: &Reactor)
    requires
        reactor@.wf(),
    ensures
        ({
            let v = reactor@;
            let complete = v.total_requests - v.retried_chunks - v.failed_chunks;
            &&& complete >= 0
            &&& v.queue.len() + v.active.len() + v.failed_chunks + complete == v.chunk_count
        }),
{
}

/// The registry of connections holds every request that has ended and every
/// byte that it brought, and each connection once.
pub proof fn registry_holds_all_traffic(reactor: &Reactor)
    requires
        reactor@.wf(),
    ensures
        requests_over(reactor@.connections) == reactor@.total_requests,
        bytes_over(reactor@.connections) == reactor@.total_bytes,
        forall|i: int, j: int|
            0 <= i < j < reactor@.connections.len() ==> (
            #[trigger] reactor@.connections[i]).connection_id != (
            #[trigger] reactor@.connections[j]).connection_id,
{
}

/// Requests in flight at the same time have different tokens and numbers.
pub proof fn tokens_are_unique(reactor: &Reactor, i: int, j: int)
    requires
        reactor@.wf(),
        0 <= i < j < reactor@.active.len(),
    ensures
        reactor@.active[i].token != reactor@.active[j].token,
        reactor@.active[i].request_id != reactor@.active[j].request_id,
{
    assert(active_ok(reactor@.active[i], reactor@.started));
    assert(active_ok(reactor@.active[j], reactor@.started));
}

/// The chunks of a run are requested in their order: at the start the first one
/// is next.
pub proof fn first_chunk_goes_first(
    chunks: Seq<ChunkRequest>,
    config: ReactorConfig,
    now_ns: u64,
)
    requires
        chunks.len() > 0,
    ensures
        initial(chunks, config).next_index(now_ns) == Some(chunks.len() - 1),
        initial(chunks, config).queue[chunks.len() - 1].chunk == chunks[0],
{
    let v = initial(chunks, config);
    seqs::last_where_missing(
        v.queue,
        |q: QueuedChunk| q.ready_ns <= now_ns && q.blocks_frontier,
    );
    seqs::last_where_found(v.queue, |q: QueuedChunk| q.ready_ns <= now_ns, chunks.len() - 1);
}

/// What happens to a reactor in a run.
pub enum ReactorStep {
    /// The free slots are filled, unless the time is up.
    Fill { now_ns: u64, time_expired: bool },
    /// A request is seen to have received some bytes in full pages.
    Observe { token: usize, page_bytes: u64, now_ns: u64 },
    /// The frontier moves.
    Frontier { frontier: u64 },
    /// A request ends.
    End { token: usize, bytes: u64, used: ConnectionUse, now_ns: u64 },
}

impl ReactorView {
    /// The reactor after a step.
    pub open spec fn stepped(self, step: ReactorStep) -> ReactorView {
        match step {
            ReactorStep::Fill { now_ns, time_expired } => if time_expired {
                self
            } else {
                self.filled(now_ns)
            },
            ReactorStep::Observe { token, page_bytes, now_ns } => match self.active_index(token) {
                Some(k) => self.noted(k, page_bytes, now_ns),
                None => self,
            },
            ReactorStep::Frontier { frontier } => ReactorView { frontier, ..self },
            ReactorStep::End { token, bytes, used, now_ns } => match self.active_index(token) {
                Some(k) => self.ended(k, bytes, used, now_ns),
                None => self,
            },
        }
    }

    /// The requests that a step starts, in their order.
    pub open spec fn starts(self, step: ReactorStep) -> Seq<RequestState> {
        if step is Fill {
            self.stepped(step).active.skip(self.active.len() as int)
        } else {
            Seq::empty()
        }
    }

    /// The reactor after some steps.
    pub open spec fn after_steps(self, steps: Seq<ReactorStep>) -> ReactorView
        decreases steps.len(),
    {
        if steps.len() == 0 {
            self
        } else {
            self.after_steps(steps.drop_last()).stepped(steps.last())
        }
    }

    /// The requests that some steps start, in their order.
    pub open spec fn all_starts(self, steps: Seq<ReactorStep>) -> Seq<RequestState>
        decreases steps.len(),
    {
        if steps.len() == 0 {
            Seq::empty()
        } else {
            self.all_starts(steps.drop_last()) + self.after_steps(steps.drop_last()).starts(
                steps.last(),
            )
        }
    }
}

/// The request is the first one for the chunk at index `k`, and carries the
/// number `k + 1`.
pub open spec fn is_first_request(
    state: RequestState,
    chunks: Seq<ChunkRequest>,
    k: int,
) -> bool {
    &&& state.token == k
    &&& state.request_id == k + 1
    &&& state.chunk_id == chunks[k].chunk_id
    &&& state.lane == chunks[k].lane
    &&& state.attempt == 1
    &&& state.range_start == chunks[k].range_start
    &&& state.range_end == chunks[k].range_end
}

/// Nothing has been requested again: the chunks that wait are those at the end,
/// and each request in flight is the first one for its chunk.
spec fn in_order(v: ReactorView, chunks: Seq<ChunkRequest>, config: ReactorConfig) -> bool {
    &&& v.config == config
    &&& v.started <= chunks.len()
    &&& v.queue == initial(chunks, config).queue.take(chunks.len() - v.started)
    &&& v.retried_chunks == 0
    &&& forall|i: int| 0 <= i < v.active.len() ==> (#[trigger] v.active[i]).attempt == 1
}

proof fn lemma_filled_in_order(
    v: ReactorView,
    chunks: Seq<ChunkRequest>,
    config: ReactorConfig,
    now_ns: u64,
)
    requires
        in_order(v, chunks, config),
        chunks.len() <= u32::MAX,
    ensures
        ({
            let next = v.filled(now_ns);
            &&& in_order(next, chunks, config)
            &&& v.active.is_prefix_of(next.active)
            &&& next.active.len() - v.active.len() == next.started - v.started
            &&& forall|i: int|
                v.active.len() <= i < next.active.len() ==> is_first_request(
                    #[trigger] next.active[i],
                    chunks,
                    v.started + i - v.active.len(),
                )
        }),
    decreases slots(v.config) - v.active.len(),
{
    if v.active.len() < slots(v.config) {
        let held_up = |q: QueuedChunk| q.ready_ns <= now_ns && q.blocks_frontier;
        let any = |q: QueuedChunk| q.ready_ns <= now_ns;
        seqs::last_where_missing(v.queue, held_up);
        if v.queue.len() > 0 {
            let k = v.queue.len() - 1;
            seqs::last_where_found(v.queue, any, k);
            assert(v.next_index(now_ns) == Some(k));
            let next = v.requested(k, now_ns);
            assert(next.queue =~= initial(chunks, config).queue.take(
                chunks.len() - next.started,
            ));
            assert(is_first_request(v.request_for(k, now_ns), chunks, v.started as int));
            lemma_filled_in_order(next, chunks, config, now_ns);
            let end = next.filled(now_ns);
            assert(end.active[v.active.len() as int] == next.active[v.active.len() as int]);
        } else {
            seqs::last_where_missing(v.queue, any);
        }
    }
}

proof fn lemma_steps_fit(v: ReactorView, steps: Seq<ReactorStep>)
    requires
        v.active.len() <= slots(v.config),
    ensures
        v.after_steps(steps).config == v.config,
        v.after_steps(steps).active.len() <= slots(v.config),
    decreases steps.len(),
{
    if steps.len() > 0 {
        let before = v.after_steps(steps.drop_last());
        lemma_steps_fit(v, steps.drop_last());
        match steps.last() {
            ReactorStep::Fill { now_ns, .. } => {
                lemma_filled_fits(before, now_ns);
            },
            ReactorStep::Observe { token, .. } => {
                seqs::last_where_is_last(before.active, |r: RequestState| r.token == token);
            },
            ReactorStep::End { token, .. } => {
                seqs::last_where_is_last(before.active, |r: RequestState| r.token == token);
            },
            _ => {},
        }
    }
}

proof fn lemma_filled_fits(v: ReactorView, now_ns: u64)
    requires
        v.active.len() <= slots(v.config),
    ensures
        v.filled(now_ns).config == v.config,
        v.filled(now_ns).active.len() <= slots(v.config),
        v.filled(now_ns).retried_chunks == v.retried_chunks,
    decreases slots(v.config) - v.active.len(),
{
    if v.active.len() < slots(v.config) {
        if let Some(k) = v.next_index(now_ns) {
            lemma_filled_fits(v.requested(k, now_ns), now_ns);
        }
    }
}

proof fn lemma_run_in_order(
    chunks: Seq<ChunkRequest>,
    config: ReactorConfig,
    steps: Seq<ReactorStep>,
)
    requires
        chunks.len() <= u32::MAX,
        initial(chunks, config).after_steps(steps).retried_chunks == 0,
    ensures
        in_order(initial(chunks, config).after_steps(steps), chunks, config),
        ({
            let starts = initial(chunks, config).all_starts(steps);
            &&& starts.len() == initial(chunks, config).after_steps(steps).started
            &&& forall|k: int|
                0 <= k < starts.len() ==> is_first_request(#[trigger] starts[k], chunks, k)
        }),
    decreases steps.len(),
{
    let first = initial(chunks, config);
    if steps.len() == 0 {
        assert(first.queue.take(chunks.len() as int) =~= first.queue);
    } else {
        let before = first.after_steps(steps.drop_last());
        let next = first.after_steps(steps);
        lemma_steps_fit(first, steps.drop_last());
        match steps.last() {
            ReactorStep::Fill { now_ns, time_expired } => {
                if !time_expired {
                    lemma_filled_fits(before, now_ns);
                }
                lemma_run_in_order(chunks, config, steps.drop_last());
                if !time_expired {
                    lemma_filled_in_order(before, chunks, config, now_ns);
                }
            },
            ReactorStep::Observe { token, .. } => {
                seqs::last_where_is_last(before.active, |r: RequestState| r.token == token);
                lemma_run_in_order(chunks, config, steps.drop_last());
            },
            ReactorStep::Frontier { .. } => {
                lemma_run_in_order(chunks, config, steps.drop_last());
            },
            ReactorStep::End { token, .. } => {
                seqs::last_where_is_last(before.active, |r: RequestState| r.token == token);
                lemma_run_in_order(chunks, config, steps.drop_last());
            },
        }
    }
}

/// In a run without a retry every chunk is requested once and in its order, with
/// the numbers from one on, whatever comes in between and however the requests
/// overlap. At no time are more requests in flight than there are slots, and
/// once no chunk waits all have been requested.
pub proof fn undisturbed_run_is_in_order(
    chunks: Seq<ChunkRequest>,
    config: ReactorConfig,
    steps: Seq<ReactorStep>,
)
    requires
        chunks.len() <= u32::MAX,
        initial(chunks, config).after_steps(steps).retried_chunks == 0,
    ensures
        ({
            let starts = initial(chunks, config).all_starts(steps);
            let end = initial(chunks, config).after_steps(steps);
            &&& starts.len() <= chunks.len()
            &&& starts.len() == end.started
            &&& forall|k: int|
                0 <= k < starts.len() ==> is_first_request(#[trigger] starts[k], chunks, k)
            &&& end.queue.len() == chunks.len() - starts.len()
            &&& end.queue.len() == 0 ==> starts.len() == chunks.len()
        }),
        forall|n: int|
            0 <= n <= steps.len() ==> (#[trigger] initial(chunks, config).after_steps(
                steps.take(n),
            )).active.len() <= slots(config),
{
    let first = initial(chunks, config);
    lemma_run_in_order(chunks, config, steps);
    assert forall|n: int| 0 <= n <= steps.len() implies (#[trigger] first.after_steps(
        steps.take(n),
    )).active.len() <= slots(config) by {
        lemma_steps_fit(first, steps.take(n));
    }
}

/// A request that has ended, and the bytes that it brought.
pub struct EndedRequest {
    pub state: RequestState,
    pub bytes: u64,
}

impl ReactorView {
    /// The requests that a step ends.
    pub open spec fn ends(self, step: ReactorStep) -> Seq<EndedRequest> {
        match step {
            ReactorStep::End { token, bytes, .. } => match self.active_index(token) {
                Some(k) => seq![EndedRequest { state: self.active[k], bytes }],
                None => Seq::empty(),
            },
            _ => Seq::empty(),
        }
    }

    /// The requests that some steps end, in their order.
    pub open spec fn all_ends(self, steps: Seq<ReactorStep>) -> Seq<EndedRequest>
        decreases steps.len(),
    {
        if steps.len() == 0 {
            Seq::empty()
        } else {
            self.all_ends(steps.drop_last()) + self.after_steps(steps.drop_last()).ends(
                steps.last(),
            )
        }
    }

    /// How often a chunk waits or is in flight.
    pub open spec fn open_requests(self, chunk_id: u64) -> int {
        seqs::total(self.queue, waits_for(chunk_id)) + seqs::total(self.active, asks_for(chunk_id))
    }
}

/// One for a waiting chunk with a number, nothing for any other.
pub open spec fn waits_for(chunk_id: u64) -> spec_fn(QueuedChunk) -> int {
    |q: QueuedChunk|
        if q.chunk.chunk_id == chunk_id {
            1int
        } else {
            0int
        }
}

/// One for a request for the chunk with a number, nothing for any other.
pub open spec fn asks_for(chunk_id: u64) -> spec_fn(RequestState) -> int {
    |r: RequestState|
        if r.chunk_id == chunk_id {
            1int
        } else {
            0int
        }
}

/// The bytes that a request brought for the chunk with a number.
pub open spec fn brings_for(chunk_id: u64) -> spec_fn(EndedRequest) -> int {
    |e: EndedRequest|
        if e.state.chunk_id == chunk_id {
            e.bytes as int
        } else {
            0int
        }
}

/// The bytes that some requests brought for the chunk with a number.
pub open spec fn bytes_brought(ended: Seq<EndedRequest>, chunk_id: u64) -> int {
    seqs::total(ended, brings_for(chunk_id))
}

/// A request was the last attempt for the chunk with a number, and left a part of
/// it out.
pub open spec fn gives_up(e: EndedRequest, chunk_id: u64) -> bool {
    &&& e.state.chunk_id == chunk_id
    &&& retry::incomplete(e.state, e.bytes)
    &&& e.state.attempt >= MAX_ATTEMPTS
}

/// The chunk with a number was given up by one of some requests.
pub open spec fn given_up(ended: Seq<EndedRequest>, chunk_id: u64) -> bool {
    exists|i: int| 0 <= i < ended.len() && gives_up(#[trigger] ended[i], chunk_id)
}

/// A chunk was received to its end by some requests.
pub open spec fn received(ended: Seq<EndedRequest>, chunk: ChunkRequest) -> bool {
    chunk.range_start + bytes_brought(ended, chunk.chunk_id) > chunk.range_end
}

/// A range is what some requests left out of a chunk.
pub open spec fn is_rest(
    range_start: u64,
    range_end: u64,
    ended: Seq<EndedRequest>,
    chunk: ChunkRequest,
) -> bool {
    &&& range_start == chunk.range_start + bytes_brought(ended, chunk.chunk_id)
    &&& range_end == chunk.range_end
    &&& chunk.range_start <= range_start <= range_end
}

/// What some requests left out of a chunk waits.
pub open spec fn rest_waits(
    v: ReactorView,
    ended: Seq<EndedRequest>,
    chunk: ChunkRequest,
) -> bool {
    exists|i: int|
        {
            &&& 0 <= i < v.queue.len()
            &&& (#[trigger] v.queue[i]).chunk.chunk_id == chunk.chunk_id
            &&& is_rest(v.queue[i].chunk.range_start, v.queue[i].chunk.range_end, ended, chunk)
        }
}

/// What some requests left out of a chunk is in flight.
pub open spec fn rest_in_flight(
    v: ReactorView,
    ended: Seq<EndedRequest>,
    chunk: ChunkRequest,
) -> bool {
    exists|i: int|
        {
            &&& 0 <= i < v.active.len()
            &&& (#[trigger] v.active[i]).chunk_id == chunk.chunk_id
            &&& is_rest(v.active[i].range_start, v.active[i].range_end, ended, chunk)
        }
}

/// What has become of a chunk after some requests have ended: it was received to
/// its end, or it was given up, or it waits or is in flight, once, with exactly
/// what is left of it.
pub open spec fn is_accounted_for(
    v: ReactorView,
    ended: Seq<EndedRequest>,
    chunk: ChunkRequest,
) -> bool {
    &&& v.open_requests(chunk.chunk_id) == if received(ended, chunk) || given_up(
        ended,
        chunk.chunk_id,
    ) {
        0int
    } else {
        1int
    }
    &&& !(received(ended, chunk) && given_up(ended, chunk.chunk_id))
    &&& forall|i: int|
        0 <= i < v.queue.len() && (#[trigger] v.queue[i]).chunk.chunk_id == chunk.chunk_id
            ==> is_rest(v.queue[i].chunk.range_start, v.queue[i].chunk.range_end, ended, chunk)
    &&& forall|i: int|
        0 <= i < v.active.len() && (#[trigger] v.active[i]).chunk_id == chunk.chunk_id
            ==> is_rest(v.active[i].range_start, v.active[i].range_end, ended, chunk)
}

proof fn lemma_open_counts(v: ReactorView, chunk_id: u64)
    ensures
        0 <= seqs::total(v.queue, waits_for(chunk_id)),
        0 <= seqs::total(v.active, asks_for(chunk_id)),
        forall|i: int|
            0 <= i < v.queue.len() && (#[trigger] v.queue[i]).chunk.chunk_id == chunk_id ==> 1
                <= seqs::total(v.queue, waits_for(chunk_id)),
        forall|i: int|
            0 <= i < v.active.len() && (#[trigger] v.active[i]).chunk_id == chunk_id ==> 1
                <= seqs::total(v.active, asks_for(chunk_id)),
{
    let waits = waits_for(chunk_id);
    let asks = asks_for(chunk_id);
    seqs::total_bounds(v.queue, waits);
    seqs::total_bounds(v.active, asks);
    assert forall|i: int| 0 <= i < v.queue.len() && (
    #[trigger] v.queue[i]).chunk.chunk_id == chunk_id implies 1 <= seqs::total(v.queue, waits) by {
        assert(waits(v.queue[i]) == 1);
    }
    assert forall|i: int| 0 <= i < v.active.len() && (#[trigger] v.active[i]).chunk_id
        == chunk_id implies 1 <= seqs::total(v.active, asks) by {
        assert(asks(v.active[i]) == 1);
    }
}

/// A chunk that is neither there in full nor given up can be found.
proof fn lemma_open_chunk_is_found(
    v: ReactorView,
    ended: Seq<EndedRequest>,
    chunk: ChunkRequest,
)
    requires
        is_accounted_for(v, ended, chunk),
    ensures
        received(ended, chunk) || given_up(ended, chunk.chunk_id) || rest_waits(v, ended, chunk)
            || rest_in_flight(v, ended, chunk),
{
    let waits = waits_for(chunk.chunk_id);
    let asks = asks_for(chunk.chunk_id);
    if !rest_waits(v, ended, chunk) && !rest_in_flight(v, ended, chunk) {
        assert forall|i: int| 0 <= i < v.queue.len() implies waits(#[trigger] v.queue[i]) == 0 by {
            assert(v.queue[i].chunk.chunk_id != chunk.chunk_id);
        }
        assert forall|i: int| 0 <= i < v.active.len() implies asks(#[trigger] v.active[i]) == 0 by {
            assert(v.active[i].chunk_id != chunk.chunk_id);
        }
        seqs::total_constant(v.queue, waits, 0);
        seqs::total_constant(v.active, asks, 0);
    }
}

proof fn lemma_initial_accounts(
    chunks: Seq<ChunkRequest>,
    config: ReactorConfig,
    k: int,
)
    requires
        0 <= k < chunks.len(),
        chunks[k].range_start <= chunks[k].range_end,
        forall|i: int, j: int|
            0 <= i < j < chunks.len() ==> (#[trigger] chunks[i]).chunk_id != (
            #[trigger] chunks[j]).chunk_id,
    ensures
        is_accounted_for(initial(chunks, config), Seq::empty(), chunks[k]),
{
    let v = initial(chunks, config);
    let id = chunks[k].chunk_id;
    let n = chunks.len() - 1;
    assert forall|i: int| 0 <= i < v.queue.len() && i != n - k implies (
    #[trigger] v.queue[i]).chunk.chunk_id != id by {
        assert(v.queue[i].chunk == chunks[n - i]);
    }
    assert(v.queue[n - k].chunk == chunks[k]);
    seqs::total_single(v.queue, waits_for(id), n - k);
}

proof fn lemma_filled_accounts(
    v: ReactorView,
    now_ns: u64,
    ended: Seq<EndedRequest>,
    chunk: ChunkRequest,
)
    requires
        is_accounted_for(v, ended, chunk),
    ensures
        is_accounted_for(v.filled(now_ns), ended, chunk),
    decreases slots(v.config) - v.active.len(),
{
    if v.active.len() < slots(v.config) {
        if let Some(k) = v.next_index(now_ns) {
            let id = chunk.chunk_id;
            let next = v.requested(k, now_ns);
            lemma_next_index(v, now_ns);
            seqs::total_remove(v.queue, k, waits_for(id));
            seqs::total_push(v.active, v.request_for(k, now_ns), asks_for(id));
            assert forall|i: int| 0 <= i < next.queue.len() && (
            #[trigger] next.queue[i]).chunk.chunk_id == id implies is_rest(
                next.queue[i].chunk.range_start,
                next.queue[i].chunk.range_end,
                ended,
                chunk,
            ) by {
                if i < k {
                    assert(next.queue[i] == v.queue[i]);
                } else {
                    assert(next.queue[i] == v.queue[i + 1]);
                }
            }
            lemma_filled_accounts(next, now_ns, ended, chunk);
        }
    }
}

proof fn lemma_noted_accounts(
    v: ReactorView,
    k: int,
    page_bytes: u64,
    now_ns: u64,
    ended: Seq<EndedRequest>,
    chunk: ChunkRequest,
)
    requires
        is_accounted_for(v, ended, chunk),
        0 <= k < v.active.len(),
    ensures
        is_accounted_for(v.noted(k, page_bytes, now_ns), ended, chunk),
{
    let next = v.noted(k, page_bytes, now_ns);
    seqs::total_update(v.active, k, next.active[k], asks_for(chunk.chunk_id));
    assert forall|i: int| 0 <= i < next.active.len() && (#[trigger] next.active[i]).chunk_id
        == chunk.chunk_id implies is_rest(
        next.active[i].range_start,
        next.active[i].range_end,
        ended,
        chunk,
    ) by {
        assert(v.active[i].chunk_id == chunk.chunk_id);
    }
}

proof fn lemma_ended_accounts(
    v: ReactorView,
    k: int,
    bytes: u64,
    used: ConnectionUse,
    now_ns: u64,
    ended: Seq<EndedRequest>,
    chunk: ChunkRequest,
)
    requires
        is_accounted_for(v, ended, chunk),
        0 <= k < v.active.len(),
    ensures
        is_accounted_for(
            v.ended(k, bytes, used, now_ns),
            ended.push(EndedRequest { state: v.active[k], bytes }),
            chunk,
        ),
{
    let id = chunk.chunk_id;
    let state = v.active[k];
    let e = EndedRequest { state, bytes };
    let more = ended.push(e);
    let next = v.ended(k, bytes, used, now_ns);
    lemma_open_counts(v, id);
    lemma_open_counts(next, id);
    seqs::total_push(ended, e, brings_for(id));
    seqs::total_remove(v.active, k, asks_for(id));
    if let Some(q) = retry::requeued(state, bytes, v.frontier, now_ns) {
        seqs::total_push(v.queue, q, waits_for(id));
    }
    assert(given_up(more, id) <==> given_up(ended, id) || gives_up(e, id)) by {
        if given_up(ended, id) {
            let i = choose|i: int| 0 <= i < ended.len() && gives_up(#[trigger] ended[i], id);
            assert(more[i] == ended[i]);
        }
        if gives_up(e, id) {
            assert(more[ended.len() as int] == e);
        }
        if given_up(more, id) {
            let i = choose|i: int| 0 <= i < more.len() && gives_up(#[trigger] more[i], id);
            if i < ended.len() {
                assert(more[i] == ended[i]);
            }
        }
    }
    if state.chunk_id == id {
        assert(is_rest(state.range_start, state.range_end, ended, chunk));
    }
    assert forall|i: int| 0 <= i < next.active.len() && (#[trigger] next.active[i]).chunk_id
        == id implies is_rest(
        next.active[i].range_start,
        next.active[i].range_end,
        more,
        chunk,
    ) by {
        if i < k {
            assert(next.active[i] == v.active[i]);
        } else {
            assert(next.active[i] == v.active[i + 1]);
        }
    }
    assert forall|i: int| 0 <= i < next.queue.len() && (#[trigger] next.queue[i]).chunk.chunk_id
        == id implies is_rest(
        next.queue[i].chunk.range_start,
        next.queue[i].chunk.range_end,
        more,
        chunk,
    ) by {
        if i < v.queue.len() {
            assert(next.queue[i] == v.queue[i]);
        }
    }
}

/// No chunk is lost, and none takes the place of another: after any steps of a
/// run, each chunk was received to its end, or was given up after its last
/// attempt, or waits or is in flight. In the last case it does so once, and what
/// is asked for is exactly the part of it that the requests so far left out.
pub proof fn every_chunk_is_accounted_for(
    chunks: Seq<ChunkRequest>,
    config: ReactorConfig,
    steps: Seq<ReactorStep>,
    k: int,
)
    requires
        0 <= k < chunks.len(),
        chunks[k].range_start <= chunks[k].range_end,
        forall|i: int, j: int|
            0 <= i < j < chunks.len() ==> (#[trigger] chunks[i]).chunk_id != (
            #[trigger] chunks[j]).chunk_id,
    ensures
        is_accounted_for(
            initial(chunks, config).after_steps(steps),
            initial(chunks, config).all_ends(steps),
            chunks[k],
        ),
        ({
            let v = initial(chunks, config).after_steps(steps);
            let ended = initial(chunks, config).all_ends(steps);
            ||| received(ended, chunks[k])
            ||| given_up(ended, chunks[k].chunk_id)
            ||| rest_waits(v, ended, chunks[k])
            ||| rest_in_flight(v, ended, chunks[k])
        }),
    decreases steps.len(),
{
    let first = initial(chunks, config);
    if steps.len() == 0 {
        lemma_initial_accounts(chunks, config, k);
    } else {
        let before = first.after_steps(steps.drop_last());
        let ended = first.all_ends(steps.drop_last());
        every_chunk_is_accounted_for(chunks, config, steps.drop_last(), k);
        assert(ended + Seq::<EndedRequest>::empty() =~= ended);
        match steps.last() {
            ReactorStep::Fill { now_ns, time_expired } => {
                lemma_filled_accounts(before, now_ns, ended, chunks[k]);
            },
            ReactorStep::Observe { token, page_bytes, now_ns } => {
                seqs::last_where_is_last(before.active, |r: RequestState| r.token == token);
                if let Some(i) = before.active_index(token) {
                    lemma_noted_accounts(before, i, page_bytes, now_ns, ended, chunks[k]);
                }
            },
            ReactorStep::Frontier { .. } => {},
            ReactorStep::End { token, bytes, used, now_ns } => {
                seqs::last_where_is_last(before.active, |r: RequestState| r.token == token);
                if let Some(i) = before.active_index(token) {
                    let e = EndedRequest { state: before.active[i], bytes };
                    lemma_ended_accounts(before, i, bytes, used, now_ns, ended, chunks[k]);
                    assert(ended + seq![e] =~= ended.push(e));
                }
            },
        }
    }
    lemma_open_chunk_is_found(first.after_steps(steps), first.all_ends(steps), chunks[k]);
}

/// While a chunk that holds up the frontier may be requested, no other chunk is
/// requested before such a one.
pub proof fn frontier_goes_first(v: ReactorView, k: int, now_ns: u64)
    requires
        0 <= k < v.queue.len(),
        v.queue[k].ready_ns <= now_ns,
        v.queue[k].blocks_frontier,
    ensures
        v.next_index(now_ns) matches Some(n) && 0 <= n < v.queue.len()
            && v.queue[n].blocks_frontier && v.queue[n].ready_ns <= now_ns,
{
    let first = |q: QueuedChunk| q.ready_ns <= now_ns && q.blocks_frontier;
    seqs::last_where_is_last(v.queue, first);
    assert(first(v.queue[k]));
}

/// Filling leaves no slot free while a chunk may be requested.
pub proof fn filling_is_greedy(v: ReactorView, now_ns: u64)
    requires
        v.active.len() <= slots(v.config),
    ensures
        ({
            let next = v.filled(now_ns);
            ||| next.active.len() == slots(v.config)
            ||| forall|k: int|
                0 <= k < next.queue.len() ==> (#[trigger] next.queue[k]).ready_ns > now_ns
        }),
    decreases slots(v.config) - v.active.len(),
{
    let any = |q: QueuedChunk| q.ready_ns <= now_ns;
    if v.active.len() < slots(v.config) {
        match v.next_index(now_ns) {
            Some(k) => {
                filling_is_greedy(v.requested(k, now_ns), now_ns);
            },
            None => {
                seqs::last_where_is_last(v.queue, any);
                assert forall|k: int| 0 <= k < v.queue.len() implies (
                #[trigger] v.queue[k]).ready_ns > now_ns by {
                    assert(!any(v.queue[k]));
                }
            },
        }
    }
}

/// A request stalls at most once, and progress does not undo it.
pub proof fn stall_is_reported_once(
    state: RequestState,
    page_bytes: u64,
    now_ns: u64,
    stall_timeout_ms: u64,
    later_bytes: u64,
    later_ns: u64,
)
    requires
        state.stalled || stalls(state, page_bytes, now_ns, stall_timeout_ms),
    ensures
        progressed(state, page_bytes, now_ns, stall_timeout_ms).stalled,
        !stalls(
            progressed(state, page_bytes, now_ns, stall_timeout_ms),
            later_bytes,
            later_ns,
            stall_timeout_ms,
        ),
{
}

/// Bytes that fill no page do not keep a request from stalling: `len` more of
/// them leave it as it would have been without them. A page that they fill
/// restarts the clock.
pub proof fn only_pages_are_progress(
    state: RequestState,
    counter: PageCounter,
    len: int,
    now_ns: u64,
    stall_timeout_ms: u64,
)
    requires
        counter.wf(),
        0 <= len,
        counter.position() + len <= u64::MAX,
        state.page_bytes == counter.arrived(),
    ensures
        ({
            let next = progressed(
                state,
                counter.after(len).arrived() as u64,
                now_ns,
                stall_timeout_ms,
            );
            if counter.current_page_bytes + len < counter.page_size {
                &&& next.last_progress_ns == state.last_progress_ns
                &&& next.stalled <==> state.stalled || now_ns - state.last_progress_ns
                    > stall_timeout_ms * NS_PER_MS
            } else {
                next.last_progress_ns == now_ns && next.stalled == state.stalled
            }
        }),
{
    pages::only_full_pages_arrive(counter, len);
    pages::split_write_is_irrelevant(counter, len, 0, 0);
    assert(counter.pages_filled(len) >= 0) by {
        vstd::arithmetic::div_mod::lemma_div_pos_is_pos(
            counter.current_page_bytes + len,
            counter.page_size as int,
        );
    }
    assert(counter.pages_filled(len) * counter.page_size >= 0) by (nonlinear_arith)
        requires
            counter.pages_filled(len) >= 0,
    ;
}

/// An urgent request that stalled and left something out is resumed, as long as
/// it has attempts left: its last event says which part of the range is asked
/// for again. No other request is reported as resumed.
pub proof fn stalled_urgent_is_resumed(
    state: RequestState,
    handler: ReactorHandler,
    report: TransferReport,
    error: Option<Seq<char>>,
    frontier: u64,
    now_ns: u64,
)
    requires
        state.range_start <= state.range_end,
        1 <= state.attempt <= MAX_ATTEMPTS,
    ensures
        ({
            let bytes = handler.pages.bytes_received;
            let events = ending_events(state, handler, report, error, frontier, now_ns);
            let resumes = state.stalled && state.lane == Lane::Urgent && bytes < state.range_end
                - state.range_start + 1 && state.attempt < MAX_ATTEMPTS;
            &&& resumes ==> events.last() == (TraceEventView::RequestResumed {
                request_id: state.request_id,
                suffix_range: transport::range_text(
                    (state.range_start + bytes) as u64,
                    state.range_end,
                ),
                attempt: (state.attempt + 1) as u32,
                timestamp_ns: now_ns,
            })
            &&& !resumes ==> forall|i: int|
                0 <= i < events.len() ==> !(#[trigger] events[i] is RequestResumed)
        }),
{
    retry::retry_asks_for_what_is_missing(
        state,
        handler.pages.bytes_received,
        frontier,
        now_ns,
    );
}

/// The time of a run is up once its own limit has passed, and never where it has
/// none. Nothing else in the configuration matters.
pub proof fn duration_alone_limits_a_run(
    config: ReactorConfig,
    other: ReactorConfig,
    now_ns: u64,
    later_ns: u64,
)
    ensures
        config.max_duration_ms > 0 ==> (expired(config, now_ns) <==> now_ns
            >= config.max_duration_ms * 1_000_000),
        config.max_duration_ms == 0 ==> !expired(config, now_ns),
        config.max_duration_ms == other.max_duration_ms ==> expired(config, now_ns) == expired(
            other,
            now_ns,
        ),
        expired(config, now_ns) && now_ns <= later_ns ==> expired(config, later_ns),
{
}

/// A chunk that is requested leaves the queue, and nothing else does. Its request
/// asks for all of it, in its lane and with its attempt, under the next number, and
/// has received nothing yet.
pub proof fn request_is_for_its_chunk(v: ReactorView, k: int, now_ns: u64)
    requires
        0 <= k < v.queue.len(),
        v.started < u32::MAX,
    ensures
        ({
            let next = v.requested(k, now_ns);
            let request = next.active.last();
            &&& next.queue == v.queue.remove(k)
            &&& next.active.drop_last() == v.active
            &&& next.active.len() == v.active.len() + 1
            &&& next.started == v.started + 1
            &&& request.token == v.started
            &&& request.request_id == v.started + 1
            &&& request.chunk_id == v.queue[k].chunk.chunk_id
            &&& request.lane == v.queue[k].chunk.lane
            &&& request.attempt == v.queue[k].attempt
            &&& request.range_start == v.queue[k].chunk.range_start
            &&& request.range_end == v.queue[k].chunk.range_end
            &&& request.page_bytes == 0
            &&& request.last_progress_ns == now_ns
            &&& !request.stalled
            &&& next.connections == v.connections
            &&& next.total_bytes == v.total_bytes
            &&& next.total_requests == v.total_requests
            &&& next.frontier == v.frontier
        }),
{
    assert(v.requested(k, now_ns).active.drop_last() =~= v.active);
}

/// The chunk that is requested next may be requested at the time. No chunk behind
/// it may that comes as first: where it holds up the frontier, none behind it that
/// may be requested does, and where it does not, none may be requested behind it
/// and none at all holds up the frontier. There is none only where no chunk may be
/// requested.
pub proof fn last_in_line_goes_next(v: ReactorView, now_ns: u64)
    ensures
        match v.next_index(now_ns) {
            Some(k) => {
                &&& 0 <= k < v.queue.len()
                &&& v.queue[k].ready_ns <= now_ns
                &&& v.queue[k].blocks_frontier ==> forall|j: int|
                    k < j < v.queue.len() ==> (#[trigger] v.queue[j]).ready_ns > now_ns
                        || !v.queue[j].blocks_frontier
                &&& !v.queue[k].blocks_frontier ==> {
                    &&& forall|j: int|
                        k < j < v.queue.len() ==> (#[trigger] v.queue[j]).ready_ns > now_ns
                    &&& forall|j: int|
                        0 <= j < v.queue.len() ==> (#[trigger] v.queue[j]).ready_ns > now_ns
                            || !v.queue[j].blocks_frontier
                }
            },
            None => forall|j: int|
                0 <= j < v.queue.len() ==> (#[trigger] v.queue[j]).ready_ns > now_ns,
        },
{
    let held_up = |q: QueuedChunk| q.ready_ns <= now_ns && q.blocks_frontier;
    let any = |q: QueuedChunk| q.ready_ns <= now_ns;
    seqs::last_where_is_last(v.queue, held_up);
    seqs::last_where_is_last(v.queue, any);
    assert forall|j: int| 0 <= j < v.queue.len() implies held_up(#[trigger] v.queue[j]) == (
    v.queue[j].ready_ns <= now_ns && v.queue[j].blocks_frontier) && any(v.queue[j]) == (
    v.queue[j].ready_ns <= now_ns) by {}
}

/// Filling puts every worker to work, urgent and prefetch ones alike, as long as a
/// chunk may be requested, and never starts more requests than there are workers.
/// What was in flight stays, and each chunk that leaves the queue is requested.
pub proof fn every_worker_is_used(v: ReactorView, now_ns: u64)
    requires
        v.active.len() <= v.config.urgent_workers + v.config.prefetch_workers,
    ensures
        ({
            let next = v.filled(now_ns);
            let workers = v.config.urgent_workers + v.config.prefetch_workers;
            &&& next.active.len() <= workers
            &&& next.active.len() == workers || forall|j: int|
                0 <= j < next.queue.len() ==> (#[trigger] next.queue[j]).ready_ns > now_ns
            &&& v.active.is_prefix_of(next.active)
            &&& next.queue.len() + next.active.len() == v.queue.len() + v.active.len()
            &&& next.started - v.started == next.active.len() - v.active.len()
            &&& next.config == v.config
            &&& next.total_requests == v.total_requests
        }),
    decreases slots(v.config) - v.active.len(),
{
    if v.active.len() < slots(v.config) {
        last_in_line_goes_next(v, now_ns);
        if let Some(k) = v.next_index(now_ns) {
            every_worker_is_used(v.requested(k, now_ns), now_ns);
        }
    }
}

/// What is told of a request that starts is the request: its range with both ends,
/// and an event with its numbers, its lane, its attempt, its range and the time.
pub proof fn start_is_told(start: StartedRequest, state: RequestState, now_ns: u64)
    requires
        is_start(start, state, now_ns),
    ensures
        start.state == state,
        start.range@ == transport::range_text(state.range_start, state.range_end),
        start.event@ matches TraceEventView::RequestStarted {
            request_id,
            chunk_id,
            lane,
            attempt,
            requested_range,
            timestamp_ns,
        } && request_id == state.request_id && chunk_id == state.chunk_id && lane == state.lane
            && attempt == state.attempt && requested_range == start.range@ && timestamp_ns == now_ns,
{
}

/// A request stalls when it is seen more than the timeout after a page last came,
/// with no new page, and has not stalled before. A new page restarts the clock. The
/// rest of the request stays as it is.
pub proof fn stall_takes_its_time(
    state: RequestState,
    page_bytes: u64,
    now_ns: u64,
    stall_timeout_ms: u64,
)
    ensures
        stalls(state, page_bytes, now_ns, stall_timeout_ms) <==> !state.stalled && page_bytes
            <= state.page_bytes && now_ns > state.last_progress_ns + 1_000_000 * stall_timeout_ms,
        ({
            let next = progressed(state, page_bytes, now_ns, stall_timeout_ms);
            &&& next.stalled <==> state.stalled || stalls(
                state,
                page_bytes,
                now_ns,
                stall_timeout_ms,
            )
            &&& page_bytes > state.page_bytes ==> next.page_bytes == page_bytes
                && next.last_progress_ns == now_ns
            &&& page_bytes <= state.page_bytes ==> next.page_bytes == state.page_bytes
                && next.last_progress_ns == state.last_progress_ns
            &&& next.token == state.token
            &&& next.request_id == state.request_id
            &&& next.chunk_id == state.chunk_id
            &&& next.lane == state.lane
            &&& next.attempt == state.attempt
            &&& next.range_start == state.range_start
            &&& next.range_end == state.range_end
        }),
{
}

/// The end of a request is booked on its connection: one more request, its bytes,
/// and the time as that of the last use. What the connection looked like and when
/// it was first used stays. A connection that was not there comes behind the
/// others. No other connection changes.
pub proof fn request_is_booked_on_its_connection(
    connections: Seq<ConnectionView>,
    used: ConnectionUse,
    bytes: u64,
    now_ns: u64,
    k: int,
)
    requires
        forall|i: int, j: int|
            0 <= i < j < connections.len() ==> (#[trigger] connections[i]).connection_id != (
            #[trigger] connections[j]).connection_id,
        0 <= k < connections.len() && connections[k].connection_id == used.connection_id ==> {
            &&& connections[k].requests_count < u32::MAX
            &&& connections[k].bytes_total + bytes <= u64::MAX
        },
    ensures
        ({
            let next = registered(connections, used, bytes, now_ns);
            &&& forall|i: int|
                0 <= i < connections.len() && (#[trigger] connections[i]).connection_id
                    != used.connection_id ==> next[i] == connections[i]
            &&& 0 <= k < connections.len() && connections[k].connection_id == used.connection_id
                ==> {
                &&& next.len() == connections.len()
                &&& next[k].connection_id == used.connection_id
                &&& next[k].requests_count == connections[k].requests_count + 1
                &&& next[k].bytes_total == connections[k].bytes_total + bytes
                &&& next[k].last_use_ns == now_ns
                &&& next[k].first_use_ns == connections[k].first_use_ns
                &&& next[k].protocol == connections[k].protocol
                &&& next[k].local_endpoint == connections[k].local_endpoint
                &&& next[k].remote_endpoint == connections[k].remote_endpoint
            }
            &&& (forall|i: int|
                0 <= i < connections.len() ==> (#[trigger] connections[i]).connection_id
                    != used.connection_id) ==> {
                &&& next.len() == connections.len() + 1
                &&& next.last().connection_id == used.connection_id
                &&& next.last().requests_count == 1
                &&& next.last().bytes_total == bytes
                &&& next.last().first_use_ns == now_ns
                &&& next.last().last_use_ns == now_ns
                &&& next.last().protocol == used.protocol
                &&& next.last().local_endpoint == used.local_endpoint
                &&& next.last().remote_endpoint == used.remote_endpoint
            }
        }),
{
    let is_it = |c: ConnectionView| c.connection_id == used.connection_id;
    seqs::last_where_is_last(connections, is_it);
    assert forall|i: int| 0 <= i < connections.len() implies is_it(#[trigger] connections[i]) == (
    connections[i].connection_id == used.connection_id) by {}
    if let Some(n) = connection_index(connections, used.connection_id) {
        if 0 <= k < connections.len() && connections[k].connection_id == used.connection_id {
            if k < n {
                assert(connections[k].connection_id != connections[n].connection_id);
            } else if n < k {
                assert(connections[n].connection_id != connections[k].connection_id);
            }
        }
    }
}

/// The end of a request takes it out of flight, and no other. Its bytes are
/// counted, it is counted as ended, and its connection is booked. What it left out
/// waits again, counted as a retry, or is given up and counted as failed after ten
/// attempts. Nothing else waits that did not.
pub proof fn end_is_booked(
    v: ReactorView,
    k: int,
    bytes: u64,
    used: ConnectionUse,
    now_ns: u64,
)
    requires
        0 <= k < v.active.len(),
        v.active[k].range_start <= v.active[k].range_end,
        1 <= v.active[k].attempt,
    ensures
        ({
            let next = v.ended(k, bytes, used, now_ns);
            let missing = v.active[k].range_start + bytes <= v.active[k].range_end;
            &&& next.active == v.active.remove(k)
            &&& next.total_bytes == v.total_bytes + bytes
            &&& next.total_requests == v.total_requests + 1
            &&& next.started == v.started
            &&& next.connections == registered(v.connections, used, bytes, now_ns)
            &&& next.frontier == v.frontier
            &&& next.config == v.config
            &&& v.queue.is_prefix_of(next.queue)
            &&& missing && v.active[k].attempt < 10 ==> {
                &&& next.queue.len() == v.queue.len() + 1
                &&& next.retried_chunks == v.retried_chunks + 1
                &&& next.failed_chunks == v.failed_chunks
                &&& Some(next.queue.last()) == retry::requeued(
                    v.active[k],
                    bytes,
                    v.frontier,
                    now_ns,
                )
            }
            &&& missing && v.active[k].attempt >= 10 ==> {
                &&& next.queue == v.queue
                &&& next.retried_chunks == v.retried_chunks
                &&& next.failed_chunks == v.failed_chunks + 1
            }
            &&& !missing ==> {
                &&& next.queue == v.queue
                &&& next.retried_chunks == v.retried_chunks
                &&& next.failed_chunks == v.failed_chunks
            }
        }),
{
    retry::retries_wait_their_time(v.active[k], bytes, v.frontier, now_ns);
}

/// The counts of a run are those of what happened in it: the requests that were
/// started, those that ended, the bytes that these brought, and how often a chunk
/// was requested again or given up.
pub proof fn run_counts_what_happened(
    chunks: Seq<ChunkRequest>,
    config: ReactorConfig,
    steps: Seq<ReactorStep>,
)
    ensures
        ({
            let v = initial(chunks, config).after_steps(steps);
            let ended = initial(chunks, config).all_ends(steps);
            let started = initial(chunks, config).all_starts(steps);
            &&& v.started == started.len()
            &&& v.total_requests == ended.len()
            &&& v.total_bytes == seqs::total(ended, |e: EndedRequest| e.bytes as int)
            &&& v.retried_chunks == seqs::total(
                ended,
                |e: EndedRequest|
                    if e.state.range_start + e.bytes <= e.state.range_end && e.state.attempt < 10 {
                        1int
                    } else {
                        0int
                    },
            )
            &&& v.failed_chunks == seqs::total(
                ended,
                |e: EndedRequest|
                    if e.state.range_start + e.bytes <= e.state.range_end && e.state.attempt >= 10 {
                        1int
                    } else {
                        0int
                    },
            )
            &&& v.config == config
            &&& v.chunk_count == chunks.len()
        }),
    decreases steps.len(),
{
    let first = initial(chunks, config);
    if steps.len() > 0 {
        let before = first.after_steps(steps.drop_last());
        let ended = first.all_ends(steps.drop_last());
        run_counts_what_happened(chunks, config, steps.drop_last());
        lemma_steps_fit(first, steps.drop_last());
        assert(ended + Seq::<EndedRequest>::empty() =~= ended);
        match steps.last() {
            ReactorStep::Fill { now_ns, time_expired } => {
                if !time_expired {
                    every_worker_is_used(before, now_ns);
                    lemma_filled_keeps_counts(before, now_ns);
                }
            },
            ReactorStep::End { token, bytes, used, now_ns } => {
                seqs::last_where_is_last(before.active, |r: RequestState| r.token == token);
                if let Some(k) = before.active_index(token) {
                    let e = EndedRequest { state: before.active[k], bytes };
                    assert(ended + seq![e] =~= ended.push(e));
                    seqs::total_push(ended, e, |e: EndedRequest| e.bytes as int);
                    seqs::total_push(
                        ended,
                        e,
                        |e: EndedRequest|
                            if e.state.range_start + e.bytes <= e.state.range_end
                                && e.state.attempt < 10 {
                                1int
                            } else {
                                0int
                            },
                    );
                    seqs::total_push(
                        ended,
                        e,
                        |e: EndedRequest|
                            if e.state.range_start + e.bytes <= e.state.range_end
                                && e.state.attempt >= 10 {
                                1int
                            } else {
                                0int
                            },
                    );
                }
            },
            _ => {},
        }
    }
}

proof fn lemma_filled_keeps_counts(v: ReactorView, now_ns: u64)
    ensures
        v.filled(now_ns).total_bytes == v.total_bytes,
        v.filled(now_ns).retried_chunks == v.retried_chunks,
        v.filled(now_ns).failed_chunks == v.failed_chunks,
        v.filled(now_ns).chunk_count == v.chunk_count,
    decreases slots(v.config) - v.active.len(),
{
    if v.active.len() < slots(v.config) {
        if let Some(k) = v.next_index(now_ns) {
            lemma_filled_keeps_counts(v.requested(k, now_ns), now_ns);
        }
    }
}

/// A connection is registered as the transfer reports it: by its identifier, with
/// its own two ends, and as encrypted where there was a handshake.
pub proof fn connection_is_as_reported(handler: ReactorHandler, report: TransferReport)
    ensures
        ({
            let used = connection_used(handler, report);
            let version = outcome::version_of(handler.head@, report.http_version);
            &&& used.connection_id == report.connection_id
            &&& used.local_endpoint == transport::endpoint_text(report.local_ip@, report.local_port)
            &&& used.remote_endpoint == transport::endpoint_text(
                report.remote_ip@,
                report.remote_port,
            )
            &&& used.protocol == if download::phases(report.times).tls_ns > 0 {
                "https/"@ + version
            } else {
                "http/"@ + version
            }
        }),
{
}

/// What is told at the end of a request: the page that is there in part, if there
/// is one; that the request has ended, with its bytes, its times, its version, its
/// connection and its error; the facts of the connection; and where an urgent
/// request had stalled and is requested again, that it is.
pub proof fn end_is_told(
    state: RequestState,
    handler: ReactorHandler,
    report: TransferReport,
    error: Option<Seq<char>>,
    frontier: u64,
    now_ns: u64,
)
    requires
        state.range_start <= state.range_end,
        1 <= state.attempt <= MAX_ATTEMPTS,
    ensures
        ({
            let events = ending_events(state, handler, report, error, frontier, now_ns);
            let partial = handler.pages.current_page_bytes > 0;
            let resumed = state.stalled && state.lane == Lane::Urgent && state.attempt < 10
                && state.range_start + handler.pages.bytes_received <= state.range_end;
            let n = if partial {
                1int
            } else {
                0int
            };
            let is_new = report.times.connect_ns matches Some(ns) && ns > 500_000;
            let used = connection_used(handler, report);
            &&& events.len() == n + 2 + if resumed {
                1int
            } else {
                0int
            }
            &&& partial ==> events[0] == (PageCounter {
                request_id: state.request_id,
                chunk_id: state.chunk_id,
                ..handler.pages
            }).partial_page(now_ns)@
            &&& events[n] == (TraceEventView::RequestFinished {
                request_id: state.request_id,
                total_bytes: handler.pages.bytes_received,
                timings: download::phases(report.times),
                http_version: outcome::version_of(handler.head@, report.http_version),
                connection_id: report.connection_id,
                new_connection: is_new,
                error_class: outcome::error_of(
                    error,
                    handler.pages.bytes_received,
                    handler.head.response_code,
                ),
                timestamp_ns: now_ns,
            })
            &&& events[n + 1] == (TraceEventView::RequestPrereq {
                request_id: state.request_id,
                connection_id: report.connection_id,
                new_connection: is_new,
                local_endpoint: used.local_endpoint,
                remote_endpoint: used.remote_endpoint,
                protocol: used.protocol,
                timestamp_ns: now_ns,
            })
            &&& resumed ==> events[n + 2] == (TraceEventView::RequestResumed {
                request_id: state.request_id,
                suffix_range: transport::range_text(
                    (state.range_start + handler.pages.bytes_received) as u64,
                    state.range_end,
                ),
                attempt: (state.attempt + 1) as u32,
                timestamp_ns: now_ns,
            })
        }),
{
    retry::retries_wait_their_time(state, handler.pages.bytes_received, frontier, now_ns);
}

/// What is told of a connection at the end of a run is what is registered of it.
pub proof fn life_of_a_connection_is_told(c: ConnectionView)
    ensures
        lifecycle(c) matches TraceEventView::ConnectionLifecycle {
            connection_id,
            protocol,
            local_endpoint,
            remote_endpoint,
            requests_count,
            bytes_total,
            first_use_ns,
            last_use_ns,
        } && connection_id == c.connection_id && protocol == c.protocol && local_endpoint
            == c.local_endpoint && remote_endpoint == c.remote_endpoint && requests_count
            == c.requests_count && bytes_total == c.bytes_total && first_use_ns == c.first_use_ns
            && last_use_ns == c.last_use_ns,
{
}

/// A token stands for the request in flight that has it, and for none where no
/// request has.
pub proof fn token_names_its_request(v: ReactorView, token: usize)
    ensures
        match v.active_index(token) {
            Some(k) => 0 <= k < v.active.len() && v.active[k].token == token,
            None => forall|i: int|
                0 <= i < v.active.len() ==> (#[trigger] v.active[i]).token != token,
        },
{
    let is_it = |r: RequestState| r.token == token;
    seqs::last_where_is_last(v.active, is_it);
    assert forall|i: int| 0 <= i < v.active.len() implies is_it(#[trigger] v.active[i]) == (
    v.active[i].token == token) by {}
}

/// To take note of progress changes the request that made it, and no other and
/// nothing else.
pub proof fn progress_is_of_one_request(v: ReactorView, k: int, page_bytes: u64, now_ns: u64)
    requires
        0 <= k < v.active.len(),
    ensures
        ({
            let next = v.noted(k, page_bytes, now_ns);
            &&& next.active.len() == v.active.len()
            &&& next.active[k] == progressed(
                v.active[k],
                page_bytes,
                now_ns,
                v.config.stall_timeout_ms,
            )
            &&& forall|i: int|
                0 <= i < v.active.len() && i != k ==> #[trigger] next.active[i] == v.active[i]
            &&& next.queue == v.queue
            &&& next.connections == v.connections
            &&& next.started == v.started
            &&& next.total_bytes == v.total_bytes
            &&& next.total_requests == v.total_requests
            &&& next.retried_chunks == v.retried_chunks
            &&& next.failed_chunks == v.failed_chunks
            &&& next.frontier == v.frontier
            &&& next.config == v.config
        }),
{
}

/// A run begins with all its chunks waiting, ready at once, for their first
/// attempt, and nothing in flight or counted.
pub proof fn run_begins_with_its_chunks(chunks: Seq<ChunkRequest>, config: ReactorConfig, i: int)
    requires
        0 <= i < chunks.len(),
    ensures
        ({
            let v = initial(chunks, config);
            let q = v.queue[chunks.len() - 1 - i];
            &&& v.queue.len() == chunks.len()
            &&& q.chunk == chunks[i]
            &&& q.attempt == 1
            &&& q.ready_ns == 0
            &&& !q.blocks_frontier
            &&& v.active.len() == 0
            &&& v.connections.len() == 0
            &&& v.started == 0
            &&& v.total_bytes == 0
            &&& v.total_requests == 0
            &&& v.retried_chunks == 0
            &&& v.failed_chunks == 0
            &&& v.frontier == 0
            &&& v.config == config
        }),
{
}

/// The view of a connection record shows all of it.
pub proof fn view_shows_the_whole_record(record: ConnectionRecord)
    ensures
        record@.connection_id == record.connection_id,
        record@.protocol == record.protocol@,
        record@.local_endpoint == record.local_endpoint@,
        record@.remote_endpoint == record.remote_endpoint@,
        record@.first_use_ns == record.first_use_ns,
        record@.last_use_ns == record.last_use_ns,
        record@.requests_count == record.requests_count,
        record@.bytes_total == record.bytes_total,
{
}

/// Filling goes one request at a time. Where a worker is free and a chunk may be
/// requested, the first request that is started is for the chunk that goes next,
/// and what follows is what filling does after that. Otherwise nothing is started.
pub proof fn filling_goes_one_by_one(v: ReactorView, now_ns: u64)
    ensures
        ({
            let free = v.active.len() < v.config.urgent_workers + v.config.prefetch_workers;
            match v.next_index(now_ns) {
                Some(k) => if free {
                    &&& v.filled(now_ns) == v.requested(k, now_ns).filled(now_ns)
                    &&& v.filled(now_ns).active.len() > v.active.len()
                    &&& v.filled(now_ns).active[v.active.len() as int] == v.request_for(k, now_ns)
                } else {
                    v.filled(now_ns) == v
                },
                None => v.filled(now_ns) == v,
            }
        }),
{
    let free = v.active.len() < v.config.urgent_workers + v.config.prefetch_workers;
    if free {
        if let Some(k) = v.next_index(now_ns) {
            let next = v.requested(k, now_ns);
            lemma_filled_extends(next, now_ns);
            let n = v.active.len() as int;
            assert(v.filled(now_ns) == next.filled(now_ns));
            assert(next.active[n] == v.request_for(k, now_ns));
            assert(next.filled(now_ns).active[n] == next.active[n]);
        }
    }
}

proof fn lemma_filled_extends(v: ReactorView, now_ns: u64)
    ensures
        v.active.is_prefix_of(v.filled(now_ns).active),
    decreases slots(v.config) - v.active.len(),
{
    if v.active.len() < slots(v.config) {
        if let Some(k) = v.next_index(now_ns) {
            lemma_filled_extends(v.requested(k, now_ns), now_ns);
        }
    }
}

} // verus!
