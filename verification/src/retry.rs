//! Which chunks to request again, and when.

use crate::events::Lane;
use crate::reactor::{ChunkRequest, QueuedChunk, RequestState};
use crate::tracker::PAGE_SIZE;
use vstd::prelude::*;

verus! {

/// A chunk is requested at most this often.
pub const MAX_ATTEMPTS: u32 = 10;

/// The pause before the first retry of a chunk that holds up the frontier.
pub const FRONTIER_BACKOFF_MS: u64 = 500;

/// The pause before the first retry of another chunk.
pub const PREFETCH_BACKOFF_MS: u64 = 2_000;

/// The pause doubles with each retry, at most this often.
pub const MAX_DOUBLINGS: u32 = 4;

/// Nanoseconds in a millisecond.
pub const NS_PER_MS: u64 = 1_000_000;

/// `base` doubled `n` times.
pub open spec fn doubled(base: int, n: int) -> int
    decreases n,
{
    if n <= 0 {
        base
    } else {
        2 * doubled(base, n - 1)
    }
}

/// The pause in milliseconds before a chunk is requested again after attempt
/// `attempt`, counted from one.
pub open spec fn backoff(attempt: u32, blocks_frontier: bool) -> int {
    let retries = attempt - 1;
    let doublings = if retries < MAX_DOUBLINGS {
        retries
    } else {
        MAX_DOUBLINGS as int
    };
    let base = if blocks_frontier {
        FRONTIER_BACKOFF_MS
    } else {
        PREFETCH_BACKOFF_MS
    };
    doubled(base as int, doublings)
}

/// The pause in milliseconds before a chunk is requested again.
pub fn backoff_ms(attempt: u32, blocks_frontier: bool) -> (res: u64)
    requires
        attempt >= 1,
    ensures
        res == backoff(attempt, blocks_frontier),
        res <= 32_000,
{
    proof {
        reveal_with_fuel(doubled, 5);
    }
    let base: u64 = if blocks_frontier {
        FRONTIER_BACKOFF_MS
    } else {
        PREFETCH_BACKOFF_MS
    };
    match attempt - 1 {
        0 => base,
        1 => base * 2,
        2 => base * 4,
        3 => base * 8,
        _ => base * 16,
    }
}

/// A transfer of `bytes` bytes leaves a part of the requested range out.
pub open spec fn incomplete(state: RequestState, bytes: u64) -> bool {
    bytes < state.range_end - state.range_start + 1
}

/// What is left of a request that transferred `bytes` bytes begins at or near
/// the frontier.
pub open spec fn holds_up(state: RequestState, bytes: u64, frontier: u64) -> bool {
    state.range_start + bytes <= frontier + PAGE_SIZE
}

/// A time that is `ms` milliseconds after another, as far as the clock goes.
pub open spec fn later(now_ns: u64, ms: int) -> u64 {
    if now_ns + ms * NS_PER_MS > u64::MAX {
        u64::MAX
    } else {
        (now_ns + ms * NS_PER_MS) as u64
    }
}

/// What to request again of a request that transferred `bytes` bytes: what is
/// missing, unless the attempts are used up. Where it holds up the frontier it
/// goes to the urgent lane.
pub open spec fn requeued(
    state: RequestState,
    bytes: u64,
    frontier: u64,
    now_ns: u64,
) -> Option<QueuedChunk> {
    if incomplete(state, bytes) && state.attempt < MAX_ATTEMPTS {
        let blocks_frontier = holds_up(state, bytes, frontier);
        Some(
            QueuedChunk {
                chunk: ChunkRequest {
                    chunk_id: state.chunk_id,
                    range_start: (state.range_start + bytes) as u64,
                    range_end: state.range_end,
                    lane: if blocks_frontier {
                        Lane::Urgent
                    } else {
                        state.lane
                    },
                },
                attempt: (state.attempt + 1) as u32,
                ready_ns: later(now_ns, backoff(state.attempt, blocks_frontier)),
                blocks_frontier,
            },
        )
    } else {
        None
    }
}

/// What to request again of a request that transferred `bytes` bytes.
pub fn chunk_to_requeue(state: &RequestState, bytes: u64, frontier: u64, now_ns: u64) -> (res:
    Option<QueuedChunk>)
    requires
        state.range_start <= state.range_end,
        1 <= state.attempt,
    ensures
        res == requeued(*state, bytes, frontier, now_ns),
{
    if bytes <= state.range_end - state.range_start && state.attempt < MAX_ATTEMPTS {
        let suffix_start: u64 = state.range_start + bytes;
        let blocks_frontier: bool = suffix_start <= PAGE_SIZE || suffix_start - PAGE_SIZE
            <= frontier;
        let pause: u64 = backoff_ms(state.attempt, blocks_frontier);
        Some(
            QueuedChunk {
                chunk: ChunkRequest {
                    chunk_id: state.chunk_id,
                    range_start: suffix_start,
                    range_end: state.range_end,
                    lane: if blocks_frontier {
                        Lane::Urgent
                    } else {
                        state.lane
                    },
                },
                attempt: state.attempt + 1,
                ready_ns: now_ns.saturating_add(pause * NS_PER_MS),
                blocks_frontier,
            },
        )
    } else {
        None
    }
}

/// The retries of a chunk wait 0.5, 1, 2, 4 and then 8 seconds where it holds up
/// the frontier, and four times as long where it does not.
pub proof fn backoff_doubles(attempt: u32)
    requires
        1 <= attempt,
    ensures
        backoff(1, true) == 500,
        backoff(attempt, false) == 4 * backoff(attempt, true),
        attempt <= MAX_DOUBLINGS ==> backoff((attempt + 1) as u32, true) == 2 * backoff(
            attempt,
            true,
        ),
        attempt > MAX_DOUBLINGS ==> backoff(attempt, true) == 8_000,
{
    reveal_with_fuel(doubled, 5);
}

/// Any transfer that leaves something out is requested again until the attempts
/// are used up, whether or not it stalled. What is requested again is exactly
/// the rest of the range.
pub proof fn retry_asks_for_what_is_missing(
    state: RequestState,
    bytes: u64,
    frontier: u64,
    now_ns: u64,
)
    requires
        state.range_start <= state.range_end,
        1 <= state.attempt <= MAX_ATTEMPTS,
    ensures
        requeued(state, bytes, frontier, now_ns) is Some <==> bytes < state.range_end
            - state.range_start + 1 && state.attempt < MAX_ATTEMPTS,
        requeued(state, bytes, frontier, now_ns) matches Some(q) ==> {
            &&& q.chunk.chunk_id == state.chunk_id
            &&& q.chunk.range_start == state.range_start + bytes
            &&& q.chunk.range_end == state.range_end
            &&& q.chunk.range_start <= q.chunk.range_end
            &&& bytes + (q.chunk.range_end - q.chunk.range_start + 1) == state.range_end
                - state.range_start + 1
            &&& q.attempt == state.attempt + 1
            &&& q.ready_ns >= now_ns
        },
{
    reveal_with_fuel(doubled, 5);
}

/// What holds up the frontier goes to the urgent lane, whatever lane it was in,
/// and waits for a quarter of the time; what does not keeps its lane.
pub proof fn frontier_blocker_is_urgent(
    state: RequestState,
    bytes: u64,
    frontier: u64,
    now_ns: u64,
)
    requires
        state.range_start <= state.range_end,
        1 <= state.attempt < MAX_ATTEMPTS,
        incomplete(state, bytes),
    ensures
        requeued(state, bytes, frontier, now_ns) matches Some(q) && {
            &&& q.blocks_frontier <==> state.range_start + bytes <= frontier + PAGE_SIZE
            &&& q.blocks_frontier ==> q.chunk.lane == Lane::Urgent
            &&& !q.blocks_frontier ==> q.chunk.lane == state.lane
        },
        4 * backoff(state.attempt, true) == backoff(state.attempt, false),
{
    backoff_doubles(state.attempt);
}

/// A chunk is requested again if and only if something is missing and fewer than
/// ten attempts were made. It waits for half a second after the first attempt
/// where it holds up the frontier, for twice as long after each further one up to
/// eight seconds, and for four times as long where it does not. It holds up the
/// frontier where what is missing begins no more than a page behind it.
pub proof fn retries_wait_their_time(state: RequestState, bytes: u64, frontier: u64, now_ns: u64)
    requires
        state.range_start <= state.range_end,
        1 <= state.attempt,
    ensures
        requeued(state, bytes, frontier, now_ns) is Some <==> state.range_start + bytes
            <= state.range_end && state.attempt < 10,
        requeued(state, bytes, frontier, now_ns) matches Some(q) ==> {
            let near = state.range_start + bytes <= frontier + 131_072;
            let pause_ms = if state.attempt == 1 {
                500int
            } else if state.attempt == 2 {
                1_000
            } else if state.attempt == 3 {
                2_000
            } else if state.attempt == 4 {
                4_000
            } else {
                8_000
            };
            let ready = now_ns + 1_000_000 * (if near {
                pause_ms
            } else {
                4 * pause_ms
            });
            &&& q.blocks_frontier == near
            &&& ready <= u64::MAX ==> q.ready_ns == ready
            &&& ready > u64::MAX ==> q.ready_ns == u64::MAX
            &&& q.attempt == state.attempt + 1
            &&& q.chunk.chunk_id == state.chunk_id
            &&& q.chunk.range_start == state.range_start + bytes
            &&& q.chunk.range_end == state.range_end
            &&& near ==> q.chunk.lane == Lane::Urgent
            &&& !near ==> q.chunk.lane == state.lane
        },
{
    reveal_with_fuel(doubled, 5);
}

} // verus!
