//! Frontier tracking over a stream of trace events.
//!
//! Page completions move the frontier. Each move is announced in the trace just
//! before the event that caused it, and reported back to the scheduler. At the
//! end of a run the timeline becomes a capability envelope.

use crate::budget;
use crate::budget::SafeBudgetEstimator;
use crate::envelope::CapabilityEnvelope;
use crate::events::TraceEvent;
use crate::pages::PageCounter;
use crate::stable;
use crate::tracker;
use crate::tracker::{FrontierEvent, FrontierTracker, FrontierView, Throughput, STALL_THRESHOLD_MS};
use vstd::prelude::*;

verus! {

/// Nanoseconds in a millisecond.
pub const NS_PER_MS: u64 = 1_000_000;

/// A pause at the end of a run that is longer than this drains the simulated buffer.
pub const TAIL_DRAIN_THRESHOLD_MS: u64 = 100;

/// A longest stall above this is severe.
pub const SEVERE_STALL_MS: u64 = 5_000;

/// Configuration of a frontier run.
#[derive(Debug, Clone, Copy, PartialEq, Eq)]
pub struct FrontierRunConfig {
    pub page_size: u64,
    pub chunk_size_bytes: u64,
    pub urgent_workers: u32,
    pub prefetch_workers: u32,
    pub range_support: bool,
}

/// Result of a frontier-tracked run. Bitrates are in rate units.
#[derive(Debug, Clone, Copy, PartialEq, Eq)]
pub struct FrontierRunResult {
    pub envelope: CapabilityEnvelope,
    pub frontier_events_count: u32,
    pub final_frontier_bytes: u64,
    pub frontier_advance_rate: Option<Throughput>,
    pub frontier_stall_count: u32,
    pub max_frontier_stall_ms: u64,
    pub max_sustainable_bitrate: u64,
    pub safe_budget: u64,
    /// Wall-clock run duration.
    pub run_duration_ms: u64,
    /// Time from the last frontier advance to the end of the run.
    pub tail_drain_ms: u64,
}

/// The timeline after one more trace event: page completions move the frontier,
/// other events leave it.
pub open spec fn observed(view: FrontierView, event: TraceEvent) -> FrontierView {
    match event {
        TraceEvent::PageCompleted { page_index, timestamp_ns, .. } => view.page_completed(
            page_index as int,
            timestamp_ns / NS_PER_MS,
        ),
        _ => view,
    }
}

/// The page index of a page completion can be an index into memory.
pub open spec fn addressable(event: TraceEvent) -> bool {
    event matches TraceEvent::PageCompleted { page_index, .. } ==> page_index < isize::MAX
}

/// The frontier that one more trace event moves to, where it moves.
pub open spec fn moved_to(view: FrontierView, event: TraceEvent) -> Option<u64> {
    if observed(view, event).frontier() > view.frontier() {
        Some(observed(view, event).frontier() as u64)
    } else {
        None
    }
}

/// The event that announces a frontier.
pub open spec fn announcement(frontier: u64, page_size: u64, cause: TraceEvent) -> TraceEvent {
    TraceEvent::FrontierAdvanced {
        frontier_byte: frontier,
        frontier_page: frontier / page_size,
        contiguous_bytes: frontier,
        timestamp_ns: cause->PageCompleted_timestamp_ns,
    }
}

/// What the trace holds for one event: the event itself, after the announcement
/// of a frontier that it moved.
pub open spec fn traced(view: FrontierView, event: TraceEvent) -> Seq<TraceEvent> {
    match moved_to(view, event) {
        Some(frontier) => seq![announcement(frontier, view.page_size, event), event],
        None => seq![event],
    }
}

/// The timeline after all of `events`.
pub open spec fn observed_all(view: FrontierView, events: Seq<TraceEvent>) -> FrontierView
    decreases events.len(),
{
    if events.len() == 0 {
        view
    } else {
        observed(observed_all(view, events.drop_last()), events.last())
    }
}

/// The trace of all of `events`.
pub open spec fn traced_all(view: FrontierView, events: Seq<TraceEvent>) -> Seq<TraceEvent>
    decreases events.len(),
{
    if events.len() == 0 {
        Seq::empty()
    } else {
        traced_all(view, events.drop_last()) + traced(
            observed_all(view, events.drop_last()),
            events.last(),
        )
    }
}

/// The frontiers that `events` move to, in order.
pub open spec fn feedback_all(view: FrontierView, events: Seq<TraceEvent>) -> Seq<u64>
    decreases events.len(),
{
    if events.len() == 0 {
        Seq::empty()
    } else {
        let before = feedback_all(view, events.drop_last());
        match moved_to(observed_all(view, events.drop_last()), events.last()) {
            Some(frontier) => before.push(frontier),
            None => before,
        }
    }
}

/// A timeline with nothing on it.
pub open spec fn empty_timeline(page_size: u64) -> FrontierView {
    FrontierView { page_size, pages: Seq::empty(), events: Seq::empty() }
}

/// The frontier events of a run that ended at `wall_elapsed_ms`. A pause at the
/// end shows as a last event without any advance, so that it drains the buffer
/// in the simulation.
pub open spec fn with_tail_drain(
    events: Seq<FrontierEvent>,
    wall_elapsed_ms: u64,
) -> Seq<FrontierEvent> {
    if events.len() > 0 && wall_elapsed_ms > events.last().t_ms + TAIL_DRAIN_THRESHOLD_MS {
        events.push(
            FrontierEvent {
                t_ms: wall_elapsed_ms,
                contiguous_frontier_bytes: events.last().contiguous_frontier_bytes,
                delta_contiguous_bytes: 0,
            },
        )
    } else {
        events
    }
}

/// The time from the last frontier advance to the end of the run; the whole run
/// where the frontier never moved.
pub open spec fn tail_drain(events: Seq<FrontierEvent>, wall_elapsed_ms: u64) -> u64 {
    if events.len() == 0 {
        wall_elapsed_ms
    } else if wall_elapsed_ms > events.last().t_ms {
        (wall_elapsed_ms - events.last().t_ms) as u64
    } else {
        0
    }
}

/// The stability penalty in tenths: one for each stall up to five, and three or
/// five for a long or severe longest stall.
pub open spec fn stability_penalty(stall_count: u32, max_stall_ms: u64) -> u32 {
    let by_count: u32 = if stall_count < 5 {
        stall_count
    } else {
        5
    };
    let by_duration: u32 = if max_stall_ms > SEVERE_STALL_MS {
        5
    } else if max_stall_ms > STALL_THRESHOLD_MS {
        3
    } else {
        0
    };
    (by_count + by_duration) as u32
}

/// The stalls of a timeline, where a long pause at the end counts as one.
pub open spec fn effective_stalls(view: FrontierView, wall_elapsed_ms: u64) -> u32 {
    (tracker::stall_count(view.events) + if tail_drain(view.events, wall_elapsed_ms)
        > STALL_THRESHOLD_MS {
        1int
    } else {
        0int
    }) as u32
}

/// The longest pause of a timeline, the one at the end among them.
pub open spec fn effective_longest(view: FrontierView, wall_elapsed_ms: u64) -> u64 {
    let longest = tracker::longest_gap(view.events) as u64;
    let tail = tail_drain(view.events, wall_elapsed_ms);
    if longest > tail {
        longest
    } else {
        tail
    }
}

/// The result of a run.
pub open spec fn run_result(
    view: FrontierView,
    config: FrontierRunConfig,
    wall_elapsed_ms: u64,
    measured_at_ms: u64,
) -> FrontierRunResult {
    let rate = Throughput {
        bytes: view.frontier() as u64,
        elapsed_ms: if wall_elapsed_ms > 1 {
            wall_elapsed_ms
        } else {
            1
        },
    };
    let stalls = effective_stalls(view, wall_elapsed_ms);
    let longest = effective_longest(view, wall_elapsed_ms);
    let search = budget::search_result(with_tail_drain(view.events, wall_elapsed_ms));
    FrontierRunResult {
        envelope: CapabilityEnvelope {
            max_safe_urgent_workers: config.urgent_workers,
            max_safe_prefetch_workers: config.prefetch_workers,
            max_safe_urgent_chunk_bytes: config.chunk_size_bytes,
            max_safe_prefetch_chunk_bytes: (config.chunk_size_bytes * 2) as u64,
            sustained_throughput: rate,
            p10_throughput: None,
            seek_ttfb_p50_ms: None,
            stability_penalty_tenths: stability_penalty(stalls, longest),
            supports_range_requests: config.range_support,
            measured_at_ms,
        },
        frontier_events_count: view.events.len() as u32,
        final_frontier_bytes: view.frontier() as u64,
        frontier_advance_rate: Some(rate),
        frontier_stall_count: stalls,
        max_frontier_stall_ms: longest,
        max_sustainable_bitrate: search.max_sustainable_bitrate,
        safe_budget: search.safe_budget,
        run_duration_ms: wall_elapsed_ms,
        tail_drain_ms: tail_drain(view.events, wall_elapsed_ms),
    }
}

/// The stability penalty in tenths for a number of stalls and the longest of them.
pub fn compute_stability_penalty(stall_count: u32, max_stall_ms: u64) -> (res: u32)
    ensures
        res == stability_penalty(stall_count, max_stall_ms),
{
    let count_penalty: u32 = if stall_count < 5 {
        stall_count
    } else {
        5
    };
    let duration_penalty: u32 = if max_stall_ms > SEVERE_STALL_MS {
        5
    } else if max_stall_ms > STALL_THRESHOLD_MS {
        3
    } else {
        0
    };
    count_penalty + duration_penalty
}

/// Follows the frontier through a stream of trace events.
pub struct FrontierRunner {
    tracker: FrontierTracker,
    config: FrontierRunConfig,
}

/// A frontier that moved: its announcement for the trace, and the new frontier
/// for the scheduler.
#[derive(Debug, Clone)]
pub struct FrontierMove {
    pub announcement: TraceEvent,
    pub frontier: u64,
}

impl View for FrontierRunner {
    type V = FrontierView;

    closed spec fn view(&self) -> FrontierView {
        self.tracker@
    }
}

proof fn lemma_stalls_below_events(events: Seq<FrontierEvent>)
    ensures
        events.len() == 0 ==> tracker::stall_count(events) == 0,
        events.len() > 0 ==> tracker::stall_count(events) < events.len(),
    decreases events.len(),
{
    if events.len() >= 2 {
        lemma_stalls_below_events(events.drop_last());
    }
}

impl FrontierRunner {
    /// The runner's timeline is well formed.
    pub closed spec fn wf(&self) -> bool {
        &&& self.tracker.wf()
        &&& self.tracker@.page_size == self.config.page_size
    }

    /// The configuration that the runner was made with.
    pub closed spec fn configuration(&self) -> FrontierRunConfig {
        self.config
    }

    /// A runner with an empty timeline.
    pub fn new(config: FrontierRunConfig) -> (res: Self)
        ensures
            res.wf(),
            res@ == empty_timeline(config.page_size),
            res.configuration() == config,
    {
        Self { tracker: FrontierTracker::with_page_size(config.page_size), config }
    }

    /// The number of frontier events so far.
    pub fn events_recorded(&self) -> (res: usize)
        ensures
            res == self@.events.len(),
    {
        self.tracker.frontier_events().len()
    }

    /// Take one trace event into account. Where the frontier moves, its
    /// announcement belongs into the trace before the event itself.
    pub fn on_event(&mut self, event: &TraceEvent) -> (res: Option<FrontierMove>)
        requires
            old(self).wf(),
            addressable(*event),
            observed(old(self)@, *event).fits(),
        ensures
            final(self).wf(),
            final(self).configuration() == old(self).configuration(),
            final(self)@ == observed(old(self)@, *event),
            match moved_to(old(self)@, *event) {
                Some(frontier) => res == Some(
                    FrontierMove {
                        announcement: announcement(frontier, old(self)@.page_size, *event),
                        frontier,
                    },
                ),
                None => res is None,
            },
    {
        match event {
            TraceEvent::PageCompleted { page_index, timestamp_ns, .. } => {
                let t_ms: u64 = *timestamp_ns / NS_PER_MS;
                proof {
                    tracker::lemma_fits(observed(self@, *event));
                }
                let previous = self.tracker.contiguous_frontier_bytes();
                self.tracker.on_page_completed(*page_index, t_ms);
                let frontier = self.tracker.contiguous_frontier_bytes();
                if frontier > previous {
                    let page_size = self.config.page_size;
                    assert(page_size > 0) by (nonlinear_arith)
                        requires
                            frontier == tracker::prefix_len(self@.pages) * page_size,
                            frontier > 0,
                    ;
                    Some(
                        FrontierMove {
                            announcement: TraceEvent::FrontierAdvanced {
                                frontier_byte: frontier,
                                frontier_page: frontier / page_size,
                                contiguous_bytes: frontier,
                                timestamp_ns: *timestamp_ns,
                            },
                            frontier,
                        },
                    )
                } else {
                    None
                }
            },
            _ => None,
        }
    }

    /// The result of a run that took `wall_elapsed_ms`. The wall clock counts,
    /// not the last event: the frontier may have stopped long before the end.
    pub fn finish(&self, wall_elapsed_ms: u64, measured_at_ms: u64) -> (res: FrontierRunResult)
        requires
            self.wf(),
            self@.events.len() < u32::MAX,
            self.configuration().chunk_size_bytes * 2 <= u64::MAX,
        ensures
            res == run_result(self@, self.configuration(), wall_elapsed_ms, measured_at_ms),
            res.final_frontier_bytes == self@.frontier(),
            res.envelope.sustained_throughput.bytes == self@.frontier(),
            wall_elapsed_ms >= 1 ==> res.envelope.sustained_throughput.elapsed_ms
                == wall_elapsed_ms,
            res.frontier_advance_rate == Some(res.envelope.sustained_throughput),
    {
        let elapsed_ms: u64 = if wall_elapsed_ms > 1 {
            wall_elapsed_ms
        } else {
            1
        };
        let metrics = self.tracker.compute_metrics(elapsed_ms);
        let events = self.tracker.frontier_events();
        let mut sim_events: Vec<FrontierEvent> = Vec::new();
        let mut i: usize = 0;
        while i < events.len()
            invariant
                i <= events@.len(),
                sim_events@ == events@.take(i as int),
            decreases events@.len() - i,
        {
            sim_events.push(events[i]);
            assert(sim_events@ =~= events@.take(i + 1));
            i += 1;
        }
        assert(sim_events@ =~= events@);
        let mut tail_drain_ms: u64 = wall_elapsed_ms;
        if events.len() > 0 {
            let last = events[events.len() - 1];
            tail_drain_ms = wall_elapsed_ms.saturating_sub(last.t_ms);
            if tail_drain_ms > TAIL_DRAIN_THRESHOLD_MS {
                sim_events.push(
                    FrontierEvent {
                        t_ms: wall_elapsed_ms,
                        contiguous_frontier_bytes: last.contiguous_frontier_bytes,
                        delta_contiguous_bytes: 0,
                    },
                );
            }
        }
        assert(sim_events@ =~= with_tail_drain(self@.events, wall_elapsed_ms));
        let estimator = SafeBudgetEstimator::new();
        let search = estimator.find_max_sustainable_bitrate(sim_events.as_slice());
        proof {
            lemma_stalls_below_events(self@.events);
        }
        let effective_max_stall: u64 = if metrics.max_frontier_stall_ms > tail_drain_ms {
            metrics.max_frontier_stall_ms
        } else {
            tail_drain_ms
        };
        let effective_stall_count: u32 = if tail_drain_ms > STALL_THRESHOLD_MS {
            metrics.frontier_stall_count + 1
        } else {
            metrics.frontier_stall_count
        };
        let sustained = match metrics.frontier_advance_rate {
            Some(rate) => rate,
            None => Throughput { bytes: 0, elapsed_ms: 1 },
        };
        let envelope = CapabilityEnvelope {
            max_safe_urgent_workers: self.config.urgent_workers,
            max_safe_prefetch_workers: self.config.prefetch_workers,
            max_safe_urgent_chunk_bytes: self.config.chunk_size_bytes,
            max_safe_prefetch_chunk_bytes: self.config.chunk_size_bytes * 2,
            sustained_throughput: sustained,
            p10_throughput: None,
            seek_ttfb_p50_ms: None,
            stability_penalty_tenths: compute_stability_penalty(
                effective_stall_count,
                effective_max_stall,
            ),
            supports_range_requests: self.config.range_support,
            measured_at_ms,
        };
        FrontierRunResult {
            envelope,
            frontier_events_count: metrics.total_frontier_events,
            final_frontier_bytes: metrics.final_frontier_bytes,
            frontier_advance_rate: metrics.frontier_advance_rate,
            frontier_stall_count: effective_stall_count,
            max_frontier_stall_ms: effective_max_stall,
            max_sustainable_bitrate: search.max_sustainable_bitrate,
            safe_budget: search.safe_budget,
            run_duration_ms: wall_elapsed_ms,
            tail_drain_ms,
        }
    }
}

/// A whole run: its result, the trace, and the frontiers reported to the scheduler.
#[derive(Debug, Clone)]
pub struct FrontierRun {
    pub result: FrontierRunResult,
    pub trace: Vec<TraceEvent>,
    pub feedback: Vec<u64>,
}

/// More trace events never move the frontier back.
pub proof fn tracking_is_monotone(view: FrontierView, events: Seq<TraceEvent>, n: int)
    requires
        0 <= n <= events.len(),
    ensures
        observed_all(view, events.take(n)).frontier() <= observed_all(view, events).frontier(),
    decreases events.len() - n,
{
    if n < events.len() {
        tracking_is_monotone(view, events, n + 1);
        let before = observed_all(view, events.take(n));
        let longer = events.take(n + 1);
        assert(longer.drop_last() =~= events.take(n));
        assert(longer.last() == events[n]);
        match events[n] {
            TraceEvent::PageCompleted { page_index, timestamp_ns, .. } => {
                tracker::frontier_is_monotone(before, page_index as int, timestamp_ns / NS_PER_MS);
            },
            _ => {},
        }
    } else {
        assert(events.take(n) =~= events);
    }
}

proof fn lemma_events_recorded(view: FrontierView, events: Seq<TraceEvent>)
    ensures
        observed_all(view, events).events.len() <= view.events.len() + events.len(),
        observed_all(view, events).page_size == view.page_size,
        feedback_all(view, events).len() <= events.len(),
    decreases events.len(),
{
    if events.len() > 0 {
        lemma_events_recorded(view, events.drop_last());
    }
}

/// The index of the page that an event completes takes no more than 32 bits.
pub open spec fn low_page(event: TraceEvent) -> bool {
    event matches TraceEvent::PageCompleted { page_index, .. } ==> page_index < u32::MAX
}

/// Where all page indices take no more than 32 bits, so does the number of pages.
proof fn lemma_few_pages(page_size: u64, events: Seq<TraceEvent>)
    requires
        forall|i: int| 0 <= i < events.len() ==> low_page(#[trigger] events[i]),
    ensures
        observed_all(empty_timeline(page_size), events).pages.len() <= u32::MAX,
        observed_all(empty_timeline(page_size), events).page_size == page_size,
    decreases events.len(),
{
    if events.len() > 0 {
        let shorter = events.drop_last();
        assert forall|i: int| 0 <= i < shorter.len() implies low_page(#[trigger] shorter[i]) by {
            assert(shorter[i] == events[i]);
        }
        lemma_few_pages(page_size, shorter);
        assert(low_page(events[events.len() - 1]));
    }
}

/// Track the frontier through the trace events of a run that took
/// `wall_elapsed_ms`.
pub fn run_frontier_tracker(
    events: Vec<TraceEvent>,
    wall_elapsed_ms: u64,
    measured_at_ms: u64,
    config: FrontierRunConfig,
) -> (res: FrontierRun)
    requires
        forall|i: int| 0 <= i < events@.len() ==> addressable(#[trigger] events@[i]),
        (config.page_size <= u32::MAX && forall|i: int|
            0 <= i < events@.len() ==> low_page(#[trigger] events@[i])) || observed_all(
            empty_timeline(config.page_size),
            events@,
        ).frontier() <= u64::MAX,
        events@.len() < u32::MAX || observed_all(
            empty_timeline(config.page_size),
            events@,
        ).events.len() < u32::MAX,
        config.chunk_size_bytes * 2 <= u64::MAX,
    ensures
        res.result == run_result(
            observed_all(empty_timeline(config.page_size), events@),
            config,
            wall_elapsed_ms,
            measured_at_ms,
        ),
        res.trace@ == traced_all(empty_timeline(config.page_size), events@),
        res.feedback@ == feedback_all(empty_timeline(config.page_size), events@),
{
    let ghost start = empty_timeline(config.page_size);
    let ghost all = events@;
    proof {
        lemma_events_recorded(start, all);
        if config.page_size <= u32::MAX && forall|i: int|
            0 <= i < all.len() ==> low_page(#[trigger] all[i]) {
            lemma_few_pages(config.page_size, all);
            tracker::lemma_fits(observed_all(start, all));
        }
    }
    let mut runner = FrontierRunner::new(config);
    let mut trace: Vec<TraceEvent> = Vec::new();
    let mut feedback: Vec<u64> = Vec::new();
    for event in iter: events.into_iter()
        invariant
            start == empty_timeline(config.page_size),
            iter.seq() == all,
            forall|i: int| 0 <= i < all.len() ==> addressable(#[trigger] all[i]),
            observed_all(start, all).frontier() <= u64::MAX,
            runner.wf(),
            runner.configuration() == config,
            runner@ == observed_all(start, all.take(iter.index())),
            trace@ == traced_all(start, all.take(iter.index())),
            feedback@ == feedback_all(start, all.take(iter.index())),
    {
        let ghost n = iter.index();
        let ghost longer = all.take(n + 1);
        let ghost recorded = trace@;
        proof {
            assert(longer.drop_last() =~= all.take(n));
            assert(longer.last() == event);
            tracking_is_monotone(start, all, n + 1);
            lemma_events_recorded(start, all.take(n));
        }
        match runner.on_event(&event) {
            Some(moved) => {
                trace.push(moved.announcement);
                feedback.push(moved.frontier);
            },
            None => {},
        }
        trace.push(event);
        assert(trace@ =~= recorded + traced(observed_all(start, all.take(n)), event));
    }
    assert(all.take(all.len() as int) =~= all);
    FrontierRun { result: runner.finish(wall_elapsed_ms, measured_at_ms), trace, feedback }
}

/// A run may be followed in two parts: the timeline, the trace and the reported
/// frontiers are those of the whole.
pub proof fn run_may_be_split(view: FrontierView, first: Seq<TraceEvent>, second: Seq<TraceEvent>)
    ensures
        observed_all(view, first + second) == observed_all(observed_all(view, first), second),
        traced_all(view, first + second) == traced_all(view, first) + traced_all(
            observed_all(view, first),
            second,
        ),
        feedback_all(view, first + second) == feedback_all(view, first) + feedback_all(
            observed_all(view, first),
            second,
        ),
    decreases second.len(),
{
    let middle = observed_all(view, first);
    if second.len() == 0 {
        assert(first + second =~= first);
        assert(traced_all(view, first) + traced_all(middle, second) =~= traced_all(view, first));
        assert(feedback_all(view, first) + feedback_all(middle, second) =~= feedback_all(
            view,
            first,
        ));
    } else {
        let whole = first + second;
        run_may_be_split(view, first, second.drop_last());
        assert(whole.drop_last() =~= first + second.drop_last());
        assert(whole.last() == second.last());
        assert(traced_all(view, whole) =~= traced_all(view, first) + traced_all(middle, second));
        assert(feedback_all(view, whole) =~= feedback_all(view, first) + feedback_all(
            middle,
            second,
        ));
    }
}

/// The event announces a frontier.
pub open spec fn is_announcement(event: TraceEvent) -> bool {
    event is FrontierAdvanced
}

/// The trace keeps every event in its place: without announcements it is the
/// sequence of events itself.
pub proof fn trace_keeps_events(view: FrontierView, events: Seq<TraceEvent>)
    ensures
        traced_all(view, events).filter(|e: TraceEvent| !is_announcement(e)) == events.filter(
            |e: TraceEvent| !is_announcement(e),
        ),
    decreases events.len(),
{
    let keep = |e: TraceEvent| !is_announcement(e);
    if events.len() > 0 {
        let before = traced_all(view, events.drop_last());
        let middle = observed_all(view, events.drop_last());
        let last = events.last();
        trace_keeps_events(view, events.drop_last());
        Seq::filter_distributes_over_add(before, traced(middle, last), keep);
        Seq::filter_distributes_over_add(events.drop_last(), seq![last], keep);
        assert(events.drop_last() + seq![last] =~= events);
        assert(traced(middle, last).filter(keep) =~= seq![last].filter(keep)) by {
            if let Some(frontier) = moved_to(middle, last) {
                let note = announcement(frontier, middle.page_size, last);
                Seq::filter_distributes_over_add(seq![note], seq![last], keep);
                assert(seq![note] + seq![last] =~= traced(middle, last));
                assert(seq![note].filter(keep) =~= Seq::empty()) by {
                    reveal_with_fuel(Seq::filter, 2);
                }
                assert(Seq::<TraceEvent>::empty() + seq![last].filter(keep) =~= seq![last].filter(
                    keep,
                ));
            }
        }
    }
}

/// An event that moves the frontier is a page completion. Its announcement stands
/// right before it, carries its time, and names the new frontier, which is the
/// start of the page that it names. Any other event stands alone.
pub proof fn moves_are_announced(view: FrontierView, event: TraceEvent)
    requires
        observed(view, event).frontier() <= u64::MAX,
    ensures
        match moved_to(view, event) {
            Some(frontier) => {
                &&& event is PageCompleted
                &&& frontier == observed(view, event).frontier()
                &&& frontier > view.frontier()
                &&& traced(view, event).len() == 2
                &&& traced(view, event)[0] matches TraceEvent::FrontierAdvanced {
                    frontier_byte,
                    frontier_page,
                    contiguous_bytes,
                    timestamp_ns,
                }
                &&& frontier_byte == frontier
                &&& contiguous_bytes == frontier
                &&& frontier_page * view.page_size == frontier
                &&& timestamp_ns == event->PageCompleted_timestamp_ns
                &&& traced(view, event)[1] == event
            },
            None => {
                &&& observed(view, event).frontier() <= view.frontier()
                &&& traced(view, event) == seq![event]
            },
        },
{
    if let Some(frontier) = moved_to(view, event) {
        let pages = tracker::prefix_len(observed(view, event).pages) as int;
        let size = view.page_size as int;
        assert(view.frontier() >= 0) by (nonlinear_arith)
            requires
                view.frontier() == tracker::prefix_len(view.pages) * view.page_size,
        ;
        assert(frontier == pages * size);
        assert(size > 0) by (nonlinear_arith)
            requires
                pages * size > 0,
                size >= 0,
        ;
        vstd::arithmetic::div_mod::lemma_div_by_multiple(pages, size);
    }
}

/// The announcements in a trace name the frontiers that the scheduler is told,
/// in the same order.
pub proof fn announcements_match_feedback(view: FrontierView, events: Seq<TraceEvent>)
    requires
        forall|i: int| 0 <= i < events.len() ==> !is_announcement(#[trigger] events[i]),
    ensures
        ({
            let notes = traced_all(view, events).filter(|e: TraceEvent| is_announcement(e));
            let told = feedback_all(view, events);
            &&& notes.len() == told.len()
            &&& forall|i: int|
                0 <= i < notes.len() ==> (#[trigger] notes[i])->frontier_byte == told[i]
        }),
    decreases events.len(),
{
    let keep = |e: TraceEvent| is_announcement(e);
    if events.len() == 0 {
        reveal(Seq::filter);
    } else {
        let shorter = events.drop_last();
        let before = traced_all(view, shorter);
        let middle = observed_all(view, shorter);
        let last = events.last();
        assert forall|i: int| 0 <= i < shorter.len() implies !is_announcement(
            #[trigger] shorter[i],
        ) by {
            assert(shorter[i] == events[i]);
        }
        announcements_match_feedback(view, shorter);
        Seq::filter_distributes_over_add(before, traced(middle, last), keep);
        assert(!is_announcement(events[events.len() - 1]));
        assert(seq![last].filter(keep) =~= Seq::empty()) by {
            reveal_with_fuel(Seq::filter, 2);
        }
        match moved_to(middle, last) {
            Some(frontier) => {
                let note = announcement(frontier, middle.page_size, last);
                Seq::filter_distributes_over_add(seq![note], seq![last], keep);
                assert(seq![note] + seq![last] =~= traced(middle, last));
                assert(seq![note].filter(keep) =~= seq![note]) by {
                    reveal_with_fuel(Seq::filter, 2);
                }
                assert(traced_all(view, events).filter(keep) =~= before.filter(keep).push(note));
            },
            None => {
                assert(traced_all(view, events).filter(keep) =~= before.filter(keep));
            },
        }
    }
}

/// The scheduler is told every frontier of the timeline and nothing else, each
/// larger than the one before, and the last one is where the run ends.
pub proof fn feedback_tells_frontiers(page_size: u64, events: Seq<TraceEvent>)
    requires
        observed_all(empty_timeline(page_size), events).frontier() <= u64::MAX,
    ensures
        ({
            let timeline = observed_all(empty_timeline(page_size), events);
            let told = feedback_all(empty_timeline(page_size), events);
            &&& told == timeline.events.map_values(|e: FrontierEvent| e.contiguous_frontier_bytes)
            &&& forall|i: int, j: int| 0 <= i < j < told.len() ==> told[i] < told[j]
            &&& timeline.frontier() == if told.len() == 0 {
                0
            } else {
                told.last() as int
            }
        }),
    decreases events.len(),
{
    let start = empty_timeline(page_size);
    let timeline = observed_all(start, events);
    let told = feedback_all(start, events);
    if events.len() == 0 {
        assert(0 * page_size == 0) by (nonlinear_arith);
        assert(told =~= timeline.events.map_values(
            |e: FrontierEvent| e.contiguous_frontier_bytes,
        ));
    } else {
        let shorter = events.drop_last();
        assert(events.take(events.len() - 1) =~= shorter);
        tracking_is_monotone(start, events, events.len() - 1);
        feedback_tells_frontiers(page_size, shorter);
        let before = observed_all(start, shorter);
        assert(told =~= timeline.events.map_values(
            |e: FrontierEvent| e.contiguous_frontier_bytes,
        ));
        match moved_to(before, events.last()) {
            Some(frontier) => {
                assert forall|i: int, j: int| 0 <= i < j < told.len() implies told[i] < told[j] by {
                    let earlier = feedback_all(start, shorter);
                    assert(told =~= earlier.push(frontier));
                    if j == told.len() - 1 && i < earlier.len() - 1 {
                        assert(earlier[i] < earlier[earlier.len() - 1]);
                    }
                }
            },
            None => {
                match events.last() {
                    TraceEvent::PageCompleted { page_index, timestamp_ns, .. } => {
                        tracker::frontier_is_monotone(
                            before,
                            page_index as int,
                            timestamp_ns / NS_PER_MS,
                        );
                    },
                    _ => {},
                }
            },
        }
    }
}

/// The penalty lies between none and the whole, it is none if and only if there
/// is no stall, and more or longer stalls never lower it.
pub proof fn penalty_grows_with_stalls(count: u32, more: u32, longest: u64, longer: u64)
    requires
        count <= more,
        longest <= longer,
    ensures
        stability_penalty(count, longest) <= 10,
        stability_penalty(count, longest) == 0 <==> count == 0 && longest <= STALL_THRESHOLD_MS,
        stability_penalty(count, longest) <= stability_penalty(more, longer),
{
}

proof fn lemma_fewer_survivors(
    events: Seq<FrontierEvent>,
    harder: Seq<FrontierEvent>,
    lo: u64,
    hi: u64,
)
    requires
        lo <= hi,
        forall|rate: u64|
            (#[trigger] budget::simulation(harder, rate)).survived ==> budget::simulation(
                events,
                rate,
            ).survived,
    ensures
        budget::bisect(harder, lo, hi).lo <= budget::bisect(events, lo, hi).lo,
    decreases hi - lo,
{
    if hi - lo > budget::SEARCH_TOLERANCE {
        let mid = ((lo + hi) / 2) as u64;
        lemma_fewer_survivors(events, harder, mid, hi);
        lemma_fewer_survivors(events, harder, lo, mid);
        budget::bisection_brackets(events, mid, hi);
        budget::bisection_brackets(harder, lo, mid);
        assert(budget::simulation(harder, mid).survived ==> budget::simulation(
            events,
            mid,
        ).survived);
    }
}

/// Counting the pause at the end of a run never raises the bitrate that the run
/// is found to sustain, nor the budget.
pub proof fn tail_drain_never_raises_budget(events: Seq<FrontierEvent>, wall_elapsed_ms: u64)
    requires
        events.len() >= 2,
        forall|i: int| 0 <= i < events.len() ==> (#[trigger] events[i]).t_ms <= wall_elapsed_ms,
    ensures
        budget::search_result(
            with_tail_drain(events, wall_elapsed_ms),
        ).max_sustainable_bitrate <= budget::search_result(events).max_sustainable_bitrate,
        budget::search_result(with_tail_drain(events, wall_elapsed_ms)).safe_budget
            <= budget::search_result(events).safe_budget,
{
    let longer = with_tail_drain(events, wall_elapsed_ms);
    if longer != events {
        let key = |e: FrontierEvent| e.t_ms as int;
        let tail = longer.last();
        let sorted = budget::by_time(events);
        assert(longer =~= events.push(tail));
        stable::sort_is_stable(events, key);
        stable::sort_keeps_bound(events, key, key(tail));
        assert(events.push(tail).drop_last() =~= events);
        stable::lemma_insert_at(sorted, tail, key, sorted.len() as int);
        assert(sorted.insert(sorted.len() as int, tail) =~= sorted.push(tail));
        assert(budget::by_time(longer) =~= sorted.push(tail));
        assert forall|rate: u64| (#[trigger] budget::simulation(
            sorted.push(tail),
            rate,
        )).survived implies budget::simulation(sorted, rate).survived by {
            budget::tail_drain_only_lowers(sorted, tail, rate);
        }
        lemma_fewer_survivors(
            sorted,
            sorted.push(tail),
            budget::MIN_BITRATE,
            budget::MAX_BITRATE,
        );
        budget::bisection_brackets(sorted, budget::MIN_BITRATE, budget::MAX_BITRATE);
        budget::bisection_brackets(sorted.push(tail), budget::MIN_BITRATE, budget::MAX_BITRATE);
    }
}

/// The bitrate and the budget of a run are those of its frontier events, with one
/// more without any advance where the run went on for more than 100 milliseconds
/// after the last of them. That one is neither counted nor told to the scheduler.
pub proof fn budget_counts_the_tail(
    events: Seq<TraceEvent>,
    config: FrontierRunConfig,
    wall_elapsed_ms: u64,
    measured_at_ms: u64,
)
    requires
        observed_all(empty_timeline(config.page_size), events).frontier() <= u64::MAX,
        observed_all(empty_timeline(config.page_size), events).events.len() < u32::MAX,
    ensures
        ({
            let timeline = observed_all(empty_timeline(config.page_size), events);
            let last = timeline.events.last();
            let told = feedback_all(empty_timeline(config.page_size), events);
            let result = run_result(timeline, config, wall_elapsed_ms, measured_at_ms);
            let search = if timeline.events.len() > 0 && wall_elapsed_ms > last.t_ms + 100 {
                budget::search_result(
                    timeline.events.push(
                        FrontierEvent {
                            t_ms: wall_elapsed_ms,
                            contiguous_frontier_bytes: last.contiguous_frontier_bytes,
                            delta_contiguous_bytes: 0,
                        },
                    ),
                )
            } else {
                budget::search_result(timeline.events)
            };
            &&& result.max_sustainable_bitrate == search.max_sustainable_bitrate
            &&& result.safe_budget == search.safe_budget
            &&& result.run_duration_ms == wall_elapsed_ms
            &&& result.frontier_events_count == timeline.events.len()
            &&& told.len() == timeline.events.len()
        }),
{
    feedback_tells_frontiers(config.page_size, events);
}

proof fn lemma_received_pages(counter: PageCounter, len: int, timestamp_ns: u64, k: int)
    requires
        counter.wf(),
        counter.current_page_index == 0,
        counter.current_page_bytes == 0,
        0 <= len,
        len <= u64::MAX,
        0 <= k <= counter.pages_filled(len),
    ensures
        ({
            let after = observed_all(
                empty_timeline(counter.page_size),
                counter.events(len, timestamp_ns).take(k),
            );
            &&& after.pages == Seq::new(k as nat, |i: int| true)
            &&& after.page_size == counter.page_size
        }),
    decreases k,
{
    let events = counter.events(len, timestamp_ns);
    let start = empty_timeline(counter.page_size);
    if k == 0 {
        assert(observed_all(start, events.take(0)).pages =~= Seq::new(0, |i: int| true));
    } else {
        lemma_received_pages(counter, len, timestamp_ns, k - 1);
        let before = observed_all(start, events.take(k - 1));
        assert(events.take(k).drop_last() =~= events.take(k - 1));
        assert(events.take(k).last() == counter.full_page(k - 1, timestamp_ns));
        assert(k - 1 <= u64::MAX) by {
            vstd::arithmetic::div_mod::lemma_div_is_ordered_by_denominator(
                len,
                1,
                counter.page_size as int,
            );
        }
        assert(observed_all(start, events.take(k)).pages =~= Seq::new(k as nat, |i: int| true));
    }
}

/// The pages that a download from the start of a file fills move the frontier
/// over all of them: it stands where the first page begins that is not full.
pub proof fn received_pages_move_frontier(counter: PageCounter, len: int, timestamp_ns: u64)
    requires
        counter.wf(),
        counter.current_page_index == 0,
        counter.current_page_bytes == 0,
        0 <= len <= u64::MAX,
    ensures
        observed_all(
            empty_timeline(counter.page_size),
            counter.events(len, timestamp_ns),
        ).frontier() == len - len % counter.page_size as int,
{
    let events = counter.events(len, timestamp_ns);
    let size = counter.page_size as int;
    let n = counter.pages_filled(len);
    vstd::arithmetic::div_mod::lemma_div_pos_is_pos(len, size);
    vstd::arithmetic::div_mod::lemma_fundamental_div_mod(len, size);
    lemma_received_pages(counter, len, timestamp_ns, n);
    assert(events.take(n) =~= events);
    let after = observed_all(empty_timeline(counter.page_size), events);
    tracker::lemma_prefix_len(after.pages, n);
    assert(n * size == size * n) by (nonlinear_arith);
}

/// A frontier that stays frozen for the last two seconds of a run and longer
/// counts as a stall: it shows in the number of stalls, in the longest one and
/// in the penalty.
pub proof fn frozen_tail_is_a_stall(view: FrontierView, wall_elapsed_ms: u64)
    requires
        view.events.len() < u32::MAX,
        tail_drain(view.events, wall_elapsed_ms) > STALL_THRESHOLD_MS,
    ensures
        effective_stalls(view, wall_elapsed_ms) == tracker::stall_count(view.events) + 1,
        effective_longest(view, wall_elapsed_ms) > STALL_THRESHOLD_MS,
        stability_penalty(
            effective_stalls(view, wall_elapsed_ms),
            effective_longest(view, wall_elapsed_ms),
        ) >= 4,
{
    lemma_stalls_below_events(view.events);
}

/// The rate of a run goes by the wall clock, whatever the timeline: all that the
/// frontier has reached over all the time that the run took, at least a
/// millisecond of it. The envelope has the same rate.
pub proof fn throughput_goes_by_the_wall_clock(
    view: FrontierView,
    config: FrontierRunConfig,
    wall_elapsed_ms: u64,
    measured_at_ms: u64,
)
    requires
        view.frontier() <= u64::MAX,
    ensures
        ({
            let result = run_result(view, config, wall_elapsed_ms, measured_at_ms);
            let rate = result.envelope.sustained_throughput;
            &&& rate.bytes == view.frontier()
            &&& rate.elapsed_ms >= 1
            &&& wall_elapsed_ms >= 1 ==> rate.elapsed_ms == wall_elapsed_ms
            &&& wall_elapsed_ms == 0 ==> rate.elapsed_ms == 1
            &&& result.frontier_advance_rate == Some(rate)
            &&& result.final_frontier_bytes == view.frontier()
        }),
{
    assert(0 <= view.frontier()) by (nonlinear_arith)
        requires
            view.frontier() == tracker::prefix_len(view.pages) * view.page_size,
    ;
}

/// Of two runs that reach the same frontier, the one that took longer has no higher
/// throughput, and a lower one where it took longer by the clock and reached
/// anything at all.
pub proof fn longer_run_is_no_faster(
    view: FrontierView,
    other: FrontierView,
    config: FrontierRunConfig,
    short_ms: u64,
    long_ms: u64,
    measured_at_ms: u64,
)
    requires
        view.frontier() == other.frontier(),
        view.frontier() <= u64::MAX,
        short_ms <= long_ms,
    ensures
        ({
            let fast = run_result(
                view,
                config,
                short_ms,
                measured_at_ms,
            ).envelope.sustained_throughput;
            let slow = run_result(
                other,
                config,
                long_ms,
                measured_at_ms,
            ).envelope.sustained_throughput;
            &&& slow.bytes * fast.elapsed_ms <= fast.bytes * slow.elapsed_ms
            &&& 1 <= short_ms < long_ms && view.frontier() > 0 ==> slow.bytes * fast.elapsed_ms
                < fast.bytes * slow.elapsed_ms
        }),
{
    throughput_goes_by_the_wall_clock(view, config, short_ms, measured_at_ms);
    throughput_goes_by_the_wall_clock(other, config, long_ms, measured_at_ms);
    let b = view.frontier();
    let x = if short_ms >= 1 {
        short_ms as int
    } else {
        1
    };
    let y = if long_ms >= 1 {
        long_ms as int
    } else {
        1
    };
    assert(0 <= b) by (nonlinear_arith)
        requires
            b == tracker::prefix_len(view.pages) * view.page_size,
    ;
    assert(b * x <= b * y && (x < y && b > 0 ==> b * x < b * y)) by (nonlinear_arith)
        requires
            0 <= b,
            1 <= x <= y,
    ;
}

/// The stalls of a run are the events that come more than two seconds after the
/// one before, and the end of the run where it comes more than two seconds after
/// the last event, or after the start where there is none. The longest one is the
/// longest of these pauses.
pub proof fn run_counts_every_stall(
    view: FrontierView,
    config: FrontierRunConfig,
    wall_elapsed_ms: u64,
    measured_at_ms: u64,
)
    requires
        view.events.len() < u32::MAX,
    ensures
        ({
            let result = run_result(view, config, wall_elapsed_ms, measured_at_ms);
            let from = if view.events.len() > 0 {
                view.events.last().t_ms as int
            } else {
                0
            };
            let late = tracker::late_events(view.events);
            &&& result.frontier_events_count == view.events.len()
            &&& result.run_duration_ms == wall_elapsed_ms
            &&& from <= wall_elapsed_ms ==> result.tail_drain_ms == wall_elapsed_ms - from
            &&& wall_elapsed_ms < from ==> result.tail_drain_ms == 0
            &&& wall_elapsed_ms - from > 2_000 ==> result.frontier_stall_count == late.len() + 1
            &&& wall_elapsed_ms - from <= 2_000 ==> result.frontier_stall_count == late.len()
            &&& wall_elapsed_ms - from <= result.max_frontier_stall_ms
            &&& forall|i: int|
                1 <= i < view.events.len() ==> (#[trigger] view.events[i]).t_ms - view.events[i
                    - 1].t_ms <= result.max_frontier_stall_ms
            &&& result.max_frontier_stall_ms == 0 || result.max_frontier_stall_ms
                == wall_elapsed_ms - from || exists|i: int|
                1 <= i < view.events.len() && (#[trigger] view.events[i]).t_ms - view.events[i
                    - 1].t_ms == result.max_frontier_stall_ms
        }),
{
    tracker::every_stall_is_counted(view.events);
    tracker::longest_gap_is_longest(view.events);
    lemma_stalls_below_events(view.events);
}

/// The penalty of a run in tenths: one for each of the first five stalls, and three
/// more where the longest is above two seconds, five more where it is above five.
pub proof fn run_is_penalized_for_stalls(
    view: FrontierView,
    config: FrontierRunConfig,
    wall_elapsed_ms: u64,
    measured_at_ms: u64,
)
    ensures
        ({
            let result = run_result(view, config, wall_elapsed_ms, measured_at_ms);
            let stalls = result.frontier_stall_count;
            let longest = result.max_frontier_stall_ms;
            let tenths = result.envelope.stability_penalty_tenths;
            &&& stalls <= 5 && longest <= 2_000 ==> tenths == stalls
            &&& stalls <= 5 && 2_000 < longest <= 5_000 ==> tenths == stalls + 3
            &&& stalls <= 5 && 5_000 < longest ==> tenths == stalls + 5
            &&& stalls > 5 && longest <= 2_000 ==> tenths == 5
            &&& stalls > 5 && 2_000 < longest <= 5_000 ==> tenths == 8
            &&& stalls > 5 && 5_000 < longest ==> tenths == 10
        }),
{
}

/// The envelope of a run takes over what was configured. Prefetch chunks may be
/// twice as large as urgent ones. What was not measured is left open.
pub proof fn envelope_is_of_the_configuration(
    view: FrontierView,
    config: FrontierRunConfig,
    wall_elapsed_ms: u64,
    measured_at_ms: u64,
)
    requires
        config.chunk_size_bytes * 2 <= u64::MAX,
    ensures
        ({
            let envelope = run_result(view, config, wall_elapsed_ms, measured_at_ms).envelope;
            &&& envelope.max_safe_urgent_workers == config.urgent_workers
            &&& envelope.max_safe_prefetch_workers == config.prefetch_workers
            &&& envelope.max_safe_urgent_chunk_bytes == config.chunk_size_bytes
            &&& envelope.max_safe_prefetch_chunk_bytes == 2 * config.chunk_size_bytes
            &&& envelope.supports_range_requests == config.range_support
            &&& envelope.measured_at_ms == measured_at_ms
            &&& envelope.p10_throughput is None
            &&& envelope.seek_ttfb_p50_ms is None
        }),
{
}

/// Only page completions change a timeline. One completes its page and no other,
/// and where that moves the frontier, one event is recorded, at the millisecond of
/// the completion.
pub proof fn only_pages_change_the_timeline(view: FrontierView, event: TraceEvent, i: int)
    requires
        observed(view, event).fits(),
    ensures
        observed(view, event).page_size == view.page_size,
        !(event is PageCompleted) ==> observed(view, event) == view,
        event matches TraceEvent::PageCompleted { page_index, timestamp_ns, .. } ==> {
            let next = observed(view, event);
            &&& tracker::is_complete(next.pages, i) <==> tracker::is_complete(view.pages, i) || i
                == page_index
            &&& next.frontier() == view.frontier() ==> next.events == view.events
            &&& next.frontier() != view.frontier() ==> {
                &&& next.frontier() > view.frontier()
                &&& next.events.drop_last() == view.events
                &&& next.events.len() == view.events.len() + 1
                &&& next.events.last() == (FrontierEvent {
                    t_ms: timestamp_ns / 1_000_000,
                    contiguous_frontier_bytes: next.frontier() as u64,
                    delta_contiguous_bytes: (next.frontier() - view.frontier()) as u64,
                })
            }
        },
{
    if let TraceEvent::PageCompleted { page_index, timestamp_ns, .. } = event {
        tracker::completion_is_of_one_page(
            view,
            page_index as int,
            timestamp_ns / 1_000_000,
            i,
        );
        tracker::each_advance_is_recorded_once(view, page_index as int, timestamp_ns / 1_000_000);
    }
}

/// A run of no events leaves the timeline as it is, and one of a single event takes
/// it one step further: what is traced and told is that of the event.
pub proof fn events_are_followed_one_by_one(view: FrontierView, event: TraceEvent)
    ensures
        observed_all(view, Seq::empty()) == view,
        traced_all(view, Seq::empty()).len() == 0,
        feedback_all(view, Seq::empty()).len() == 0,
        observed_all(view, seq![event]) == observed(view, event),
        traced_all(view, seq![event]) == traced(view, event),
        feedback_all(view, seq![event]) == match moved_to(view, event) {
            Some(frontier) => seq![frontier],
            None => Seq::empty(),
        },
{
    let one = seq![event];
    reveal_with_fuel(traced_all, 2);
    reveal_with_fuel(feedback_all, 2);
    assert(one.drop_last() =~= Seq::empty());
    assert(observed_all(view, one.drop_last()) == view);
    assert(traced_all(view, one) =~= traced(view, event));
    assert(feedback_all(view, one) =~= match moved_to(view, event) {
        Some(frontier) => seq![frontier],
        None => Seq::empty(),
    });
}

/// A timeline begins with nothing on it.
pub proof fn timeline_begins_empty(page_size: u64, i: int)
    ensures
        empty_timeline(page_size).page_size == page_size,
        empty_timeline(page_size).events.len() == 0,
        !tracker::is_complete(empty_timeline(page_size).pages, i),
        empty_timeline(page_size).frontier() == 0,
{
    assert(0 * page_size == 0) by (nonlinear_arith);
}

} // verus!
