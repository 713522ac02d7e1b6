//! Contiguous playable progress of a parallel download.
//!
//! A download completes pages in any order. The frontier is the number of
//! bytes at the start of the file that are complete without a gap, and the
//! tracker records an event each time the frontier moves.

use vstd::prelude::*;

verus! {

/// Page size in bytes (128 KB).
pub const PAGE_SIZE: u64 = 131_072;

/// A pause between two frontier events that is longer than this is a stall.
pub const STALL_THRESHOLD_MS: u64 = 2_000;

/// A single advance of the frontier.
#[derive(Debug, Clone, Copy, PartialEq, Eq, Structural)]
pub struct FrontierEvent {
    /// Timestamp in milliseconds.
    pub t_ms: u64,
    /// Contiguous frontier bytes after this advance.
    pub contiguous_frontier_bytes: u64,
    /// Bytes advanced in this event.
    pub delta_contiguous_bytes: u64,
}

/// An amount of data over a span of time, kept as the exact fraction. In
/// megabits per second it is `bytes * 8 / elapsed_ms / 1000`.
#[derive(Debug, Clone, Copy, PartialEq, Eq, Structural)]
pub struct Throughput {
    pub bytes: u64,
    pub elapsed_ms: u64,
}

/// Summary metrics of a frontier timeline.
#[derive(Debug, Clone, Copy, PartialEq, Eq)]
pub struct FrontierMetrics {
    pub total_frontier_events: u32,
    pub final_frontier_bytes: u64,
    pub frontier_advance_rate: Option<Throughput>,
    pub frontier_stall_count: u32,
    pub max_frontier_stall_ms: u64,
}

/// Page `i` is complete.
pub open spec fn is_complete(pages: Seq<bool>, i: int) -> bool {
    0 <= i < pages.len() && pages[i]
}

/// `pages` with the pages from `first` to `last` complete as well.
pub open spec fn mark_range(pages: Seq<bool>, first: int, last: int) -> Seq<bool> {
    let len = if last < pages.len() {
        pages.len()
    } else {
        (last + 1) as nat
    };
    Seq::new(len, |i: int| is_complete(pages, i) || first <= i <= last)
}

/// The number of complete pages before the first gap.
pub open spec fn prefix_len(pages: Seq<bool>) -> nat
    decreases pages.len(),
{
    if pages.len() == 0 || !pages[0] {
        0
    } else {
        1 + prefix_len(pages.drop_first())
    }
}

/// What a tracker has seen: which pages are complete, and the events recorded.
pub struct FrontierView {
    pub page_size: u64,
    pub pages: Seq<bool>,
    pub events: Seq<FrontierEvent>,
}

impl FrontierView {
    /// The contiguous bytes at the start of the file.
    pub open spec fn frontier(self) -> int {
        prefix_len(self.pages) * self.page_size
    }

    /// The view after the completed pages have become `pages` at time `t_ms`:
    /// an event is recorded if and only if the frontier has moved.
    pub open spec fn advanced(self, pages: Seq<bool>, t_ms: u64) -> FrontierView {
        let next = FrontierView { pages, ..self };
        if next.frontier() > self.frontier() {
            FrontierView {
                events: self.events.push(
                    FrontierEvent {
                        t_ms,
                        contiguous_frontier_bytes: next.frontier() as u64,
                        delta_contiguous_bytes: (next.frontier() - self.frontier()) as u64,
                    },
                ),
                ..next
            }
        } else {
            next
        }
    }

    /// The view after page `page_index` has completed at time `t_ms`.
    pub open spec fn page_completed(self, page_index: int, t_ms: u64) -> FrontierView {
        self.advanced(mark_range(self.pages, page_index, page_index), t_ms)
    }

    /// The view after `bytes_read` bytes at `absolute_offset` have arrived at
    /// time `t_ms`: every page that they touch counts as complete.
    pub open spec fn bytes_downloaded(
        self,
        absolute_offset: int,
        bytes_read: int,
        t_ms: u64,
    ) -> FrontierView {
        if bytes_read == 0 {
            self
        } else {
            self.advanced(
                mark_range(
                    self.pages,
                    absolute_offset / self.page_size as int,
                    (absolute_offset + bytes_read - 1) / self.page_size as int,
                ),
                t_ms,
            )
        }
    }

    /// The frontier can be written as a number of bytes. It always can where the
    /// number of pages and their size both take no more than 32 bits.
    pub open spec fn fits(self) -> bool {
        ||| self.pages.len() <= u32::MAX && self.page_size <= u32::MAX
        ||| self.frontier() <= u64::MAX
    }

    /// The events tell the story of the frontier: each one starts where the one
    /// before it ended, moves forward, and the last one ends at the frontier.
    pub open spec fn events_consistent(self) -> bool {
        &&& forall|i: int|
            0 <= i < self.events.len() ==> {
                &&& (#[trigger] self.events[i]).delta_contiguous_bytes > 0
                &&& self.events[i].contiguous_frontier_bytes
                    == frontier_before(self.events, i)
                    + self.events[i].delta_contiguous_bytes
            }
        &&& self.frontier() == frontier_before(self.events, self.events.len() as int)
    }
}

/// The frontier just before event `i`.
pub open spec fn frontier_before(events: Seq<FrontierEvent>, i: int) -> int {
    if i <= 0 {
        0
    } else {
        events[i - 1].contiguous_frontier_bytes as int
    }
}

/// The pause before event `i`, zero where the clock did not move forward.
pub open spec fn gap_before(events: Seq<FrontierEvent>, i: int) -> int {
    let d = events[i].t_ms - events[i - 1].t_ms;
    if d > 0 {
        d
    } else {
        0
    }
}

/// The number of pauses between consecutive events that are stalls.
pub open spec fn stall_count(events: Seq<FrontierEvent>) -> nat
    decreases events.len(),
{
    if events.len() < 2 {
        0
    } else {
        stall_count(events.drop_last()) + if gap_before(events, events.len() - 1)
            > STALL_THRESHOLD_MS {
            1nat
        } else {
            0nat
        }
    }
}

/// The longest pause between consecutive events.
pub open spec fn longest_gap(events: Seq<FrontierEvent>) -> int
    decreases events.len(),
{
    if events.len() < 2 {
        0
    } else {
        let rest = longest_gap(events.drop_last());
        let gap = gap_before(events, events.len() - 1);
        if gap > rest {
            gap
        } else {
            rest
        }
    }
}

/// The metrics of a view after `elapsed_ms` milliseconds.
pub open spec fn metrics_of(view: FrontierView, elapsed_ms: u64) -> FrontierMetrics {
    FrontierMetrics {
        total_frontier_events: view.events.len() as u32,
        final_frontier_bytes: view.frontier() as u64,
        frontier_advance_rate: if elapsed_ms > 0 {
            Some(Throughput { bytes: view.frontier() as u64, elapsed_ms })
        } else {
            None
        },
        frontier_stall_count: stall_count(view.events) as u32,
        max_frontier_stall_ms: longest_gap(view.events) as u64,
    }
}

/// The count of leading complete pages is where the first gap is.
pub proof fn lemma_prefix_len(pages: Seq<bool>, n: int)
    requires
        0 <= n <= pages.len(),
        forall|i: int| 0 <= i < n ==> #[trigger] pages[i],
        n == pages.len() || !pages[n],
    ensures
        prefix_len(pages) == n,
    decreases pages.len(),
{
    if n > 0 {
        assert(pages[0]);
        let rest = pages.drop_first();
        assert forall|i: int| 0 <= i < n - 1 implies #[trigger] rest[i] by {
            assert(pages[i + 1]);
        }
        lemma_prefix_len(rest, n - 1);
    }
}

/// Every page before the frontier is complete, and the one at it is not.
pub proof fn frontier_is_first_gap(pages: Seq<bool>)
    ensures
        prefix_len(pages) <= pages.len(),
        forall|i: int| 0 <= i < prefix_len(pages) ==> is_complete(pages, i),
        !is_complete(pages, prefix_len(pages) as int),
    decreases pages.len(),
{
    if pages.len() > 0 && pages[0] {
        let rest = pages.drop_first();
        frontier_is_first_gap(rest);
        assert forall|i: int| 0 <= i < prefix_len(pages) implies is_complete(pages, i) by {
            if i > 0 {
                assert(is_complete(rest, i - 1));
            }
        }
    }
}

/// The frontier never goes back: more complete pages cannot shorten it.
pub proof fn frontier_grows(pages: Seq<bool>, more: Seq<bool>)
    requires
        forall|i: int| is_complete(pages, i) ==> is_complete(more, i),
    ensures
        prefix_len(pages) <= prefix_len(more),
{
    frontier_is_first_gap(pages);
    frontier_is_first_gap(more);
}

/// A frontier that fits is a number of bytes.
pub proof fn lemma_fits(view: FrontierView)
    requires
        view.fits(),
    ensures
        view.frontier() <= u64::MAX,
{
    frontier_is_first_gap(view.pages);
    if view.pages.len() <= u32::MAX && view.page_size <= u32::MAX {
        assert(prefix_len(view.pages) * view.page_size <= u64::MAX) by (nonlinear_arith)
            requires
                prefix_len(view.pages) <= u32::MAX,
                view.page_size <= u32::MAX,
        ;
    }
}

/// Moving the frontier forward keeps the events consistent with it.
proof fn lemma_advanced_consistent(view: FrontierView, pages: Seq<bool>, t_ms: u64)
    requires
        view.events_consistent(),
        prefix_len(view.pages) <= prefix_len(pages),
        prefix_len(pages) * view.page_size <= u64::MAX,
    ensures
        view.advanced(pages, t_ms).events_consistent(),
{
    let next = view.advanced(pages, t_ms);
    assert(0 <= view.frontier() <= next.frontier()) by (nonlinear_arith)
        requires
            view.frontier() == prefix_len(view.pages) * view.page_size,
            next.frontier() == prefix_len(pages) * view.page_size,
            prefix_len(view.pages) <= prefix_len(pages),
    ;
    assert forall|i: int| 0 <= i < next.events.len() implies {
        &&& (#[trigger] next.events[i]).delta_contiguous_bytes > 0
        &&& next.events[i].contiguous_frontier_bytes == frontier_before(next.events, i)
            + next.events[i].delta_contiguous_bytes
    } by {
        if i < view.events.len() {
            assert(next.events[i] == view.events[i]);
            assert(frontier_before(next.events, i) == frontier_before(view.events, i));
        } else {
            assert(frontier_before(next.events, i) == frontier_before(view.events, i));
        }
    }
}

/// Tracks contiguous playable progress during a parallel download.
pub struct FrontierTracker {
    page_size: u64,
    pages: Vec<bool>,
    contiguous_frontier_bytes: u64,
    last_frontier_page_index: usize,
    events: Vec<FrontierEvent>,
}

impl View for FrontierTracker {
    type V = FrontierView;

    closed spec fn view(&self) -> FrontierView {
        FrontierView { page_size: self.page_size, pages: self.pages@, events: self.events@ }
    }
}

impl FrontierTracker {
    /// The cached frontier is that of the pages, and the events lead to it.
    pub closed spec fn wf(&self) -> bool {
        &&& self.last_frontier_page_index == prefix_len(self.pages@)
        &&& self.contiguous_frontier_bytes == self@.frontier()
        &&& self@.events_consistent()
    }

    /// A tracker of 128 KB pages.
    pub fn new() -> (res: Self)
        ensures
            res.wf(),
            res@ == (FrontierView {
                page_size: PAGE_SIZE,
                pages: Seq::empty(),
                events: Seq::empty(),
            }),
            res@.page_size == 131_072,
    {
        Self::with_page_size(PAGE_SIZE)
    }

    /// A tracker of pages of `page_size` bytes.
    pub fn with_page_size(page_size: u64) -> (res: Self)
        ensures
            res.wf(),
            res@ == (FrontierView { page_size, pages: Seq::empty(), events: Seq::empty() }),
    {
        assert(0 * page_size == 0) by (nonlinear_arith);
        Self {
            page_size,
            pages: Vec::new(),
            contiguous_frontier_bytes: 0,
            last_frontier_page_index: 0,
            events: Vec::new(),
        }
    }

    /// Mark a page as complete and move the frontier as far as it goes.
    pub fn on_page_completed(&mut self, page_index: u64, t_ms: u64)
        requires
            old(self).wf(),
            page_index < isize::MAX,
            old(self)@.page_completed(page_index as int, t_ms).fits(),
        ensures
            final(self).wf(),
            final(self)@ == old(self)@.page_completed(page_index as int, t_ms),
    {
        let idx: usize = page_index as usize;
        proof {
            lemma_fits(self@.page_completed(page_index as int, t_ms));
        }
        self.mark(idx, idx);
        proof {
            frontier_grows(old(self).pages@, self.pages@);
            lemma_advanced_consistent(old(self)@, self.pages@, t_ms);
        }
        self.advance_frontier(t_ms);
    }

    /// Mark every page that a received byte range touches as complete and move
    /// the frontier as far as it goes.
    pub fn on_bytes_downloaded(&mut self, absolute_offset: u64, bytes_read: u64, t_ms: u64)
        requires
            old(self).wf(),
            bytes_read > 0 ==> {
                &&& old(self)@.page_size > 0
                &&& absolute_offset + bytes_read <= u64::MAX
                &&& (absolute_offset + bytes_read - 1) / (old(self)@.page_size as int)
                    < isize::MAX
                &&& old(self)@.bytes_downloaded(
                    absolute_offset as int,
                    bytes_read as int,
                    t_ms,
                ).fits()
            },
        ensures
            final(self).wf(),
            final(self)@ == old(self)@.bytes_downloaded(
                absolute_offset as int,
                bytes_read as int,
                t_ms,
            ),
    {
        if bytes_read == 0 {
            return;
        }
        proof {
            lemma_fits(self@.bytes_downloaded(absolute_offset as int, bytes_read as int, t_ms));
        }
        let first: u64 = absolute_offset / self.page_size;
        let last: u64 = (absolute_offset + bytes_read - 1) / self.page_size;
        proof {
            let size = self.page_size as int;
            vstd::arithmetic::div_mod::lemma_div_is_ordered(
                absolute_offset as int,
                absolute_offset + bytes_read - 1,
                size,
            );
        }
        self.mark(first as usize, last as usize);
        proof {
            frontier_grows(old(self).pages@, self.pages@);
            lemma_advanced_consistent(old(self)@, self.pages@, t_ms);
        }
        self.advance_frontier(t_ms);
    }

    /// All frontier events, oldest first.
    pub fn frontier_events(&self) -> (res: &[FrontierEvent])
        ensures
            res@ == self@.events,
    {
        self.events.as_slice()
    }

    /// The current contiguous frontier in bytes.
    pub fn contiguous_frontier_bytes(&self) -> (res: u64)
        requires
            self.wf(),
        ensures
            res == self@.frontier(),
    {
        self.contiguous_frontier_bytes
    }

    /// Summary metrics of the timeline so far.
    pub fn compute_metrics(&self, elapsed_ms: u64) -> (res: FrontierMetrics)
        requires
            self.wf(),
            self@.events.len() <= u32::MAX,
        ensures
            res == metrics_of(self@, elapsed_ms),
            res.final_frontier_bytes == self@.frontier(),
            res.total_frontier_events == self@.events.len(),
            res.frontier_stall_count == late_events(self@.events).len(),
    {
        let final_bytes = self.contiguous_frontier_bytes;
        let advance_rate = if elapsed_ms > 0 {
            Some(Throughput { bytes: final_bytes, elapsed_ms })
        } else {
            None
        };
        let mut stalls: u32 = 0;
        let mut longest: u64 = 0;
        let mut i: usize = 1;
        while i < self.events.len()
            invariant
                self@.events.len() <= u32::MAX,
                1 <= i,
                i <= self.events@.len() || i == 1,
                i <= self.events@.len() ==> stalls == stall_count(self.events@.take(i as int)),
                i <= self.events@.len() ==> longest == longest_gap(self.events@.take(i as int)),
                stalls < i,
                self.events@.len() == 0 ==> longest == 0,
            decreases self.events@.len() - i,
        {
            let ghost seen = self.events@.take(i + 1);
            assert(seen.drop_last() =~= self.events@.take(i as int));
            let gap: u64 = self.events[i].t_ms.saturating_sub(self.events[i - 1].t_ms);
            assert(gap == gap_before(seen, i as int));
            if gap > longest {
                longest = gap;
            }
            if gap > STALL_THRESHOLD_MS {
                stalls += 1;
            }
            i += 1;
        }
        proof {
            if self.events@.len() > 0 {
                assert(self.events@.take(i as int) =~= self.events@);
            }
            metrics_tell_the_timeline(self@, elapsed_ms);
        }
        FrontierMetrics {
            total_frontier_events: self.events.len() as u32,
            final_frontier_bytes: final_bytes,
            frontier_advance_rate: advance_rate,
            frontier_stall_count: stalls,
            max_frontier_stall_ms: longest,
        }
    }

    /// Set the pages from `first` to `last`, growing the page list as needed.
    fn mark(&mut self, first: usize, last: usize)
        requires
            first <= last < usize::MAX,
        ensures
            final(self).pages@ == mark_range(old(self).pages@, first as int, last as int),
            final(self).page_size == old(self).page_size,
            final(self).contiguous_frontier_bytes == old(self).contiguous_frontier_bytes,
            final(self).last_frontier_page_index == old(self).last_frontier_page_index,
            final(self).events == old(self).events,
    {
        let ghost before = self.pages@;
        if last >= self.pages.len() {
            self.pages.resize(last + 1, false);
        }
        let ghost grown = self.pages@;
        assert forall|i: int| 0 <= i < grown.len() implies grown[i] == is_complete(before, i) by {
            if i < before.len() {
                assert(grown.subrange(0, before.len() as int)[i] == grown[i]);
            } else {
                assert(cloned::<bool>(false, grown[i]));
            }
        }
        let mut p: usize = first;
        while p <= last
            invariant
                first <= p <= last + 1,
                last < self.pages@.len(),
                last < usize::MAX,
                self.pages@.len() == grown.len(),
                forall|i: int|
                    0 <= i < grown.len() ==> self.pages@[i] == (grown[i] || first <= i < p),
                self.page_size == old(self).page_size,
                self.contiguous_frontier_bytes == old(self).contiguous_frontier_bytes,
                self.last_frontier_page_index == old(self).last_frontier_page_index,
                self.events == old(self).events,
            decreases last + 1 - p,
        {
            self.pages[p] = true;
            p += 1;
        }
        let ghost marked = mark_range(before, first as int, last as int);
        assert forall|i: int| 0 <= i < marked.len() implies self.pages@[i] == marked[i] by {
            assert(grown[i] == is_complete(before, i));
        }
        assert(self.pages@ =~= marked);
    }

    /// Move the frontier over the complete pages that follow it.
    fn advance_frontier(&mut self, t_ms: u64)
        requires
            old(self).last_frontier_page_index <= prefix_len(old(self).pages@),
            old(self).contiguous_frontier_bytes == old(self).last_frontier_page_index
                * old(self).page_size,
            old(self)@.frontier() <= u64::MAX,
        ensures
            final(self).page_size == old(self).page_size,
            final(self).pages == old(self).pages,
            final(self).last_frontier_page_index == prefix_len(final(self).pages@),
            final(self).contiguous_frontier_bytes == final(self)@.frontier(),
            final(self).events@ == if final(self)@.frontier() > old(
                self,
            ).contiguous_frontier_bytes {
                old(self).events@.push(
                    FrontierEvent {
                        t_ms,
                        contiguous_frontier_bytes: final(self)@.frontier() as u64,
                        delta_contiguous_bytes: (final(self)@.frontier() - old(
                            self,
                        ).contiguous_frontier_bytes) as u64,
                    },
                )
            } else {
                old(self).events@
            },
    {
        let previous = self.contiguous_frontier_bytes;
        let mut page_index: usize = self.last_frontier_page_index;
        proof {
            frontier_is_first_gap(self.pages@);
        }
        while page_index < self.pages.len() && self.pages[page_index]
            invariant
                self.last_frontier_page_index <= page_index <= prefix_len(self.pages@),
                prefix_len(self.pages@) <= self.pages@.len(),
                !is_complete(self.pages@, prefix_len(self.pages@) as int),
            decreases self.pages@.len() - page_index,
        {
            page_index += 1;
        }
        assert(page_index == prefix_len(self.pages@)) by {
            if page_index < prefix_len(self.pages@) {
                assert(is_complete(self.pages@, page_index as int));
            }
        }
        assert(previous <= page_index * self.page_size) by (nonlinear_arith)
            requires
                previous == self.last_frontier_page_index * self.page_size,
                self.last_frontier_page_index <= page_index,
        ;
        let new_frontier_bytes: u64 = page_index as u64 * self.page_size;
        self.last_frontier_page_index = page_index;
        self.contiguous_frontier_bytes = new_frontier_bytes;
        let delta: u64 = new_frontier_bytes - previous;
        if delta > 0 {
            self.events.push(
                FrontierEvent {
                    t_ms,
                    contiguous_frontier_bytes: new_frontier_bytes,
                    delta_contiguous_bytes: delta,
                },
            );
        }
    }
}

impl Default for FrontierTracker {
    fn default() -> (res: Self)
        ensures
            res.wf(),
            res@ == (FrontierView {
                page_size: PAGE_SIZE,
                pages: Seq::empty(),
                events: Seq::empty(),
            }),
    {
        Self::new()
    }
}

/// The bytes that a list of events moved the frontier by, all together.
pub open spec fn total_advance(events: Seq<FrontierEvent>) -> int
    decreases events.len(),
{
    if events.len() == 0 {
        0
    } else {
        total_advance(events.drop_last()) + events.last().delta_contiguous_bytes
    }
}

/// In every tracker the events are consistent with the frontier, and their
/// advances add up to it.
pub proof fn events_account_for_frontier(tracker: &FrontierTracker)
    requires
        tracker.wf(),
    ensures
        tracker@.events_consistent(),
        total_advance(tracker@.events) == tracker@.frontier(),
{
    let events = tracker@.events;
    lemma_total_advance(tracker@, events.len() as int);
    assert(events.take(events.len() as int) =~= events);
}

proof fn lemma_total_advance(view: FrontierView, n: int)
    requires
        view.events_consistent(),
        0 <= n <= view.events.len(),
    ensures
        total_advance(view.events.take(n)) == frontier_before(view.events, n),
    decreases n,
{
    if n > 0 {
        lemma_total_advance(view, n - 1);
        assert(view.events.take(n).drop_last() =~= view.events.take(n - 1));
        assert(view.events.take(n).last() == view.events[n - 1]);
    }
}

/// A page that is not complete holds the frontier at or before its start.
pub proof fn gap_blocks_frontier(view: FrontierView, page_index: int)
    requires
        0 <= page_index,
        !is_complete(view.pages, page_index),
    ensures
        view.frontier() <= page_index * view.page_size,
{
    frontier_is_first_gap(view.pages);
    assert(prefix_len(view.pages) <= page_index) by {
        if page_index < prefix_len(view.pages) {
            assert(is_complete(view.pages, page_index));
        }
    }
    assert(prefix_len(view.pages) * view.page_size <= page_index * view.page_size)
        by (nonlinear_arith)
        requires
            prefix_len(view.pages) <= page_index,
    ;
}

/// Two pages may complete in either order: the pages and the frontier are the same.
pub proof fn page_order_is_irrelevant(view: FrontierView, i: int, j: int, t1: u64, t2: u64)
    requires
        0 <= i,
        0 <= j,
    ensures
        view.page_completed(i, t1).page_completed(j, t2).pages == view.page_completed(
            j,
            t1,
        ).page_completed(i, t2).pages,
        view.page_completed(i, t1).page_completed(j, t2).frontier() == view.page_completed(
            j,
            t1,
        ).page_completed(i, t2).frontier(),
{
    assert(view.page_completed(i, t1).page_completed(j, t2).pages =~= view.page_completed(
        j,
        t1,
    ).page_completed(i, t2).pages);
}

/// A page that completes a second time changes nothing.
pub proof fn repeated_page_is_noop(view: FrontierView, page_index: int, t_ms: u64)
    requires
        is_complete(view.pages, page_index),
    ensures
        view.page_completed(page_index, t_ms) == view,
{
    assert(mark_range(view.pages, page_index, page_index) =~= view.pages);
}

/// Completing a page never moves the frontier back.
pub proof fn frontier_is_monotone(view: FrontierView, page_index: int, t_ms: u64)
    requires
        0 <= page_index,
    ensures
        view.frontier() <= view.page_completed(page_index, t_ms).frontier(),
{
    let next = view.page_completed(page_index, t_ms);
    frontier_grows(view.pages, next.pages);
    assert(prefix_len(view.pages) * view.page_size <= prefix_len(next.pages) * view.page_size)
        by (nonlinear_arith)
        requires
            prefix_len(view.pages) <= prefix_len(next.pages),
    ;
}

/// A page that completes never moves the frontier back. Where it moves the
/// frontier, exactly one event is recorded, with the new frontier and the bytes
/// that it moved by. Otherwise no event is recorded.
pub proof fn each_advance_is_recorded_once(view: FrontierView, page_index: int, t_ms: u64)
    requires
        0 <= page_index,
        view.page_completed(page_index, t_ms).fits(),
    ensures
        ({
            let next = view.page_completed(page_index, t_ms);
            &&& view.frontier() <= next.frontier()
            &&& next.frontier() == view.frontier() ==> next.events == view.events
            &&& next.frontier() > view.frontier() ==> {
                &&& next.events.len() == view.events.len() + 1
                &&& next.events.drop_last() == view.events
                &&& next.events.last().t_ms == t_ms
                &&& next.events.last().contiguous_frontier_bytes == next.frontier()
                &&& next.events.last().delta_contiguous_bytes == next.frontier()
                    - view.frontier()
            }
        }),
{
    let next = view.page_completed(page_index, t_ms);
    frontier_is_monotone(view, page_index, t_ms);
    lemma_fits(next);
    assert(0 <= view.frontier()) by (nonlinear_arith)
        requires
            view.frontier() == prefix_len(view.pages) * view.page_size,
    ;
    if next.frontier() > view.frontier() {
        assert(next.events.drop_last() =~= view.events);
    }
}

/// A byte range may arrive in two parts: the pages and the frontier are the
/// same as if it had arrived at once.
pub proof fn split_download_is_irrelevant(
    view: FrontierView,
    offset: int,
    m: int,
    n: int,
    t1: u64,
    t2: u64,
)
    requires
        view.page_size > 0,
        0 <= offset,
        0 <= m,
        0 <= n,
    ensures
        view.bytes_downloaded(offset, m + n, t2).pages == view.bytes_downloaded(
            offset,
            m,
            t1,
        ).bytes_downloaded(offset + m, n, t2).pages,
        view.bytes_downloaded(offset, m + n, t2).frontier() == view.bytes_downloaded(
            offset,
            m,
            t1,
        ).bytes_downloaded(offset + m, n, t2).frontier(),
{
    let size = view.page_size as int;
    let whole = view.bytes_downloaded(offset, m + n, t2);
    let parts = view.bytes_downloaded(offset, m, t1).bytes_downloaded(offset + m, n, t2);
    if m > 0 && n > 0 {
        let first = offset / size;
        let left = (offset + m - 1) / size;
        let right = (offset + m) / size;
        let last = (offset + m + n - 1) / size;
        vstd::arithmetic::div_mod::lemma_div_is_ordered(offset, offset + m - 1, size);
        vstd::arithmetic::div_mod::lemma_div_is_ordered(offset + m - 1, offset + m, size);
        vstd::arithmetic::div_mod::lemma_div_is_ordered(offset + m, offset + m + n - 1, size);
        assert(right <= left + 1) by {
            vstd::arithmetic::div_mod::lemma_div_is_ordered(offset + m, offset + m - 1 + size, size);
            vstd::arithmetic::div_mod::lemma_div_plus_one(offset + m - 1, size);
        }
        assert(0 <= first) by {
            vstd::arithmetic::div_mod::lemma_div_pos_is_pos(offset, size);
        }
        assert(whole.pages =~= parts.pages);
    }
}

/// There is a stall if and only if the longest pause is longer than the threshold.
pub proof fn stalls_show_in_longest_gap(events: Seq<FrontierEvent>)
    ensures
        stall_count(events) > 0 <==> longest_gap(events) > STALL_THRESHOLD_MS,
    decreases events.len(),
{
    if events.len() >= 2 {
        stalls_show_in_longest_gap(events.drop_last());
    }
}

/// The events that come more than two seconds after the one before them.
pub open spec fn late_events(events: Seq<FrontierEvent>) -> Set<int> {
    Set::new(|i: int| 1 <= i < events.len() && events[i].t_ms - events[i - 1].t_ms > 2_000)
}

/// Every stall is counted, and nothing else: there are as many stalls as events
/// that come more than two seconds after the one before them.
pub proof fn every_stall_is_counted(events: Seq<FrontierEvent>)
    ensures
        late_events(events).finite(),
        stall_count(events) == late_events(events).len(),
    decreases events.len(),
{
    let late = late_events(events);
    if events.len() < 2 {
        assert(late =~= Set::<int>::empty());
    } else {
        let shorter = events.drop_last();
        let n = events.len() - 1;
        every_stall_is_counted(shorter);
        assert(!late_events(shorter).contains(n));
        if events[n].t_ms - events[n - 1].t_ms > 2_000 {
            assert(late =~= late_events(shorter).insert(n));
        } else {
            assert(late =~= late_events(shorter));
        }
    }
}

/// One more event is one more stall exactly where it comes more than two seconds
/// after the last one, whatever came before.
pub proof fn late_event_is_one_more_stall(events: Seq<FrontierEvent>, event: FrontierEvent)
    requires
        events.len() > 0,
    ensures
        stall_count(events.push(event)) == stall_count(events) + if event.t_ms
            - events.last().t_ms > 2_000 {
            1int
        } else {
            0int
        },
{
    assert(events.push(event).drop_last() =~= events);
}

/// The longest pause is that before some event, and no other is longer. It is zero
/// where the clock never moves forward.
pub proof fn longest_gap_is_longest(events: Seq<FrontierEvent>)
    ensures
        0 <= longest_gap(events) <= u64::MAX,
        forall|i: int|
            1 <= i < events.len() ==> (#[trigger] events[i]).t_ms - events[i - 1].t_ms
                <= longest_gap(events),
        longest_gap(events) == 0 || exists|i: int|
            1 <= i < events.len() && (#[trigger] events[i]).t_ms - events[i - 1].t_ms
                == longest_gap(events),
    decreases events.len(),
{
    if events.len() >= 2 {
        let shorter = events.drop_last();
        let n = events.len() - 1;
        longest_gap_is_longest(shorter);
        assert forall|i: int| 1 <= i < events.len() implies (#[trigger] events[i]).t_ms - events[i
            - 1].t_ms <= longest_gap(events) by {
            if i < n {
                assert(shorter[i] == events[i]);
                assert(shorter[i - 1] == events[i - 1]);
            }
        }
        if longest_gap(events) != 0 {
            if events[n].t_ms - events[n - 1].t_ms != longest_gap(events) {
                let i = choose|i: int|
                    1 <= i < shorter.len() && (#[trigger] shorter[i]).t_ms - shorter[i - 1].t_ms
                        == longest_gap(shorter);
                assert(events[i] == shorter[i]);
                assert(events[i - 1] == shorter[i - 1]);
            }
        }
    }
}

/// The frontier stands at the start of the first page that is not complete.
pub proof fn frontier_is_at_first_gap(view: FrontierView, k: int)
    requires
        0 <= k,
        forall|i: int| 0 <= i < k ==> #[trigger] is_complete(view.pages, i),
        !is_complete(view.pages, k),
    ensures
        view.frontier() == k * view.page_size,
{
    frontier_is_first_gap(view.pages);
    let n = prefix_len(view.pages) as int;
    if n < k {
        assert(is_complete(view.pages, n));
    } else if k < n {
        assert(is_complete(view.pages, k));
    }
}

/// A page that completes is complete afterwards, as are those that were before,
/// and no others.
pub proof fn completion_is_of_one_page(view: FrontierView, page_index: int, t_ms: u64, i: int)
    requires
        0 <= page_index,
    ensures
        is_complete(view.page_completed(page_index, t_ms).pages, i) <==> is_complete(view.pages, i)
            || i == page_index,
        view.page_completed(page_index, t_ms).page_size == view.page_size,
{
}

/// Bytes that arrive complete the pages that hold at least one of them, and leave
/// the others as they were.
pub proof fn bytes_complete_what_they_touch(
    view: FrontierView,
    offset: int,
    bytes: int,
    t_ms: u64,
    i: int,
)
    requires
        view.page_size > 0,
        0 <= offset,
        0 <= bytes,
        0 <= i,
    ensures
        is_complete(view.bytes_downloaded(offset, bytes, t_ms).pages, i) <==> is_complete(
            view.pages,
            i,
        ) || (bytes > 0 && i * view.page_size < offset + bytes && offset < (i + 1)
            * view.page_size),
        view.bytes_downloaded(offset, bytes, t_ms).page_size == view.page_size,
{
    if bytes > 0 {
        let size = view.page_size as int;
        let end = offset + bytes - 1;
        vstd::arithmetic::div_mod::lemma_fundamental_div_mod(offset, size);
        vstd::arithmetic::div_mod::lemma_fundamental_div_mod(end, size);
        vstd::arithmetic::div_mod::lemma_mod_bound(offset, size);
        vstd::arithmetic::div_mod::lemma_mod_bound(end, size);
        vstd::arithmetic::div_mod::lemma_div_is_ordered(offset, end, size);
        vstd::arithmetic::div_mod::lemma_div_pos_is_pos(offset, size);
        let a = offset / size;
        let b = end / size;
        assert(a <= i <==> offset < (i + 1) * size) by (nonlinear_arith)
            requires
                offset == size * a + offset % size,
                0 <= offset % size < size,
        ;
        assert(i <= b <==> i * size <= end) by (nonlinear_arith)
            requires
                end == size * b + end % size,
                0 <= end % size < size,
        ;
    }
}

/// Bytes that arrive never move the frontier back. Where they move it, exactly one
/// event is recorded, with the new frontier and the bytes that it moved by.
pub proof fn each_arrival_is_recorded_once(
    view: FrontierView,
    offset: int,
    bytes: int,
    t_ms: u64,
)
    requires
        view.page_size > 0,
        0 <= offset,
        0 <= bytes,
        view.bytes_downloaded(offset, bytes, t_ms).fits(),
    ensures
        ({
            let next = view.bytes_downloaded(offset, bytes, t_ms);
            &&& view.frontier() <= next.frontier()
            &&& next.frontier() == view.frontier() ==> next.events == view.events
            &&& next.frontier() > view.frontier() ==> {
                &&& next.events.len() == view.events.len() + 1
                &&& next.events.drop_last() == view.events
                &&& next.events.last().t_ms == t_ms
                &&& next.events.last().contiguous_frontier_bytes == next.frontier()
                &&& next.events.last().delta_contiguous_bytes == next.frontier()
                    - view.frontier()
            }
        }),
{
    let next = view.bytes_downloaded(offset, bytes, t_ms);
    assert forall|i: int| is_complete(view.pages, i) implies is_complete(next.pages, i) by {
        bytes_complete_what_they_touch(view, offset, bytes, t_ms, i);
    }
    frontier_grows(view.pages, next.pages);
    assert(0 <= view.frontier() <= next.frontier()) by (nonlinear_arith)
        requires
            view.frontier() == prefix_len(view.pages) * view.page_size,
            next.frontier() == prefix_len(next.pages) * view.page_size,
            prefix_len(view.pages) <= prefix_len(next.pages),
    ;
    lemma_fits(next);
    if next.frontier() > view.frontier() {
        assert(next.events.drop_last() =~= view.events);
    }
}

/// The metrics of a timeline: all its events, where the frontier stands, the bytes
/// up to there over the time that has passed, and every stall.
pub proof fn metrics_tell_the_timeline(view: FrontierView, elapsed_ms: u64)
    requires
        view.frontier() <= u64::MAX,
        view.events.len() <= u32::MAX,
    ensures
        ({
            let metrics = metrics_of(view, elapsed_ms);
            &&& metrics.total_frontier_events == view.events.len()
            &&& metrics.final_frontier_bytes == view.frontier()
            &&& metrics.frontier_stall_count == late_events(view.events).len()
            &&& metrics.max_frontier_stall_ms == longest_gap(view.events)
            &&& elapsed_ms > 0 ==> (metrics.frontier_advance_rate matches Some(rate)
                && rate.bytes == view.frontier() && rate.elapsed_ms == elapsed_ms)
            &&& elapsed_ms == 0 ==> metrics.frontier_advance_rate is None
        }),
{
    every_stall_is_counted(view.events);
    longest_gap_is_longest(view.events);
    lemma_few_stalls(view.events);
    assert(0 <= view.frontier()) by (nonlinear_arith)
        requires
            view.frontier() == prefix_len(view.pages) * view.page_size,
    ;
}

proof fn lemma_few_stalls(events: Seq<FrontierEvent>)
    ensures
        stall_count(events) <= events.len(),
    decreases events.len(),
{
    if events.len() >= 2 {
        lemma_few_stalls(events.drop_last());
    }
}

} // verus!
