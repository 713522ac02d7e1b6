//! Shadow player simulation: the bitrate that a frontier timeline sustains.
//!
//! Rates are exact. A rate is a whole number of units, of which one megabit per
//! second has `RATE_UNITS_PER_MBPS`. The unit is fine enough that every rate
//! which the search visits, and 85 percent of each, is a whole number of units.
//! At `rate` units a player consumes `25 * rate` buffer units in a millisecond,
//! where one byte has `BUFFER_UNITS_PER_BYTE` buffer units.

use crate::stable;
use crate::tracker::FrontierEvent;
use vstd::prelude::*;

verus! {

/// Rate units in one megabit per second.
pub const RATE_UNITS_PER_MBPS: u64 = 655_360;

/// Buffer units in one byte.
pub const BUFFER_UNITS_PER_BYTE: u64 = 131_072;

/// Buffer units that a player consumes per millisecond at a rate of one unit.
pub const DRAIN_PER_RATE_UNIT: u64 = 25;

/// Playback starts once this much is buffered.
pub const STARTUP_BUFFER_MS: u64 = 3_000;

/// The player never buffers more than this.
pub const MAX_BUFFER_MS: u64 = 50_000;

/// The share of the sustainable bitrate that is safe to use, in percent.
pub const SAFETY_FACTOR_PERCENT: u64 = 85;

/// The search stops once the bounds are this close (0.1 Mbps).
pub const SEARCH_TOLERANCE: u64 = 65_536;

/// The lowest bitrate that the search considers (1 Mbps).
pub const MIN_BITRATE: u64 = 655_360;

/// The highest bitrate that the search considers (2000 Mbps). Keep-alive
/// connections have measured safe budgets above 700 Mbps, so the bound lies
/// well beyond that.
pub const MAX_BITRATE: u64 = 1_310_720_000;

/// Result of one simulation at a candidate bitrate.
#[derive(Debug, Clone, Copy, PartialEq, Eq)]
pub struct SimulationRun {
    pub survived: bool,
    pub rebuffer_count: u32,
    pub min_buffer_ms: u64,
}

/// Result of the search for the highest bitrate that survives. The bitrates are
/// in rate units.
#[derive(Debug, Clone, Copy, PartialEq, Eq)]
pub struct SimulationResult {
    pub max_sustainable_bitrate: u64,
    pub safe_budget: u64,
    pub search_iterations: u32,
    pub startup_buffer_ms: u64,
    pub max_buffer_ms: u64,
    pub simulated_rebuffer_count: u32,
}

/// The state of the simulated player.
pub struct PlayerState {
    /// Buffered data in buffer units.
    pub buffer: nat,
    /// Playback is running.
    pub started: bool,
    /// The time of the last event.
    pub last_t_ms: u64,
    /// How often the buffer ran dry during playback.
    pub rebuffers: nat,
    /// The smallest buffer seen during playback, in whole milliseconds.
    pub min_buffer_ms: u64,
}

/// Buffer units consumed in `ms` milliseconds of playback at `rate`.
pub open spec fn drain(rate: u64, ms: int) -> int {
    DRAIN_PER_RATE_UNIT * rate * ms
}

/// The time from `from` to `to`, zero where it is not positive.
pub open spec fn elapsed(from: u64, to: u64) -> int {
    if to > from {
        to - from
    } else {
        0
    }
}

pub open spec fn min_int(a: int, b: int) -> int {
    if a <= b {
        a
    } else {
        b
    }
}

/// A player that has seen nothing yet, at the time of the first event.
pub open spec fn player_start(events: Seq<FrontierEvent>) -> PlayerState {
    PlayerState {
        buffer: 0,
        started: false,
        last_t_ms: events[0].t_ms,
        rebuffers: 0,
        min_buffer_ms: u64::MAX,
    }
}

/// The player at the time of an event, before the event's data arrives: while
/// playback runs it consumes the buffer, and stops where that runs dry.
pub open spec fn player_drained(p: PlayerState, rate: u64, t_ms: u64) -> PlayerState {
    let consumed = drain(rate, elapsed(p.last_t_ms, t_ms));
    if !p.started {
        p
    } else if p.buffer < consumed {
        PlayerState { buffer: 0, started: false, rebuffers: p.rebuffers + 1, ..p }
    } else {
        PlayerState { buffer: (p.buffer - consumed) as nat, ..p }
    }
}

/// The player after an event: the data is buffered up to the limit, and
/// playback starts where enough is there.
pub open spec fn player_step(p: PlayerState, rate: u64, event: FrontierEvent) -> PlayerState {
    let q = player_drained(p, rate, event.t_ms);
    let buffer = min_int(
        q.buffer + event.delta_contiguous_bytes * BUFFER_UNITS_PER_BYTE,
        drain(rate, MAX_BUFFER_MS as int),
    );
    let started = q.started || buffer >= drain(rate, STARTUP_BUFFER_MS as int);
    PlayerState {
        buffer: buffer as nat,
        started,
        last_t_ms: event.t_ms,
        rebuffers: q.rebuffers,
        min_buffer_ms: if started {
            min_int(q.min_buffer_ms as int, buffer / drain(rate, 1)) as u64
        } else {
            q.min_buffer_ms
        },
    }
}

/// The player after all of `events`.
pub open spec fn player_after(events: Seq<FrontierEvent>, rate: u64) -> PlayerState
    decreases events.len(),
{
    if events.len() <= 1 {
        player_step(player_start(events), rate, events[0])
    } else {
        player_step(player_after(events.drop_last(), rate), rate, events.last())
    }
}

/// The outcome of playing `events` at `rate`.
pub open spec fn simulation(events: Seq<FrontierEvent>, rate: u64) -> SimulationRun {
    if events.len() == 0 {
        SimulationRun { survived: false, rebuffer_count: 0, min_buffer_ms: 0 }
    } else if rate == 0 {
        SimulationRun { survived: true, rebuffer_count: 0, min_buffer_ms: u64::MAX }
    } else {
        let p = player_after(events, rate);
        SimulationRun {
            survived: p.started && p.rebuffers == 0,
            rebuffer_count: p.rebuffers as u32,
            min_buffer_ms: if p.started {
                p.min_buffer_ms
            } else {
                0
            },
        }
    }
}

/// The bounds of a search after it has ended, and the number of halvings.
pub struct SearchOutcome {
    pub lo: u64,
    pub hi: u64,
    pub iterations: nat,
}

/// Bisection between `lo` and `hi` down to the tolerance: a candidate in the
/// middle that survives becomes the lower bound, another the upper one.
pub open spec fn bisect(events: Seq<FrontierEvent>, lo: u64, hi: u64) -> SearchOutcome
    decreases hi - lo,
{
    if hi - lo > SEARCH_TOLERANCE {
        let mid = ((lo + hi) / 2) as u64;
        let rest = if simulation(events, mid).survived {
            bisect(events, mid, hi)
        } else {
            bisect(events, lo, mid)
        };
        SearchOutcome { iterations: rest.iterations + 1, ..rest }
    } else {
        SearchOutcome { lo, hi, iterations: 0 }
    }
}

/// The events in the order of their times.
pub open spec fn by_time(events: Seq<FrontierEvent>) -> Seq<FrontierEvent> {
    stable::sort_by(events, |e: FrontierEvent| e.t_ms as int)
}

/// The share of a rate that is safe to use.
pub open spec fn safe_share(rate: int) -> int {
    rate * SAFETY_FACTOR_PERCENT / 100
}

/// The result of the search over `events`. Fewer than two events sustain nothing.
pub open spec fn search_result(events: Seq<FrontierEvent>) -> SimulationResult {
    if events.len() < 2 {
        SimulationResult {
            max_sustainable_bitrate: 0,
            safe_budget: 0,
            search_iterations: 0,
            startup_buffer_ms: STARTUP_BUFFER_MS,
            max_buffer_ms: MAX_BUFFER_MS,
            simulated_rebuffer_count: 0,
        }
    } else {
        let sorted = by_time(events);
        let found = bisect(sorted, MIN_BITRATE, MAX_BITRATE);
        SimulationResult {
            max_sustainable_bitrate: found.lo,
            safe_budget: safe_share(found.lo as int) as u64,
            search_iterations: found.iterations as u32,
            startup_buffer_ms: STARTUP_BUFFER_MS,
            max_buffer_ms: MAX_BUFFER_MS,
            simulated_rebuffer_count: simulation(
                sorted,
                safe_share(found.lo as int) as u64,
            ).rebuffer_count,
        }
    }
}

/// Shadow player budget estimator.
pub struct SafeBudgetEstimator {
    startup_buffer_ms: u64,
    max_buffer_ms: u64,
    safety_factor_percent: u64,
    search_tolerance: u64,
    min_bitrate: u64,
    max_bitrate: u64,
}

impl SafeBudgetEstimator {
    /// The settings are the standard ones.
    pub closed spec fn wf(&self) -> bool {
        &&& self.startup_buffer_ms == STARTUP_BUFFER_MS
        &&& self.max_buffer_ms == MAX_BUFFER_MS
        &&& self.safety_factor_percent == SAFETY_FACTOR_PERCENT
        &&& self.search_tolerance == SEARCH_TOLERANCE
        &&& self.min_bitrate == MIN_BITRATE
        &&& self.max_bitrate == MAX_BITRATE
    }

    /// An estimator with the standard settings.
    pub fn new() -> (res: Self)
        ensures
            res.wf(),
    {
        Self {
            startup_buffer_ms: STARTUP_BUFFER_MS,
            max_buffer_ms: MAX_BUFFER_MS,
            safety_factor_percent: SAFETY_FACTOR_PERCENT,
            search_tolerance: SEARCH_TOLERANCE,
            min_bitrate: MIN_BITRATE,
            max_bitrate: MAX_BITRATE,
        }
    }

    /// Simulate playback at `candidate_bitrate` rate units against a timeline.
    pub fn simulate(&self, events: &[FrontierEvent], candidate_bitrate: u64) -> (res: SimulationRun)
        requires
            self.wf(),
            events@.len() <= u32::MAX,
        ensures
            res == simulation(events@, candidate_bitrate),
            events@.len() > 0 && candidate_bitrate > 0 ==> (res.survived <==> exists|s: int|
                #[trigger] plays_through(events@, candidate_bitrate, s)),
    {
        if events.len() == 0 {
            return SimulationRun { survived: false, rebuffer_count: 0, min_buffer_ms: 0 };
        }
        if candidate_bitrate == 0 {
            return SimulationRun { survived: true, rebuffer_count: 0, min_buffer_ms: u64::MAX };
        }
        let rate = candidate_bitrate;
        let per_ms: u128 = 25 * rate as u128;
        assert(per_ms * self.max_buffer_ms == 50_000 * per_ms) by (nonlinear_arith)
            requires
                self.max_buffer_ms == 50_000,
        ;
        assert(per_ms * self.startup_buffer_ms == 3_000 * per_ms) by (nonlinear_arith)
            requires
                self.startup_buffer_ms == 3_000,
        ;
        let max_buffer: u128 = per_ms * self.max_buffer_ms as u128;
        let startup_buffer: u128 = per_ms * self.startup_buffer_ms as u128;
        let mut buffer: u128 = 0;
        let mut started: bool = false;
        let mut last_t_ms: u64 = events[0].t_ms;
        let mut rebuffer_count: u32 = 0;
        let mut min_buffer_ms: u64 = u64::MAX;
        let ghost mut p = player_start(events@);
        let mut i: usize = 0;
        while i < events.len()
            invariant
                events@.len() <= u32::MAX,
                0 < rate,
                per_ms == drain(rate, 1),
                max_buffer == drain(rate, MAX_BUFFER_MS as int),
                startup_buffer == drain(rate, STARTUP_BUFFER_MS as int),
                max_buffer <= 50_000 * 25 * u64::MAX,
                i <= events@.len(),
                rebuffer_count <= i,
                i == 0 ==> p == player_start(events@),
                i > 0 ==> p == player_after(events@.take(i as int), rate),
                p.buffer == buffer,
                p.started == started,
                p.last_t_ms == last_t_ms,
                p.rebuffers == rebuffer_count,
                p.min_buffer_ms == min_buffer_ms,
                buffer <= max_buffer,
            decreases events@.len() - i,
        {
            let event = events[i];
            let delta_t_ms: u64 = event.t_ms.saturating_sub(last_t_ms);
            if started && delta_t_ms > 0 {
                match per_ms.checked_mul(delta_t_ms as u128) {
                    Some(consumed) if consumed <= buffer => {
                        buffer = buffer - consumed;
                    },
                    _ => {
                        rebuffer_count += 1;
                        buffer = 0;
                        started = false;
                    },
                }
            }
            buffer = buffer + event.delta_contiguous_bytes as u128 * 131_072;
            if buffer > max_buffer {
                buffer = max_buffer;
            }
            if !started && buffer >= startup_buffer {
                started = true;
            }
            if started {
                let buffer_ms: u128 = buffer / per_ms;
                if buffer_ms < min_buffer_ms as u128 {
                    min_buffer_ms = buffer_ms as u64;
                }
            }
            last_t_ms = event.t_ms;
            proof {
                p = player_step(p, rate, event);
                let seen = events@.take(i + 1);
                assert(seen.last() == event);
                assert(seen.drop_last() =~= events@.take(i as int));
                assert(seen[0] == events@[0]);
            }
            i += 1;
        }
        assert(events@.take(i as int) =~= events@);
        proof {
            survival_is_keeping_up(events@, candidate_bitrate);
        }
        SimulationRun {
            survived: started && rebuffer_count == 0,
            rebuffer_count,
            min_buffer_ms: if started {
                min_buffer_ms
            } else {
                0
            },
        }
    }

    /// Binary search for the highest bitrate that the timeline sustains.
    pub fn find_max_sustainable_bitrate(&self, events: &[FrontierEvent]) -> (res: SimulationResult)
        requires
            self.wf(),
            events@.len() <= u32::MAX,
        ensures
            res == search_result(events@),
            events@.len() >= 2 ==> {
                let m = res.max_sustainable_bitrate;
                &&& 655_360 <= m <= 1_310_720_000
                &&& m == 655_360 || exists|s: int| #[trigger]
                    plays_through(by_time(events@), m, s)
                &&& exists|h: u64| #[trigger] is_too_high(events@, m, h)
                &&& 100 * res.safe_budget == 85 * m
            },
    {
        if events.len() < 2 {
            return SimulationResult {
                max_sustainable_bitrate: 0,
                safe_budget: 0,
                search_iterations: 0,
                startup_buffer_ms: self.startup_buffer_ms,
                max_buffer_ms: self.max_buffer_ms,
                simulated_rebuffer_count: 0,
            };
        }
        let sorted = sorted_by_time(events);
        proof {
            stable::sort_is_stable(events@, |e: FrontierEvent| e.t_ms as int);
            search_finds_what_is_sustained(events@);
        }
        let mut lo: u64 = self.min_bitrate;
        let mut hi: u64 = self.max_bitrate;
        let mut iterations: u32 = 0;
        let ghost found = bisect(sorted@, lo, hi);
        while hi - lo > self.search_tolerance
            invariant
                self.wf(),
                sorted@.len() <= u32::MAX,
                MIN_BITRATE <= lo <= hi <= MAX_BITRATE,
                iterations + (hi - lo) <= MAX_BITRATE - MIN_BITRATE,
                found.lo == bisect(sorted@, lo, hi).lo,
                found.iterations == iterations + bisect(sorted@, lo, hi).iterations,
            decreases hi - lo,
        {
            let mid: u64 = (lo + hi) / 2;
            if self.simulate(sorted.as_slice(), mid).survived {
                lo = mid;
            } else {
                hi = mid;
            }
            iterations += 1;
        }
        let max_sustainable = lo;
        let safe_budget: u64 = max_sustainable * self.safety_factor_percent / 100;
        SimulationResult {
            max_sustainable_bitrate: max_sustainable,
            safe_budget,
            search_iterations: iterations,
            startup_buffer_ms: self.startup_buffer_ms,
            max_buffer_ms: self.max_buffer_ms,
            simulated_rebuffer_count: self.simulate(sorted.as_slice(), safe_budget).rebuffer_count,
        }
    }
}

impl Default for SafeBudgetEstimator {
    fn default() -> (res: Self)
        ensures
            res.wf(),
    {
        Self::new()
    }
}

/// The events in the order of their times; events of one time keep their order.
pub fn sorted_by_time(events: &[FrontierEvent]) -> (res: Vec<FrontierEvent>)
    ensures
        res@ == by_time(events@),
{
    let ghost key = |e: FrontierEvent| e.t_ms as int;
    let mut res: Vec<FrontierEvent> = Vec::new();
    let mut i: usize = 0;
    while i < events.len()
        invariant
            key == (|e: FrontierEvent| e.t_ms as int),
            i <= events@.len(),
            res@ == stable::sort_by(events@.take(i as int), key),
        decreases events@.len() - i,
    {
        let event = events[i];
        let mut p: usize = res.len();
        while p > 0 && res[p - 1].t_ms > event.t_ms
            invariant
                key == (|e: FrontierEvent| e.t_ms as int),
                p <= res@.len(),
                forall|j: int| p <= j < res@.len() ==> key(#[trigger] res@[j]) > key(event),
            decreases p,
        {
            p -= 1;
        }
        proof {
            stable::lemma_insert_at(res@, event, key, p as int);
            assert(events@.take(i + 1).drop_last() =~= events@.take(i as int));
            assert(events@.take(i + 1).last() == event);
        }
        res.insert(p, event);
        i += 1;
    }
    assert(events@.take(i as int) =~= events@);
    res
}

/// A bitrate of zero survives every timeline that has an event.
pub proof fn zero_bitrate_survives(events: Seq<FrontierEvent>)
    requires
        events.len() > 0,
    ensures
        simulation(events, 0).survived,
        simulation(events, 0).rebuffer_count == 0,
{
}

/// Wherever a bisection ends, its bounds are within the tolerance and inside
/// the bounds that it began with. The lower one survives unless it is where the
/// search began, and the upper one does not survive unless it is where the
/// search began.
pub proof fn bisection_brackets(events: Seq<FrontierEvent>, lo: u64, hi: u64)
    requires
        lo <= hi,
    ensures
        ({
            let found = bisect(events, lo, hi);
            &&& lo <= found.lo <= found.hi <= hi
            &&& lo < hi ==> found.lo < found.hi
            &&& found.hi - found.lo <= SEARCH_TOLERANCE
            &&& found.lo == lo || simulation(events, found.lo).survived
            &&& found.hi == hi || !simulation(events, found.hi).survived
        }),
    decreases hi - lo,
{
    if hi - lo > SEARCH_TOLERANCE {
        let mid = ((lo + hi) / 2) as u64;
        if simulation(events, mid).survived {
            bisection_brackets(events, mid, hi);
        } else {
            bisection_brackets(events, lo, mid);
        }
    }
}

/// A found bitrate lies between the search bounds, and unless it is the lowest
/// one the timeline survives it.
pub proof fn found_bitrate_survives(events: Seq<FrontierEvent>)
    requires
        events.len() >= 2,
    ensures
        MIN_BITRATE <= search_result(events).max_sustainable_bitrate <= MAX_BITRATE,
        search_result(events).max_sustainable_bitrate == MIN_BITRATE || simulation(
            by_time(events),
            search_result(events).max_sustainable_bitrate,
        ).survived,
{
    bisection_brackets(by_time(events), MIN_BITRATE, MAX_BITRATE);
}

/// A bitrate lies above the found one by no more than the tolerance, and the
/// timeline does not survive it or the search goes no higher.
pub open spec fn bounds_search(events: Seq<FrontierEvent>, h: u64) -> bool {
    let m = search_result(events).max_sustainable_bitrate;
    &&& m < h <= m + SEARCH_TOLERANCE
    &&& h == MAX_BITRATE || !simulation(by_time(events), h).survived
}

/// A found bitrate is the highest one up to the tolerance: close above it there
/// is one that the timeline does not survive, or the highest one that the search
/// considers. The rebuffers that are reported are those at the safe budget.
pub proof fn found_bitrate_is_tight(events: Seq<FrontierEvent>)
    requires
        events.len() >= 2,
    ensures
        ({
            let result = search_result(events);
            &&& exists|h: u64| #[trigger] bounds_search(events, h)
            &&& result.simulated_rebuffer_count == simulation(
                by_time(events),
                result.safe_budget,
            ).rebuffer_count
        }),
{
    let sorted = by_time(events);
    bisection_brackets(sorted, MIN_BITRATE, MAX_BITRATE);
    let h = bisect(sorted, MIN_BITRATE, MAX_BITRATE).hi;
    assert(bounds_search(events, h));
}

/// Events of different times may come in any order: the result is the same.
pub proof fn event_order_is_irrelevant(events: Seq<FrontierEvent>, shuffled: Seq<FrontierEvent>)
    requires
        events.to_multiset() == shuffled.to_multiset(),
        stable::distinct_keys(events, |e: FrontierEvent| e.t_ms as int),
    ensures
        search_result(events) == search_result(shuffled),
{
    broadcast use vstd::seq_lib::group_to_multiset_ensures;

    stable::order_is_irrelevant(events, shuffled, |e: FrontierEvent| e.t_ms as int);
    assert(events.to_multiset().len() == events.len());
    assert(shuffled.to_multiset().len() == shuffled.len());
}

proof fn lemma_halvings(events: Seq<FrontierEvent>, lo: u64, hi: u64, k: nat)
    requires
        hi - lo == 39_980 * vstd::arithmetic::power2::pow2(k),
        lo % 20 == 0,
    ensures
        bisect(events, lo, hi).iterations == k,
        bisect(events, lo, hi).lo % 20 == 0,
        bisect(events, lo, hi).hi - bisect(events, lo, hi).lo == 39_980,
        exists|n: int| bisect(events, lo, hi).lo == #[trigger] grid_point(lo as int, n),
    decreases k,
{
    vstd::arithmetic::power2::lemma_pow2_pos(k);
    if k == 0 {
        vstd::arithmetic::power2::lemma2_to64();
        assert(lo == grid_point(lo as int, 0));
    } else {
        let j = (k - 1) as nat;
        vstd::arithmetic::power2::lemma_pow2_pos(j);
        vstd::arithmetic::power2::lemma_pow2_unfold(k);
        let half = 39_980 * vstd::arithmetic::power2::pow2(j);
        let mid = ((lo + hi) / 2) as u64;
        assert(mid == lo + half);
        assert(half % 20 == 0) by {
            assert(half == 20 * (1_999 * vstd::arithmetic::power2::pow2(j)));
        }
        assert(mid % 20 == 0);
        lemma_halvings(events, mid, hi, j);
        lemma_halvings(events, lo, mid, j);
        if simulation(events, mid).survived {
            let n = choose|n: int|
                bisect(events, mid, hi).lo == #[trigger] grid_point(mid as int, n);
            let p = vstd::arithmetic::power2::pow2(j) as int;
            assert(grid_point(mid as int, n) == grid_point(lo as int, n + p));
        }
    }
}

/// The bitrate that lies a number of steps of 39980 units above another.
pub open spec fn grid_point(base: int, n: int) -> int {
    base + 39_980 * n
}

/// Each halving decides between the halves: the search ends in the upper half if
/// and only if the middle survives, and where a search of that half alone ends.
pub proof fn middle_decides(events: Seq<FrontierEvent>, lo: u64, hi: u64)
    requires
        lo <= hi,
        hi - lo > 65_536,
    ensures
        ({
            let mid = ((lo + hi) / 2) as u64;
            &&& bisect(events, lo, hi).lo >= mid <==> simulation(events, mid).survived
            &&& bisect(events, lo, hi).hi <= mid <==> !simulation(events, mid).survived
            &&& simulation(events, mid).survived ==> bisect(events, lo, hi).lo == bisect(
                events,
                mid,
                hi,
            ).lo && bisect(events, lo, hi).hi == bisect(events, mid, hi).hi
            &&& !simulation(events, mid).survived ==> bisect(events, lo, hi).lo == bisect(
                events,
                lo,
                mid,
            ).lo && bisect(events, lo, hi).hi == bisect(events, lo, mid).hi
        }),
{
    let mid = ((lo + hi) / 2) as u64;
    bisection_brackets(events, mid, hi);
    bisection_brackets(events, lo, mid);
}

/// The search ends between two neighbours of a grid from 1 to 2000 Mbps in steps of
/// 39980 units. The lower one is what is found. It survives unless it is the
/// lowest, and the upper one does not unless it is the highest.
pub proof fn search_ends_on_the_grid(events: Seq<FrontierEvent>)
    requires
        events.len() >= 2,
    ensures
        ({
            let m = search_result(events).max_sustainable_bitrate;
            &&& exists|n: int| m == #[trigger] grid_point(655_360, n)
            &&& m == 655_360 || simulation(by_time(events), m).survived
            &&& m + 39_980 == 1_310_720_000 || !simulation(
                by_time(events),
                (m + 39_980) as u64,
            ).survived
        }),
{
    let sorted = by_time(events);
    vstd::arithmetic::power2::lemma2_to64();
    bisection_brackets(sorted, MIN_BITRATE, MAX_BITRATE);
    lemma_halvings(sorted, MIN_BITRATE, MAX_BITRATE, 15);
}

/// Where a timeline survives every bitrate up to one and none above it, that is the
/// bitrate that is found, but for the step to the next point of the grid below.
pub proof fn threshold_is_found(events: Seq<FrontierEvent>, threshold: u64)
    requires
        events.len() >= 2,
        655_360 <= threshold < 1_310_720_000,
        forall|rate: u64|
            (#[trigger] simulation(by_time(events), rate)).survived <==> rate <= threshold,
    ensures
        ({
            let m = search_result(events).max_sustainable_bitrate;
            m <= threshold < m + 39_980
        }),
{
    search_ends_on_the_grid(events);
    bisection_brackets(by_time(events), MIN_BITRATE, MAX_BITRATE);
}

/// The search takes fifteen halvings, and the safe budget is 85 percent of the
/// sustainable bitrate without rounding.
pub proof fn safe_budget_is_exact(events: Seq<FrontierEvent>)
    requires
        events.len() >= 2,
    ensures
        search_result(events).search_iterations == 15,
        100 * search_result(events).safe_budget == 85 * search_result(
            events,
        ).max_sustainable_bitrate,
{
    vstd::arithmetic::power2::lemma2_to64();
    bisection_brackets(by_time(events), MIN_BITRATE, MAX_BITRATE);
    lemma_halvings(by_time(events), MIN_BITRATE, MAX_BITRATE, 15);
}

/// A pause at the end of a run cannot help: a bitrate that survives a timeline
/// with an event behind it that brings no data survives the timeline itself.
pub proof fn tail_drain_only_lowers(events: Seq<FrontierEvent>, tail: FrontierEvent, rate: u64)
    requires
        events.len() > 0,
        tail.delta_contiguous_bytes == 0,
        simulation(events.push(tail), rate).survived,
    ensures
        simulation(events, rate).survived,
{
    if rate > 0 {
        assert(events.push(tail).drop_last() =~= events);
        lemma_idle_player_is_short(events, rate);
    }
}

/// A player that is not running holds less than the startup buffer.
proof fn lemma_idle_player_is_short(events: Seq<FrontierEvent>, rate: u64)
    requires
        events.len() > 0,
    ensures
        !player_after(events, rate).started ==> player_after(events, rate).buffer < drain(
            rate,
            STARTUP_BUFFER_MS as int,
        ),
{
}

// ---------------------------------------------------------------------------
// What the player comes to
// ---------------------------------------------------------------------------

/// The bytes that the events from `i` up to, but not with, `j` bring.
pub open spec fn bytes_in(events: Seq<FrontierEvent>, i: int, j: int) -> int
    decreases j - i,
{
    if j <= i {
        0
    } else {
        bytes_in(events, i, j - 1) + events[j - 1].delta_contiguous_bytes
    }
}

/// The milliseconds that pass from event `i` to event `j`. A clock that goes back
/// stands still.
pub open spec fn time_in(events: Seq<FrontierEvent>, i: int, j: int) -> int
    decreases j - i,
{
    if j <= i {
        0
    } else {
        time_in(events, i, j - 1) + if events[j].t_ms > events[j - 1].t_ms {
            events[j].t_ms - events[j - 1].t_ms
        } else {
            0
        }
    }
}

/// The times of the events ascend.
pub open spec fn in_time_order(events: Seq<FrontierEvent>) -> bool {
    forall|i: int, j: int|
        0 <= i <= j < events.len() ==> (#[trigger] events[i]).t_ms <= (#[trigger] events[j]).t_ms
}

/// Playback starts with event `s`: with its data, and not before, three seconds
/// are there.
pub open spec fn starts_at(events: Seq<FrontierEvent>, rate: u64, s: int) -> bool {
    &&& 0 <= s < events.len()
    &&& 131_072 * bytes_in(events, 0, s) < 25 * rate * 3_000
    &&& 25 * rate * 3_000 <= 131_072 * bytes_in(events, 0, s + 1)
}

/// Up to event `n` a player that started with event `s` has not consumed more
/// than had arrived, and since no event before more than what arrived since then
/// and fifty seconds.
pub open spec fn keeps_up(events: Seq<FrontierEvent>, rate: u64, s: int, n: int) -> bool {
    &&& 25 * rate * time_in(events, s, n) <= 131_072 * bytes_in(events, 0, n)
    &&& forall|j: int|
        s <= j < n ==> 25 * rate * #[trigger] time_in(events, j, n) <= 25 * rate * 50_000
            + 131_072 * bytes_in(events, j + 1, n)
}

/// A player starts with event `s` and keeps up with all that follow.
pub open spec fn plays_through(events: Seq<FrontierEvent>, rate: u64, s: int) -> bool {
    &&& starts_at(events, rate, s)
    &&& forall|n: int| s < n < events.len() ==> #[trigger] keeps_up(events, rate, s, n)
}

/// What a player that started with event `s` holds after event `n` where nothing
/// was left out: what has arrived less what it has consumed.
pub open spec fn in_hand(events: Seq<FrontierEvent>, rate: u64, s: int, n: int) -> int {
    131_072 * bytes_in(events, 0, n + 1) - 25 * rate * time_in(events, s, n)
}

/// What a player holds after event `n` where it was full, with fifty seconds, after
/// event `j`: this less what it has consumed since, and what has arrived.
pub open spec fn since_full(events: Seq<FrontierEvent>, rate: u64, j: int, n: int) -> int {
    25 * rate * 50_000 - 25 * rate * time_in(events, j, n) + 131_072 * bytes_in(
        events,
        j + 1,
        n + 1,
    )
}

/// A level is the lowest of those that the data and the cap allow.
pub open spec fn is_level(events: Seq<FrontierEvent>, rate: u64, s: int, n: int, level: int) -> bool {
    &&& level <= in_hand(events, rate, s, n)
    &&& forall|j: int| s <= j <= n ==> level <= #[trigger] since_full(events, rate, j, n)
    &&& level == in_hand(events, rate, s, n) || exists|j: int|
        s <= j <= n && level == #[trigger] since_full(events, rate, j, n)
}

spec fn is_player(events: Seq<FrontierEvent>, rate: u64, m: int, p: PlayerState) -> bool {
    &&& p.last_t_ms == events[m - 1].t_ms
    &&& 131_072 * bytes_in(events, 0, m) < 25 * rate * 3_000 ==> !p.started && p.rebuffers == 0
        && p.buffer == 131_072 * bytes_in(events, 0, m)
    &&& forall|s: int| #[trigger]
        starts_at(events, rate, s) && s < m ==> {
            &&& (forall|n: int| s < n < m ==> #[trigger] keeps_up(events, rate, s, n)) ==> {
                &&& p.started
                &&& p.rebuffers == 0
                &&& is_level(events, rate, s, m - 1, p.buffer as int)
            }
            &&& (exists|n: int| s < n < m && !(#[trigger] keeps_up(events, rate, s, n)))
                ==> p.rebuffers >= 1
        }
}

proof fn lemma_bytes_grow(events: Seq<FrontierEvent>, i: int, j: int)
    requires
        0 <= i <= j <= events.len(),
    ensures
        bytes_in(events, 0, i) <= bytes_in(events, 0, j),
    decreases j - i,
{
    if i < j {
        lemma_bytes_grow(events, i, j - 1);
    }
}

proof fn lemma_some_start(events: Seq<FrontierEvent>, rate: u64, m: int) -> (s: int)
    requires
        rate > 0,
        0 <= m <= events.len(),
        25 * rate * 3_000 <= 131_072 * bytes_in(events, 0, m),
    ensures
        starts_at(events, rate, s),
        s < m,
    decreases m,
{
    if m > 0 && 25 * rate * 3_000 <= 131_072 * bytes_in(events, 0, m - 1) {
        lemma_some_start(events, rate, m - 1)
    } else {
        m - 1
    }
}

/// What is consumed up to event `n` is what is consumed up to the one before and
/// what is consumed in between.
proof fn lemma_drain_step(events: Seq<FrontierEvent>, rate: u64, j: int, n: int)
    requires
        0 <= j < n < events.len(),
    ensures
        25 * rate * time_in(events, j, n) == 25 * rate * time_in(events, j, n - 1) + drain(
            rate,
            elapsed(events[n - 1].t_ms, events[n].t_ms),
        ),
{
    let gap = elapsed(events[n - 1].t_ms, events[n].t_ms);
    let w = 25 * rate;
    assert(w * (time_in(events, j, n - 1) + gap) == w * time_in(events, j, n - 1) + w * gap)
        by (nonlinear_arith);
}

proof fn lemma_player_step(events: Seq<FrontierEvent>, rate: u64, m: int, p: PlayerState)
    requires
        rate > 0,
        1 <= m < events.len(),
        is_player(events, rate, m, p),
    ensures
        is_player(events, rate, m + 1, player_step(p, rate, events[m])),
{
    let e = events[m];
    let next = player_step(p, rate, e);
    let gap = elapsed(events[m - 1].t_ms, e.t_ms);
    let cap = 25 * rate * 50_000;
    assert(drain(rate, gap) >= 0) by (nonlinear_arith)
        requires
            drain(rate, gap) == 25 * rate * gap,
            gap >= 0,
    ;
    assert(bytes_in(events, 0, m + 1) == bytes_in(events, 0, m) + e.delta_contiguous_bytes);
    assert forall|s: int| #[trigger] starts_at(events, rate, s) && s < m + 1 implies {
        &&& (forall|n: int| s < n < m + 1 ==> #[trigger] keeps_up(events, rate, s, n)) ==> {
            &&& next.started
            &&& next.rebuffers == 0
            &&& is_level(events, rate, s, m, next.buffer as int)
        }
        &&& (exists|n: int| s < n < m + 1 && !(#[trigger] keeps_up(events, rate, s, n)))
            ==> next.rebuffers >= 1
    } by {
        if s == m {
            assert(time_in(events, s, m) == 0);
            assert(25 * rate * time_in(events, s, m) == 0) by (nonlinear_arith)
                requires
                    time_in(events, s, m) == 0,
            ;
            assert(since_full(events, rate, m, m) == cap);
            assert(is_level(events, rate, s, m, next.buffer as int));
        } else {
            let steady = forall|n: int| s < n < m ==> #[trigger] keeps_up(events, rate, s, n);
            lemma_drain_step(events, rate, s, m);
            assert forall|j: int| s <= j < m implies #[trigger] since_full(events, rate, j, m)
                == since_full(events, rate, j, m - 1) - drain(rate, gap) + 131_072
                * e.delta_contiguous_bytes by {
                lemma_drain_step(events, rate, j, m);
            }
            assert(time_in(events, m, m) == 0);
            assert(25 * rate * time_in(events, m, m) == 0) by (nonlinear_arith)
                requires
                    time_in(events, m, m) == 0,
            ;
            assert(since_full(events, rate, m, m) == cap);
            if steady {
                let level = p.buffer as int;
                assert(is_level(events, rate, s, m - 1, level));
                assert(keeps_up(events, rate, s, m) <==> drain(rate, gap) <= level) by {
                    if keeps_up(events, rate, s, m) {
                        if level != in_hand(events, rate, s, m - 1) {
                            let j = choose|j: int|
                                s <= j <= m - 1 && level == #[trigger] since_full(
                                    events,
                                    rate,
                                    j,
                                    m - 1,
                                );
                            lemma_drain_step(events, rate, j, m);
                            assert(25 * rate * time_in(events, j, m) <= cap + 131_072 * bytes_in(
                                events,
                                j + 1,
                                m,
                            ));
                        }
                    }
                    if drain(rate, gap) <= level {
                        assert forall|j: int| s <= j < m implies 25 * rate * #[trigger] time_in(
                            events,
                            j,
                            m,
                        ) <= 25 * rate * 50_000 + 131_072 * bytes_in(events, j + 1, m) by {
                            lemma_drain_step(events, rate, j, m);
                            assert(level <= since_full(events, rate, j, m - 1));
                        }
                    }
                }
                if keeps_up(events, rate, s, m) {
                    let level2 = next.buffer as int;
                    assert forall|j: int| s <= j <= m implies level2 <= #[trigger] since_full(
                        events,
                        rate,
                        j,
                        m,
                    ) by {
                        if j < m {
                            assert(level <= since_full(events, rate, j, m - 1));
                        }
                    }
                    assert(is_level(events, rate, s, m, level2)) by {
                        if level2 == cap {
                            assert(level2 == since_full(events, rate, m, m));
                        } else if level != in_hand(events, rate, s, m - 1) {
                            let j = choose|j: int|
                                s <= j <= m - 1 && level == #[trigger] since_full(
                                    events,
                                    rate,
                                    j,
                                    m - 1,
                                );
                            assert(level2 == since_full(events, rate, j, m));
                        }
                    }
                }
            } else {
                assert(exists|n: int| s < n < m && !(#[trigger] keeps_up(events, rate, s, n)));
                assert(p.rebuffers >= 1);
            }
        }
    }
}

proof fn lemma_player(events: Seq<FrontierEvent>, rate: u64, m: int)
    requires
        rate > 0,
        1 <= m <= events.len(),
    ensures
        is_player(events, rate, m, player_after(events.take(m), rate)),
    decreases m,
{
    let seen = events.take(m);
    if m == 1 {
        let p = player_after(seen, rate);
        assert(bytes_in(events, 0, 1) == bytes_in(events, 0, 0) + events[0].delta_contiguous_bytes);
        assert(elapsed(events[0].t_ms, events[0].t_ms) == 0);
        assert forall|s: int| #[trigger] starts_at(events, rate, s) && s < 1 implies p.started
            && p.rebuffers == 0 && is_level(events, rate, s, 0, p.buffer as int) by {
            assert(time_in(events, 0, 0) == 0);
            assert(25 * rate * time_in(events, 0, 0) == 0) by (nonlinear_arith)
                requires
                    time_in(events, 0, 0) == 0,
            ;
            assert(since_full(events, rate, 0, 0) == 25 * rate * 50_000);
        }
    } else {
        lemma_player(events, rate, m - 1);
        assert(seen.drop_last() =~= events.take(m - 1));
        assert(seen.last() == events[m - 1]);
        lemma_player_step(events, rate, m - 1, player_after(events.take(m - 1), rate));
    }
}

/// A bitrate survives a timeline if and only if playback starts at some event and
/// from then on never consumes more than it has: at each later event no more than
/// all that arrived before it, and, since the player holds no more than fifty
/// seconds, since each earlier event no more than these and what arrived after it.
/// In a millisecond a rate of one unit consumes 25 parts of a byte of which a byte
/// has 131072.
pub proof fn survival_is_keeping_up(events: Seq<FrontierEvent>, rate: u64)
    requires
        rate > 0,
        events.len() > 0,
    ensures
        simulation(events, rate).survived <==> exists|s: int| #[trigger]
            plays_through(events, rate, s),
{
    let n = events.len() as int;
    let p = player_after(events, rate);
    lemma_player(events, rate, n);
    assert(events.take(n) =~= events);
    if simulation(events, rate).survived {
        let s = lemma_some_start(events, rate, n);
        assert(starts_at(events, rate, s));
        assert(plays_through(events, rate, s));
    }
    if exists|s: int| #[trigger] plays_through(events, rate, s) {
        let s = choose|s: int| #[trigger] plays_through(events, rate, s);
        assert(starts_at(events, rate, s));
    }
}

proof fn lemma_split(events: Seq<FrontierEvent>, i: int, j: int, n: int)
    requires
        0 <= i <= j <= n,
    ensures
        bytes_in(events, i, n) == bytes_in(events, i, j) + bytes_in(events, j, n),
        time_in(events, i, n) == time_in(events, i, j) + time_in(events, j, n),
    decreases n - j,
{
    if j < n {
        lemma_split(events, i, j, n - 1);
    }
}

proof fn lemma_time_is_difference(events: Seq<FrontierEvent>, i: int, j: int)
    requires
        in_time_order(events),
        0 <= i <= j < events.len(),
    ensures
        time_in(events, i, j) == events[j].t_ms - events[i].t_ms,
    decreases j - i,
{
    if i < j {
        lemma_time_is_difference(events, i, j - 1);
        assert(events[j - 1].t_ms <= events[j].t_ms);
    }
}

/// No data is lost and none appears: where a timeline in the order of time
/// survives, and what has arrived less what was consumed never exceeds fifty
/// seconds of playback, the player holds at the end all that has arrived less what
/// it consumed in the whole time since playback started.
pub proof fn player_conserves_data(events: Seq<FrontierEvent>, rate: u64, s: int)
    requires
        rate > 0,
        in_time_order(events),
        simulation(events, rate).survived,
        starts_at(events, rate, s),
        forall|n: int|
            s <= n < events.len() ==> 131_072 * bytes_in(events, 0, n + 1) - 25 * rate * (
            #[trigger] events[n].t_ms - events[s].t_ms) <= 25 * rate * 50_000,
    ensures
        player_after(events, rate).buffer == 131_072 * bytes_in(events, 0, events.len() as int) - 25
            * rate * (events.last().t_ms - events[s].t_ms),
        25 * rate * (events.last().t_ms - events[s].t_ms) <= 131_072 * bytes_in(
            events,
            0,
            events.len() as int,
        ),
{
    let len = events.len() as int;
    let last = len - 1;
    let level = player_after(events, rate).buffer as int;
    lemma_player(events, rate, len);
    assert(events.take(len) =~= events);
    assert(forall|n: int| s < n < len ==> #[trigger] keeps_up(events, rate, s, n)) by {
        if exists|n: int| s < n < len && !(#[trigger] keeps_up(events, rate, s, n)) {
            assert(player_after(events, rate).rebuffers >= 1);
        }
    }
    assert(is_level(events, rate, s, last, level));
    lemma_time_is_difference(events, s, last);
    if level != in_hand(events, rate, s, last) {
        let j = choose|j: int|
            s <= j <= last && level == #[trigger] since_full(events, rate, j, last);
        lemma_time_is_difference(events, s, j);
        lemma_split(events, s, j, last);
        lemma_split(events, 0, j + 1, len);
        let w = 25 * rate;
        let a = time_in(events, s, j);
        let b = time_in(events, j, last);
        assert(w * (a + b) == w * a + w * b) by (nonlinear_arith);
        assert(131_072 * bytes_in(events, 0, j + 1) - 25 * rate * (events[j].t_ms - events[s].t_ms)
            <= 25 * rate * 50_000);
    }
}

/// Two players are in the same state, but for the smallest buffer that they saw.
spec fn alike(p: PlayerState, q: PlayerState) -> bool {
    &&& p.buffer == q.buffer
    &&& p.started == q.started
    &&& p.last_t_ms == q.last_t_ms
    &&& p.rebuffers == q.rebuffers
}

proof fn lemma_player_bounds(events: Seq<FrontierEvent>, rate: u64)
    requires
        events.len() > 0,
        rate > 0,
    ensures
        ({
            let p = player_after(events, rate);
            &&& p.last_t_ms == events.last().t_ms
            &&& p.buffer <= drain(rate, MAX_BUFFER_MS as int)
            &&& !p.started ==> p.buffer < drain(rate, STARTUP_BUFFER_MS as int)
            &&& p.rebuffers < events.len()
        }),
    decreases events.len(),
{
    if events.len() > 1 {
        lemma_player_bounds(events.drop_last(), rate);
    } else {
        assert(events.last() == events[0]);
    }
}

proof fn lemma_idle_step(p: PlayerState, rate: u64, idle: FrontierEvent, e: FrontierEvent)
    requires
        rate > 0,
        p.buffer <= drain(rate, MAX_BUFFER_MS as int),
        !p.started ==> p.buffer < drain(rate, STARTUP_BUFFER_MS as int),
        p.last_t_ms <= idle.t_ms <= e.t_ms,
        idle.delta_contiguous_bytes == 0,
    ensures
        alike(player_step(player_step(p, rate, idle), rate, e), player_step(p, rate, e)),
{
    let a = elapsed(p.last_t_ms, idle.t_ms);
    let b = elapsed(idle.t_ms, e.t_ms);
    let w = 25 * rate;
    assert(w * (a + b) == w * a + w * b) by (nonlinear_arith);
    assert(w * a >= 0 && w * b >= 0) by (nonlinear_arith)
        requires
            a >= 0,
            b >= 0,
            w >= 0,
    ;
}

proof fn lemma_idle_event(
    events: Seq<FrontierEvent>,
    longer: Seq<FrontierEvent>,
    k: int,
    n: int,
    rate: u64,
)
    requires
        rate > 0,
        0 < k < n <= events.len(),
        longer == events.insert(k, longer[k]),
        longer[k].delta_contiguous_bytes == 0,
        events[k - 1].t_ms <= longer[k].t_ms <= events[k].t_ms,
    ensures
        alike(player_after(longer.take(n + 1), rate), player_after(events.take(n), rate)),
    decreases n,
{
    let before = events.take(n - 1);
    assert(events.take(n).drop_last() =~= before);
    assert(events.take(n).last() == events[n - 1]);
    assert(longer.take(n + 1).drop_last() =~= longer.take(n));
    assert(longer.take(n + 1).last() == events[n - 1]);
    if n == k + 1 {
        assert(longer.take(n).drop_last() =~= before);
        assert(longer.take(n).last() == longer[k]);
        lemma_player_bounds(before, rate);
        assert(before.last() == events[k - 1]);
        let p = player_after(before, rate);
        assert(player_after(events.take(n), rate) == player_step(p, rate, events[k]));
        assert(player_after(longer.take(n), rate) == player_step(p, rate, longer[k]));
        lemma_idle_step(p, rate, longer[k], events[k]);
    } else {
        lemma_idle_event(events, longer, k, n - 1, rate);
    }
}

/// Looking more often changes nothing: an event without data at a time between
/// those of its neighbours leaves the buffer at the end, the survival and the
/// number of rebuffers as they are, at every rate.
pub proof fn idle_event_changes_nothing(
    events: Seq<FrontierEvent>,
    k: int,
    idle: FrontierEvent,
    rate: u64,
)
    requires
        0 < k < events.len(),
        idle.delta_contiguous_bytes == 0,
        events[k - 1].t_ms <= idle.t_ms <= events[k].t_ms,
    ensures
        simulation(events.insert(k, idle), rate).survived == simulation(events, rate).survived,
        simulation(events.insert(k, idle), rate).rebuffer_count == simulation(
            events,
            rate,
        ).rebuffer_count,
        rate > 0 ==> player_after(events.insert(k, idle), rate).buffer == player_after(
            events,
            rate,
        ).buffer,
{
    if rate > 0 {
        let longer = events.insert(k, idle);
        let n = events.len() as int;
        lemma_idle_event(events, longer, k, n, rate);
        assert(events.take(n) =~= events);
        assert(longer.take(n + 1) =~= longer);
    }
}

proof fn lemma_restart(events: Seq<FrontierEvent>, n: int, m: int, rate: u64)
    requires
        rate > 0,
        0 < n < m <= events.len(),
        player_after(events.take(n), rate).started,
        player_after(events.take(n), rate).rebuffers == 0,
        player_after(events.take(n + 1), rate).rebuffers > 0,
    ensures
        ({
            let p = player_after(events.take(m), rate);
            let q = player_after(events.skip(n).take(m - n), rate);
            &&& p.buffer == q.buffer
            &&& p.started == q.started
            &&& p.last_t_ms == q.last_t_ms
            &&& p.rebuffers == q.rebuffers + 1
        }),
    decreases m,
{
    let rest = events.skip(n);
    assert(events.take(m).drop_last() =~= events.take(m - 1));
    assert(events.take(m).last() == events[m - 1]);
    if m == n + 1 {
        assert(rest.take(1)[0] == events[n]);
        assert(elapsed(events[n].t_ms, events[n].t_ms) == 0);
    } else {
        lemma_restart(events, n, m - 1, rate);
        assert(rest.take(m - n).drop_last() =~= rest.take(m - n - 1));
        assert(rest.take(m - n).last() == events[m - 1]);
    }
}

/// Rebuffers are counted one by one. A timeline that survives has none, nor has
/// one that never brings enough to start. Where the event `n` is the first that a
/// timeline does not survive, the player runs dry there and begins anew with what
/// follows: there is one rebuffer more than in the timeline from that event on.
pub proof fn rebuffers_add_up(events: Seq<FrontierEvent>, rate: u64, n: int)
    requires
        rate > 0,
        0 < events.len() <= u32::MAX,
        0 <= n < events.len(),
    ensures
        simulation(events, rate).survived ==> simulation(events, rate).rebuffer_count == 0,
        131_072 * bytes_in(events, 0, events.len() as int) < 25 * rate * 3_000 ==> {
            &&& !simulation(events, rate).survived
            &&& simulation(events, rate).rebuffer_count == 0
        },
        simulation(events.take(n), rate).survived && !simulation(
            events.take(n + 1),
            rate,
        ).survived ==> {
            &&& !simulation(events, rate).survived
            &&& simulation(events, rate).rebuffer_count == simulation(
                events.skip(n),
                rate,
            ).rebuffer_count + 1
            &&& player_after(events, rate).buffer == player_after(events.skip(n), rate).buffer
            &&& player_after(events, rate).started == player_after(events.skip(n), rate).started
        },
{
    let len = events.len() as int;
    lemma_player(events, rate, len);
    assert(events.take(len) =~= events);
    lemma_player_bounds(events, rate);
    if simulation(events.take(n), rate).survived && !simulation(
        events.take(n + 1),
        rate,
    ).survived {
        assert(events.take(n + 1).drop_last() =~= events.take(n));
        lemma_restart(events, n, len, rate);
        assert(events.skip(n).take(len - n) =~= events.skip(n));
        lemma_player_bounds(events.skip(n), rate);
    }
}

proof fn lemma_least_buffer(events: Seq<FrontierEvent>, rate: u64, m: int)
    requires
        rate > 0,
        1 <= m <= events.len(),
    ensures
        ({
            let least = player_after(events.take(m), rate).min_buffer_ms;
            &&& forall|n: int|
                1 <= n <= m && (#[trigger] player_after(events.take(n), rate)).started ==> least
                    <= player_after(events.take(n), rate).buffer as int / (25 * rate)
            &&& least == u64::MAX || exists|n: int|
                1 <= n <= m && (#[trigger] player_after(events.take(n), rate)).started && least
                    == player_after(events.take(n), rate).buffer as int / (25 * rate)
        }),
    decreases m,
{
    let seen = events.take(m);
    let p = player_after(seen, rate);
    let here = p.buffer as int / (25 * rate);
    lemma_player_bounds(seen, rate);
    assert(drain(rate, 1) == 25 * rate);
    assert(0 <= here <= 50_000) by (nonlinear_arith)
        requires
            here == p.buffer as int / (25 * rate),
            0 <= p.buffer as int <= 25 * rate * 50_000,
            rate > 0,
    ;
    if m == 1 {
        assert(p.started ==> p.min_buffer_ms == here);
    } else {
        lemma_least_buffer(events, rate, m - 1);
        let before = player_after(events.take(m - 1), rate);
        assert(seen.drop_last() =~= events.take(m - 1));
        if p.started {
            assert(p.min_buffer_ms == min_int(before.min_buffer_ms as int, here));
        } else {
            assert(p.min_buffer_ms == before.min_buffer_ms);
        }
    }
}

/// The smallest buffer that is reported is one that the player had after some
/// event while it played, in whole milliseconds of playback, and none was
/// smaller. A player that is not playing at the end reports zero.
pub proof fn least_buffer_is_reported(events: Seq<FrontierEvent>, rate: u64)
    requires
        rate > 0,
        events.len() > 0,
    ensures
        ({
            let least = simulation(events, rate).min_buffer_ms;
            if player_after(events, rate).started {
                &&& forall|n: int|
                    1 <= n <= events.len() && (#[trigger] player_after(
                        events.take(n),
                        rate,
                    )).started ==> least <= player_after(events.take(n), rate).buffer as int / (25
                        * rate)
                &&& exists|n: int|
                    1 <= n <= events.len() && (#[trigger] player_after(
                        events.take(n),
                        rate,
                    )).started && least == player_after(events.take(n), rate).buffer as int / (25
                        * rate)
            } else {
                least == 0
            }
        }),
{
    let len = events.len() as int;
    let p = player_after(events, rate);
    assert(events.take(len) =~= events);
    lemma_least_buffer(events, rate, len);
    if p.started && p.min_buffer_ms == u64::MAX {
        lemma_player_bounds(events, rate);
        assert(p.buffer as int / (25 * rate) <= 50_000) by (nonlinear_arith)
            requires
                0 <= p.buffer as int <= 25 * rate * 50_000,
                rate > 0,
        ;
        assert(player_after(events.take(len), rate).started);
    }
}

/// Without events nothing is played; at a rate of zero everything is.
pub proof fn trivial_simulations(events: Seq<FrontierEvent>, rate: u64)
    ensures
        events.len() == 0 ==> simulation(events, rate) == (SimulationRun {
            survived: false,
            rebuffer_count: 0,
            min_buffer_ms: 0,
        }),
        events.len() > 0 && rate == 0 ==> simulation(events, rate) == (SimulationRun {
            survived: true,
            rebuffer_count: 0,
            min_buffer_ms: u64::MAX,
        }),
{
}

/// The search goes by time: the events that it plays ascend in time, and for each
/// time they are those of that time, in the order in which they were given.
pub proof fn search_goes_by_time(events: Seq<FrontierEvent>, t_ms: u64)
    ensures
        in_time_order(by_time(events)),
        by_time(events).len() == events.len(),
        by_time(events).filter(|e: FrontierEvent| e.t_ms == t_ms) == events.filter(
            |e: FrontierEvent| e.t_ms == t_ms,
        ),
{
    let key = |e: FrontierEvent| e.t_ms as int;
    let sorted = by_time(events);
    stable::sort_is_stable(events, key);
    stable::with_key_is_filter(events, key, t_ms as int);
    stable::with_key_is_filter(sorted, key, t_ms as int);
    assert((|e: FrontierEvent| e.t_ms == t_ms) =~= (|e: FrontierEvent| key(e) == t_ms as int));
    assert forall|i: int, j: int| 0 <= i <= j < sorted.len() implies (
    #[trigger] sorted[i]).t_ms <= (#[trigger] sorted[j]).t_ms by {
        assert(key(sorted[i]) <= key(sorted[j]));
    }
}

/// A bitrate lies above another by no more than 0.1 Mbps, and it is 2000 Mbps or
/// the timeline does not keep up with it.
pub open spec fn is_too_high(events: Seq<FrontierEvent>, m: u64, h: u64) -> bool {
    &&& m < h <= m + 65_536
    &&& h == 1_310_720_000 || forall|s: int| !(#[trigger] plays_through(by_time(events), h, s))
}

/// What the search reports of a timeline of two events or more: a bitrate from 1
/// to 2000 Mbps that the timeline keeps up with, unless it is the lowest; 85
/// percent of it; and no more than 0.1 Mbps above it one that the timeline does
/// not keep up with, unless it is the highest. Fewer events sustain nothing.
pub proof fn search_finds_what_is_sustained(events: Seq<FrontierEvent>)
    ensures
        search_result(events).startup_buffer_ms == 3_000,
        search_result(events).max_buffer_ms == 50_000,
        events.len() < 2 ==> {
            &&& search_result(events).max_sustainable_bitrate == 0
            &&& search_result(events).safe_budget == 0
            &&& search_result(events).search_iterations == 0
            &&& search_result(events).simulated_rebuffer_count == 0
        },
        events.len() >= 2 ==> {
            let m = search_result(events).max_sustainable_bitrate;
            &&& 655_360 <= m <= 1_310_720_000
            &&& m == 655_360 || exists|s: int| #[trigger] plays_through(by_time(events), m, s)
            &&& 100 * search_result(events).safe_budget == 85 * m
            &&& exists|h: u64| #[trigger] is_too_high(events, m, h)
            &&& search_result(events).simulated_rebuffer_count == simulation(
                by_time(events),
                search_result(events).safe_budget,
            ).rebuffer_count
        },
{
    if events.len() >= 2 {
        let sorted = by_time(events);
        let m = search_result(events).max_sustainable_bitrate;
        search_goes_by_time(events, 0);
        found_bitrate_survives(events);
        found_bitrate_is_tight(events);
        safe_budget_is_exact(events);
        survival_is_keeping_up(sorted, m);
        let h = choose|h: u64| #[trigger] bounds_search(events, h);
        survival_is_keeping_up(sorted, h);
        assert(is_too_high(events, m, h));
    }
}

/// A player that keeps up holds the least that the data and the cap allow: what has
/// arrived less what was consumed, or, where it was full after some event, fifty
/// seconds and what has arrived since less what was consumed since.
pub proof fn player_holds_what_is_left(events: Seq<FrontierEvent>, rate: u64, s: int)
    requires
        rate > 0,
        plays_through(events, rate, s),
    ensures
        player_after(events, rate).started,
        player_after(events, rate).rebuffers == 0,
        is_level(events, rate, s, events.len() - 1, player_after(events, rate).buffer as int),
{
    let len = events.len() as int;
    lemma_player(events, rate, len);
    assert(events.take(len) =~= events);
}

/// A megabit per second is 125 bytes in a millisecond: at that rate a player
/// consumes exactly so much.
pub proof fn megabit_is_125_bytes_a_millisecond(ms: int)
    ensures
        25 * RATE_UNITS_PER_MBPS * ms == 131_072 * (125 * ms),
{
    let w = 25 * RATE_UNITS_PER_MBPS;
    assert(w * ms == 131_072 * (125 * ms)) by (nonlinear_arith)
        requires
            w == 131_072 * 125,
    ;
}

} // verus!
