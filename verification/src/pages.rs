//! Aggregation of received bytes into pages.

use crate::events::TraceEvent;
use vstd::prelude::*;

verus! {

/// Counts the bytes of one request and the pages that they fill.
#[derive(Debug, Clone, Copy, PartialEq, Eq, Structural)]
pub struct PageCounter {
    pub request_id: u64,
    pub chunk_id: u64,
    pub page_size: u64,
    pub current_page_bytes: u64,
    pub current_page_index: u64,
    pub bytes_received: u64,
}

impl PageCounter {
    /// The offset in the file at which the page accounting stands.
    pub open spec fn position(self) -> int {
        self.current_page_index * self.page_size + self.current_page_bytes
    }

    /// The current page is not full, what it holds is a part of the bytes received,
    /// and these lie before the position.
    pub open spec fn wf(self) -> bool {
        &&& self.current_page_bytes < self.page_size
        &&& self.current_page_bytes <= self.bytes_received
        &&& self.bytes_received <= self.position()
    }

    /// The bytes of the pages that have arrived in full.
    pub open spec fn arrived(self) -> int {
        self.bytes_received - self.current_page_bytes
    }

    /// The number of pages that `len` more bytes fill.
    pub open spec fn pages_filled(self, len: int) -> int {
        (self.current_page_bytes + len) / self.page_size as int
    }

    /// The counter after `len` more bytes.
    pub open spec fn after(self, len: int) -> PageCounter {
        PageCounter {
            current_page_bytes: ((self.current_page_bytes + len) % self.page_size as int) as u64,
            current_page_index: (self.current_page_index + self.pages_filled(len)) as u64,
            bytes_received: (self.bytes_received + len) as u64,
            ..self
        }
    }

    /// The event for the `k`-th full page from the current one on.
    pub open spec fn full_page(self, k: int, timestamp_ns: u64) -> TraceEvent {
        TraceEvent::PageCompleted {
            request_id: self.request_id,
            chunk_id: self.chunk_id,
            page_index: (self.current_page_index + k) as u64,
            page_start_byte: ((self.current_page_index + k) * self.page_size) as u64,
            page_end_byte: ((self.current_page_index + k + 1) * self.page_size) as u64,
            page_bytes: self.page_size,
            cumulative_bytes: (self.bytes_received - self.current_page_bytes + (k + 1)
                * self.page_size) as u64,
            timestamp_ns,
        }
    }

    /// The events for the pages that `len` more bytes fill, in order.
    pub open spec fn events(self, len: int, timestamp_ns: u64) -> Seq<TraceEvent> {
        Seq::new(self.pages_filled(len) as nat, |k: int| self.full_page(k, timestamp_ns))
    }

    /// The event for the page that is filled in part.
    pub open spec fn partial_page(self, timestamp_ns: u64) -> TraceEvent {
        TraceEvent::PageCompleted {
            request_id: self.request_id,
            chunk_id: self.chunk_id,
            page_index: self.current_page_index,
            page_start_byte: (self.current_page_index * self.page_size) as u64,
            page_end_byte: self.position() as u64,
            page_bytes: self.current_page_bytes,
            cumulative_bytes: self.bytes_received,
            timestamp_ns,
        }
    }
}

/// Bytes that arrive in two parts fill the same pages and leave the same
/// counter as if they had arrived at once.
pub proof fn split_write_is_irrelevant(c: PageCounter, m: int, n: int, timestamp_ns: u64)
    requires
        c.wf(),
        0 <= m,
        0 <= n,
        c.position() + m + n <= u64::MAX,
    ensures
        c.after(m).wf(),
        c.after(m).after(n) == c.after(m + n),
        c.events(m, timestamp_ns) + c.after(m).events(n, timestamp_ns) == c.events(
            m + n,
            timestamp_ns,
        ),
        c.after(m + n).position() == c.position() + m + n,
{
    let size = c.page_size as int;
    let a = c.current_page_bytes + m;
    let p = a / size;
    let r = a % size;
    let q = (r + n) / size;
    vstd::arithmetic::div_mod::lemma_fundamental_div_mod(a, size);
    vstd::arithmetic::div_mod::lemma_mod_bound(a, size);
    vstd::arithmetic::div_mod::lemma_div_pos_is_pos(a, size);
    vstd::arithmetic::div_mod::lemma_fundamental_div_mod(r + n, size);
    vstd::arithmetic::div_mod::lemma_mod_bound(r + n, size);
    vstd::arithmetic::div_mod::lemma_div_pos_is_pos(r + n, size);
    assert(a + n == (p + q) * size + (r + n) % size) by (nonlinear_arith)
        requires
            a == size * p + r,
            r + n == size * q + (r + n) % size,
    ;
    vstd::arithmetic::div_mod::lemma_fundamental_div_mod_converse(
        a + n,
        size,
        p + q,
        (r + n) % size,
    );
    let i = c.current_page_index as int;
    assert((i + p) * size == i * size + p * size) by (nonlinear_arith);
    assert(i + p <= (i + p) * size) by (nonlinear_arith)
        requires
            size >= 1,
            i + p >= 0,
    ;
    assert((i + p + q) * size == i * size + (p + q) * size) by (nonlinear_arith);
    assert(i + p + q <= (i + p + q) * size) by (nonlinear_arith)
        requires
            size >= 1,
            i + p + q >= 0,
    ;
    let whole = c.events(m + n, timestamp_ns);
    let parts = c.events(m, timestamp_ns) + c.after(m).events(n, timestamp_ns);
    assert(size * p == p * size) by (nonlinear_arith);
    assert(c.after(m).bytes_received == c.bytes_received + m);
    assert forall|k: int| 0 <= k < whole.len() implies whole[k] == parts[k] by {
        if k >= p {
            assert((p + (k - p) + 1) * size == p * size + (k - p + 1) * size) by (nonlinear_arith);
            assert((i + p) + (k - p) == i + k);
        }
    }
    assert(whole =~= parts);
}

impl PageCounter {
    /// The accounting for a request whose range starts at `range_start`: it
    /// begins with the page that holds this offset.
    pub fn new(request_id: u64, chunk_id: u64, range_start: u64, page_size: u64) -> (res: Self)
        requires
            page_size > 0,
        ensures
            res.wf(),
            res == (PageCounter {
                request_id,
                chunk_id,
                page_size,
                current_page_bytes: 0,
                current_page_index: range_start / page_size,
                bytes_received: 0,
            }),
            res.position() <= range_start,
    {
        proof {
            vstd::arithmetic::div_mod::lemma_fundamental_div_mod(
                range_start as int,
                page_size as int,
            );
            assert((range_start / page_size) * page_size == page_size * (range_start / page_size))
                by (nonlinear_arith);
        }
        PageCounter {
            request_id,
            chunk_id,
            page_size,
            current_page_bytes: 0,
            current_page_index: range_start / page_size,
            bytes_received: 0,
        }
    }

    /// The bytes of the pages that have arrived in full.
    pub fn full_page_bytes(&self) -> (res: u64)
        requires
            self.wf(),
        ensures
            res == self.arrived(),
    {
        self.bytes_received - self.current_page_bytes
    }

    /// The completion event for the current page as far as it is filled.
    pub fn page_event(&self, timestamp_ns: u64) -> (res: TraceEvent)
        requires
            self.position() <= u64::MAX,
        ensures
            res == self.partial_page(timestamp_ns),
    {
        assert(0 <= self.current_page_index * self.page_size) by (nonlinear_arith);
        let page_start: u64 = self.current_page_index * self.page_size;
        TraceEvent::PageCompleted {
            request_id: self.request_id,
            chunk_id: self.chunk_id,
            page_index: self.current_page_index,
            page_start_byte: page_start,
            page_end_byte: page_start + self.current_page_bytes,
            page_bytes: self.current_page_bytes,
            cumulative_bytes: self.bytes_received,
            timestamp_ns,
        }
    }

    /// Account for `len` received bytes: one event for each page that they fill.
    pub fn write(&mut self, len: u64, timestamp_ns: u64) -> (res: Vec<TraceEvent>)
        requires
            old(self).wf(),
            old(self).position() + len <= u64::MAX,
        ensures
            final(self).wf(),
            *final(self) == old(self).after(len as int),
            final(self).position() == old(self).position() + len,
            res@ == old(self).events(len as int, timestamp_ns),
    {
        let mut res: Vec<TraceEvent> = Vec::new();
        let mut remaining: u64 = len;
        let ghost start = *self;
        proof {
            split_write_is_irrelevant(start, 0, 0, timestamp_ns);
            vstd::arithmetic::div_mod::lemma_basic_div(
                start.current_page_bytes as int,
                start.page_size as int,
            );
            vstd::arithmetic::div_mod::lemma_small_mod(
                start.current_page_bytes as nat,
                start.page_size as nat,
            );
            assert(start.after(0) == start);
            assert(start.events(0, timestamp_ns) =~= Seq::empty());
        }
        while remaining > 0
            invariant
                start == *old(self),
                start.wf(),
                start.position() + len <= u64::MAX,
                remaining <= len,
                *self == start.after(len - remaining),
                self.wf(),
                self.position() == start.position() + (len - remaining),
                res@ == start.events(len - remaining, timestamp_ns),
            decreases remaining,
        {
            let page_remaining: u64 = self.page_size - self.current_page_bytes;
            let to_consume: u64 = if remaining < page_remaining {
                remaining
            } else {
                page_remaining
            };
            let ghost before = *self;
            let ghost done = len - remaining;
            let ghost recorded = res@;
            proof {
                split_write_is_irrelevant(start, done, to_consume as int, timestamp_ns);
                split_write_is_irrelevant(before, to_consume as int, 0, timestamp_ns);
            }
            assert(before.position() + to_consume <= u64::MAX);
            self.current_page_bytes = self.current_page_bytes + to_consume;
            self.bytes_received = self.bytes_received + to_consume;
            remaining = remaining - to_consume;
            if self.current_page_bytes >= self.page_size {
                proof {
                    vstd::arithmetic::div_mod::lemma_div_by_self(self.page_size as int);
                    vstd::arithmetic::div_mod::lemma_mod_self_0(self.page_size as int);
                    let i = before.current_page_index as int;
                    let size = before.page_size as int;
                    assert((i + 1) * size == i * size + size) by (nonlinear_arith);
                    assert(i + 1 <= (i + 1) * size) by (nonlinear_arith)
                        requires
                            size >= 1,
                            i >= 0,
                    ;
                }
                let event = self.page_event(timestamp_ns);
                assert(event == before.full_page(0, timestamp_ns));
                res.push(event);
                self.current_page_index = self.current_page_index + 1;
                self.current_page_bytes = 0;
                assert(before.events(to_consume as int, timestamp_ns) =~= seq![event]);
                assert(res@ =~= recorded + before.events(to_consume as int, timestamp_ns));
            } else {
                proof {
                    vstd::arithmetic::div_mod::lemma_basic_div(
                        self.current_page_bytes as int,
                        self.page_size as int,
                    );
                    vstd::arithmetic::div_mod::lemma_small_mod(
                        self.current_page_bytes as nat,
                        self.page_size as nat,
                    );
                }
                assert(before.events(to_consume as int, timestamp_ns) =~= Seq::empty());
                assert(res@ =~= recorded + before.events(to_consume as int, timestamp_ns));
            }
            assert(*self == before.after(to_consume as int));
        }
        res
    }

    /// The event for a last page that is not full, where there is one.
    pub fn flush(&self, timestamp_ns: u64) -> (res: Option<TraceEvent>)
        requires
            self.position() <= u64::MAX,
        ensures
            res == if self.current_page_bytes > 0 {
                Some(self.partial_page(timestamp_ns))
            } else {
                None
            },
    {
        if self.current_page_bytes > 0 {
            Some(self.page_event(timestamp_ns))
        } else {
            None
        }
    }
}

/// Bytes that fill no page are no arrival, however many they are. Each page that
/// bytes fill is one.
pub proof fn only_full_pages_arrive(counter: PageCounter, len: int)
    requires
        counter.wf(),
        0 <= len,
        counter.position() + len <= u64::MAX,
    ensures
        counter.after(len).arrived() == counter.arrived() + counter.pages_filled(len)
            * counter.page_size,
        counter.pages_filled(len) == 0 <==> counter.after(len).arrived() == counter.arrived(),
        counter.current_page_bytes + len < counter.page_size <==> counter.pages_filled(len) == 0,
{
    let size = counter.page_size as int;
    let n = counter.pages_filled(len);
    pages_cover_bytes(counter, len);
    vstd::arithmetic::div_mod::lemma_div_pos_is_pos(counter.current_page_bytes + len, size);
    assert(n * size == 0 <==> n == 0) by (nonlinear_arith)
        requires
            size > 0,
    ;
    assert(n >= 1 ==> n * size >= size) by (nonlinear_arith)
        requires
            size > 0,
    ;
}

/// The pages that arriving bytes fill and what they leave in the current page
/// account for exactly these bytes and what was in the page before.
pub proof fn pages_cover_bytes(counter: PageCounter, len: int)
    requires
        counter.wf(),
        0 <= len,
        counter.position() + len <= u64::MAX,
    ensures
        counter.pages_filled(len) * counter.page_size + counter.after(len).current_page_bytes
            == counter.current_page_bytes + len,
        counter.after(len).bytes_received == counter.bytes_received + len,
{
    split_write_is_irrelevant(counter, len, 0, 0);
    vstd::arithmetic::div_mod::lemma_fundamental_div_mod(
        counter.current_page_bytes + len,
        counter.page_size as int,
    );
    assert(counter.pages_filled(len) * counter.page_size == counter.page_size
        * counter.pages_filled(len)) by (nonlinear_arith);
}

/// The events for the pages that bytes fill follow each other without a gap, page
/// by page from the current one on. Each is a whole page, and says how much had
/// been received when it was full.
pub proof fn pages_follow_each_other(counter: PageCounter, len: int, timestamp_ns: u64, k: int)
    requires
        counter.wf(),
        0 <= len,
        counter.position() + len <= u64::MAX,
        0 <= k < counter.events(len, timestamp_ns).len(),
    ensures
        counter.events(len, timestamp_ns).len() * counter.page_size <= counter.current_page_bytes
            + len,
        counter.current_page_bytes + len < (counter.events(len, timestamp_ns).len() + 1)
            * counter.page_size,
        counter.events(len, timestamp_ns)[k] matches TraceEvent::PageCompleted {
            request_id,
            chunk_id,
            page_index,
            page_start_byte,
            page_end_byte,
            page_bytes,
            cumulative_bytes,
            timestamp_ns: at,
        } && {
            &&& request_id == counter.request_id
            &&& chunk_id == counter.chunk_id
            &&& page_index == counter.current_page_index + k
            &&& page_start_byte == page_index * counter.page_size
            &&& page_end_byte == page_start_byte + counter.page_size
            &&& page_bytes == counter.page_size
            &&& cumulative_bytes == counter.bytes_received - counter.current_page_bytes + (k + 1)
                * counter.page_size
            &&& at == timestamp_ns
        },
{
    let size = counter.page_size as int;
    let i = counter.current_page_index as int;
    let a = counter.current_page_bytes + len;
    let n = counter.pages_filled(len);
    split_write_is_irrelevant(counter, len, 0, timestamp_ns);
    vstd::arithmetic::div_mod::lemma_fundamental_div_mod(a, size);
    vstd::arithmetic::div_mod::lemma_mod_bound(a, size);
    vstd::arithmetic::div_mod::lemma_div_pos_is_pos(a, size);
    assert(n * size <= a < (n + 1) * size) by (nonlinear_arith)
        requires
            a == size * n + a % size,
            0 <= a % size < size,
    ;
    assert((k + 1) * size <= n * size) by (nonlinear_arith)
        requires
            k + 1 <= n,
            size > 0,
    ;
    assert((i + k + 1) * size == i * size + (k + 1) * size) by (nonlinear_arith);
    assert((i + k) * size + size == (i + k + 1) * size) by (nonlinear_arith);
    assert(i + k + 1 <= (i + k + 1) * size) by (nonlinear_arith)
        requires
            i + k + 1 >= 0,
            size >= 1,
    ;
    assert(0 <= (i + k) * size && 0 <= (k + 1) * size) by (nonlinear_arith)
        requires
            i + k >= 0,
            k + 1 >= 0,
            size >= 1,
    ;
}

/// A page that is there in part begins where its number says, ends where the data
/// ends, and counts the bytes in it.
pub proof fn partial_page_is_what_is_there(counter: PageCounter, timestamp_ns: u64)
    requires
        counter.wf(),
        counter.position() <= u64::MAX,
    ensures
        counter.partial_page(timestamp_ns) matches TraceEvent::PageCompleted {
            request_id,
            chunk_id,
            page_index,
            page_start_byte,
            page_end_byte,
            page_bytes,
            cumulative_bytes,
            timestamp_ns: at,
        } && {
            &&& request_id == counter.request_id
            &&& chunk_id == counter.chunk_id
            &&& page_index == counter.current_page_index
            &&& page_start_byte == page_index * counter.page_size
            &&& page_end_byte == page_start_byte + counter.current_page_bytes
            &&& page_bytes == counter.current_page_bytes
            &&& cumulative_bytes == counter.bytes_received
            &&& at == timestamp_ns
        },
{
    assert(0 <= counter.current_page_index * counter.page_size) by (nonlinear_arith);
}

/// A counter after some bytes has received these and stands where they end, and is
/// still that of the same request.
pub proof fn counter_moves_with_the_bytes(counter: PageCounter, len: int)
    requires
        counter.wf(),
        0 <= len,
        counter.position() + len <= u64::MAX,
    ensures
        ({
            let next = counter.after(len);
            &&& next.bytes_received == counter.bytes_received + len
            &&& next.current_page_index * next.page_size + next.current_page_bytes
                == counter.current_page_index * counter.page_size + counter.current_page_bytes + len
            &&& next.current_page_bytes < next.page_size
            &&& next.page_size == counter.page_size
            &&& next.request_id == counter.request_id
            &&& next.chunk_id == counter.chunk_id
        }),
{
    split_write_is_irrelevant(counter, len, 0, 0);
}

} // verus!
