//! Per-stream backlogs that always accept records and evict the oldest when
//! full, with counters of what was received, exported and evicted.
use vstd::prelude::*;
use crate::ring::{RingBuffer, newest, drained_count};
use crate::types::{DecodedLogItems, UnifiedIp};

verus! {

/// `x` reduced to a `u64` the way wrapping addition reduces it.
pub open spec fn wrap_u64(x: int) -> u64 {
    (x % 0x1_0000_0000_0000_0000) as u64
}

/// The backlog after pushing `items`, in order, onto backlog `b` bounded by
/// `cap`: the newest `cap` records once anything is pushed.
pub open spec fn backlog_after_push<T>(b: Seq<T>, items: Seq<T>, cap: nat) -> Seq<T> {
    if items.len() == 0 {
        b
    } else {
        newest(b + items, cap)
    }
}

/// Records that pushing `n` records evicts from a backlog of `len` records
/// bounded by `cap`. A backlog of capacity zero evicts what it held and keeps
/// none of the pushed records.
pub open spec fn evictions(len: nat, n: nat, cap: nat) -> nat {
    if n == 0 {
        0
    } else if cap == 0 {
        len
    } else if len + n > cap {
        (len + n - cap) as nat
    } else {
        0
    }
}

proof fn lemma_wrap_add(x: int, d: u64)
    requires
        x >= 0,
    ensures
        wrap_u64(x) + d > u64::MAX ==> wrap_u64(x + d) == wrap_u64(x) + d - 0x1_0000_0000_0000_0000,
        wrap_u64(x) + d <= u64::MAX ==> wrap_u64(x + d) == wrap_u64(x) + d,
{
    let m: int = 0x1_0000_0000_0000_0000;
    vstd::arithmetic::div_mod::lemma_add_mod_noop(x, d as int, m);
    vstd::arithmetic::div_mod::lemma_small_mod(d as nat, m as nat);
    let a = x % m;
    if a + d >= m {
        vstd::arithmetic::div_mod::lemma_mod_sub_multiples_vanish(a + d, m);
        vstd::arithmetic::div_mod::lemma_small_mod((a + d - m) as nat, m as nat);
    } else {
        vstd::arithmetic::div_mod::lemma_small_mod((a + d) as nat, m as nat);
    }
}

proof fn lemma_wrap_wrap(x: int, d: int)
    requires
        x >= 0,
        d >= 0,
    ensures
        wrap_u64(wrap_u64(x) + d) == wrap_u64(x + d),
{
    let m: int = 0x1_0000_0000_0000_0000;
    vstd::arithmetic::div_mod::lemma_add_mod_noop_right(d, x, m);
    assert(wrap_u64(x) as int == x % m);
}

proof fn lemma_wrap_small(x: u64)
    ensures
        wrap_u64(x as int) == x,
{
    vstd::arithmetic::div_mod::lemma_small_mod(x as nat, 0x1_0000_0000_0000_0000nat);
}

/// Counts of records received, exported and evicted by one stream; each
/// count wraps around on overflow.
pub struct StreamCounter {
    received: u64,
    flushed: u64,
    evicted: u64,
}

impl View for StreamCounter {
    /// (received, flushed, evicted).
    type V = (u64, u64, u64);

    closed spec fn view(&self) -> (u64, u64, u64) {
        (self.received, self.flushed, self.evicted)
    }
}

impl Default for StreamCounter {
    fn default() -> (r: Self)
        ensures
            r@ == (0u64, 0u64, 0u64),
    {
        StreamCounter { received: 0, flushed: 0, evicted: 0 }
    }
}

impl StreamCounter {
    pub fn add_received(&mut self, n: u64)
        ensures
            final(self)@ == (wrap_u64(old(self)@.0 + n), old(self)@.1, old(self)@.2),
    {
        proof {
            lemma_wrap_small(self.received);
            lemma_wrap_add(self.received as int, n);
        }
        self.received = self.received.wrapping_add(n);
    }

    pub fn add_flushed(&mut self, n: u64)
        ensures
            final(self)@ == (old(self)@.0, wrap_u64(old(self)@.1 + n), old(self)@.2),
    {
        proof {
            lemma_wrap_small(self.flushed);
            lemma_wrap_add(self.flushed as int, n);
        }
        self.flushed = self.flushed.wrapping_add(n);
    }

    pub fn add_evicted(&mut self, n: u64)
        ensures
            final(self)@ == (old(self)@.0, old(self)@.1, wrap_u64(old(self)@.2 + n)),
    {
        proof {
            lemma_wrap_small(self.evicted);
            lemma_wrap_add(self.evicted as int, n);
        }
        self.evicted = self.evicted.wrapping_add(n);
    }

    /// (received, flushed, evicted).
    pub fn snapshot(&self) -> (r: (u64, u64, u64))
        ensures
            r == self@,
    {
        (self.received, self.flushed, self.evicted)
    }
}

/// The counters of every stream.
pub struct Stats {
    pub unified_ip: StreamCounter,
}

impl Default for Stats {
    fn default() -> (r: Self)
        ensures
            r.unified_ip@ == (0u64, 0u64, 0u64),
    {
        Stats { unified_ip: StreamCounter::default() }
    }
}

/// Records queued for export: those taken out for an export that has not
/// finished come first, then the ring of newer records.
struct StreamBufferInner<T> {
    ring: RingBuffer<T>,
    export_batch: std::collections::VecDeque<T>,
}

impl<T> StreamBufferInner<T> {
    spec fn backlog(&self) -> Seq<T> {
        self.export_batch@ + self.ring@
    }

    spec fn wf(&self) -> bool {
        &&& self.ring.wf()
        &&& self.export_batch@.len() + self.ring@.len() <= usize::MAX
    }

    fn backlog_len(&self) -> (r: usize)
        requires
            self.wf(),
        ensures
            r == self.backlog().len(),
    {
        self.ring.len() + self.export_batch.len()
    }
}

/// Drops the oldest queued record, if any, and counts it as evicted.
fn evict_oldest<T>(inner: &mut StreamBufferInner<T>, counter: &mut StreamCounter)
    requires
        old(inner).wf(),
    ensures
        final(inner).wf(),
        final(inner).ring.capacity() == old(inner).ring.capacity(),
        old(inner).backlog().len() == 0 ==> final(inner).backlog() == old(inner).backlog()
            && final(counter)@ == old(counter)@,
        old(inner).backlog().len() > 0 ==> final(inner).backlog() == old(
            inner,
        ).backlog().drop_first() && final(counter)@ == (
            old(counter)@.0,
            old(counter)@.1,
            wrap_u64(old(counter)@.2 + 1),
        ),
{
    let ghost b = inner.backlog();
    if inner.export_batch.pop_front().is_some() {
        counter.add_evicted(1);
        assert(inner.backlog() =~= b.drop_first());
        return;
    }
    if inner.ring.len() > 0 {
        inner.ring.drop_oldest();
        counter.add_evicted(1);
        assert(inner.backlog() =~= b.drop_first());
    }
}

/// A stream's backlog: always accepts records, and when `capacity` records
/// are queued drops the oldest first.
pub struct StreamBuffer<T> {
    inner: StreamBufferInner<T>,
    capacity: usize,
}

impl<T> View for StreamBuffer<T> {
    type V = Seq<T>;

    /// The queued records, oldest first.
    closed spec fn view(&self) -> Seq<T> {
        self.inner.backlog()
    }
}

/// Pushing one more record keeps the newest `cap` of everything pushed.
proof fn lemma_newest_push<T>(a: Seq<T>, x: T, cap: nat)
    ensures
        newest(newest(a, cap).push(x), cap) == newest(a.push(x), cap),
{
    if cap == 0 {
        assert(newest(newest(a, cap).push(x), cap) =~= Seq::<T>::empty());
        assert(newest(a.push(x), cap) =~= Seq::<T>::empty());
    } else if a.len() > cap {
        assert(a.skip(a.len() - cap).push(x).skip(1) =~= a.push(x).skip(a.len() + 1 - cap));
    }
}

/// Making room in `before` gave `mid`, and the ring push of `x` gave
/// `after`: the backlog is then the newest `cap` records of `before` and `x`.
proof fn lemma_push_step<T>(before: Seq<T>, mid: Seq<T>, after: Seq<T>, x: T, cap: nat)
    requires
        mid == before.skip(evictions(before.len(), 1, cap) as int),
        mid.len() < cap || mid.len() == 0,
        after == crate::ring::bounded_push(mid, cap, x),
    ensures
        after == newest(before.push(x), cap),
{
    let bl = before.len();
    if cap == 0 {
        assert(newest(before.push(x), cap) =~= Seq::<T>::empty());
        assert(after =~= Seq::<T>::empty());
    } else {
        assert(after =~= mid.push(x));
        if bl >= cap {
            assert(before.skip(bl + 1 - cap).push(x) =~= before.push(x).skip(bl + 1 - cap));
        } else {
            assert(before.skip(0) =~= before);
        }
    }
}

impl<T> StreamBuffer<T> {
    /// The number of records the backlog holds before it starts evicting.
    pub closed spec fn capacity(&self) -> nat {
        self.capacity as nat
    }

    pub closed spec fn wf(&self) -> bool {
        &&& self.inner.wf()
        &&& self.inner.ring.capacity() == self.capacity
    }

    /// The queued records always fit a `usize` count.
    pub proof fn lemma_backlog_fits(&self)
        requires
            self.wf(),
        ensures
            self@.len() <= usize::MAX,
    {
    }

    pub fn new(capacity: usize) -> (r: Self)
        requires
            capacity <= isize::MAX,
        ensures
            r.wf(),
            r.capacity() == capacity,
            r@ == Seq::<T>::empty(),
    {
        let r = StreamBuffer {
            inner: StreamBufferInner {
                ring: RingBuffer::with_capacity(capacity),
                export_batch: std::collections::VecDeque::new(),
            },
            capacity,
        };
        assert(r@ =~= Seq::<T>::empty());
        r
    }

    /// Evicts the oldest records until fewer than `capacity` are queued, or
    /// none is.
    fn make_room(&mut self, counter: &mut StreamCounter)
        requires
            old(self).wf(),
        ensures
            final(self).wf(),
            final(self).capacity() == old(self).capacity(),
            final(self)@ == old(self)@.skip(evictions(old(self)@.len(), 1, old(self).capacity()) as int),
            final(self)@.len() < old(self).capacity() || final(self)@.len() == 0,
            final(counter)@ == (
                old(counter)@.0,
                old(counter)@.1,
                wrap_u64(old(counter)@.2 + evictions(old(self)@.len(), 1, old(self).capacity())),
            ),
    {
        let ghost b = self@;
        let ghost c0 = counter@;
        let ghost mut k: nat = 0;
        proof {
            lemma_wrap_small(c0.2);
            assert(b.skip(0) =~= b);
        }
        while self.inner.backlog_len() >= self.capacity && self.inner.backlog_len() > 0
            invariant
                self.wf(),
                self.capacity == old(self).capacity,
                b == old(self)@,
                k <= b.len(),
                k == 0 || b.len() - k + 1 >= self.capacity,
                self@ == b.skip(k as int),
                counter@ == (c0.0, c0.1, wrap_u64(c0.2 + k)),
            decreases self@.len(),
        {
            evict_oldest(&mut self.inner, counter);
            proof {
                lemma_wrap_add(c0.2 + k, 1);
                k = k + 1;
                assert(self@ =~= b.skip(k as int));
            }
        }
    }

    /// Accepts `item` as the newest record, first evicting the oldest ones so
    /// that at most `capacity` stay queued; counts one record received. A
    /// backlog of capacity zero evicts what it held and keeps nothing.
    pub fn push(&mut self, item: T, counter: &mut StreamCounter)
        requires
            old(self).wf(),
        ensures
            final(self).wf(),
            final(self).capacity() == old(self).capacity(),
            final(self)@ == newest(old(self)@.push(item), old(self).capacity()),
            final(counter)@ == (
                wrap_u64(old(counter)@.0 + 1),
                old(counter)@.1,
                wrap_u64(old(counter)@.2 + evictions(old(self)@.len(), 1, old(self).capacity())),
            ),
    {
        let ghost b = self@;
        self.make_room(counter);
        let ghost mid = self@;
        self.inner.ring.push(item);
        counter.add_received(1);
        proof {
            lemma_push_step(b, mid, self@, item, self.capacity as nat);
        }
    }

    /// Queues every record of `items`, in order, as `push` does, and counts
    /// them as received in one step.
    pub fn push_batch(&mut self, items: Vec<T>, counter: &mut StreamCounter)
        requires
            old(self).wf(),
        ensures
            final(self).wf(),
            final(self).capacity() == old(self).capacity(),
            final(self)@ == backlog_after_push(old(self)@, items@, old(self).capacity()),
            final(counter)@ == (
                wrap_u64(old(counter)@.0 + items@.len()),
                old(counter)@.1,
                wrap_u64(
                    old(counter)@.2 + evictions(old(self)@.len(), items@.len(), old(self).capacity()),
                ),
            ),
    {
        let ghost b = self@;
        let ghost all = items@;
        let ghost c0 = counter@;
        let ghost cap = self.capacity as nat;
        let mut received: u64 = 0;
        proof {
            lemma_wrap_small(c0.2);
            assert(all.take(0) =~= Seq::<T>::empty());
            assert(items.len() == all.len());
        }
        for item in it: items
            invariant
                self.wf(),
                self.capacity == cap,
                b == old(self)@,
                all == it.seq(),
                all.len() <= usize::MAX,
                received == it.index(),
                self@ == backlog_after_push(b, all.take(it.index() as int), cap),
                counter@ == (c0.0, c0.1, wrap_u64(c0.2 + evictions(b.len(), it.index() as nat, cap))),
        {
            let ghost i = it.index() as int;
            let ghost before = self@;
            let ghost x = all[i];
            self.make_room(counter);
            let ghost mid = self@;
            self.inner.ring.push(item);
            received = received + 1;
            proof {
                let bl = before.len();
                assert(all.take(i + 1) =~= all.take(i).push(x));
                lemma_push_step(before, mid, self@, x, cap);
                if i == 0 {
                    assert(b + all.take(1) =~= b.push(x));
                } else {
                    lemma_newest_push(b + all.take(i), x, cap);
                    assert((b + all.take(i)).push(x) =~= b + all.take(i + 1));
                }
                lemma_wrap_wrap(c0.2 + evictions(b.len(), i as nat, cap), evictions(bl, 1, cap) as int);
                assert(evictions(b.len(), i as nat, cap) + evictions(bl, 1, cap) == evictions(
                    b.len(),
                    (i + 1) as nat,
                    cap,
                ));
            }
        }
        proof {
            assert(all.take(all.len() as int) =~= all);
        }
        if received > 0 {
            counter.add_received(received);
        } else {
            proof {
                lemma_wrap_small(c0.0);
            }
        }
    }

    /// Takes up to `max` of the oldest queued records out of the backlog,
    /// oldest first.
    pub fn take_batch_for_export(&mut self, max: usize) -> (r: Vec<T>)
        requires
            old(self).wf(),
        ensures
            final(self).wf(),
            final(self).capacity() == old(self).capacity(),
            r@ == old(self)@.take(drained_count(old(self)@.len(), max as nat) as int),
            final(self)@ == old(self)@.skip(drained_count(old(self)@.len(), max as nat) as int),
            r@.len() <= max,
            r@.len() == max || final(self)@.len() == 0,
            r@ + final(self)@ == old(self)@,
    {
        let ghost b = self@;
        while self.inner.export_batch.len() < max
            invariant
                self.wf(),
                self.capacity == old(self).capacity,
                b == old(self)@,
                self@ == b,
            ensures
                self.wf(),
                self.capacity == old(self).capacity,
                self@ == b,
                self.inner.export_batch@.len() >= max || self.inner.ring@.len() == 0,
            decreases self.inner.ring@.len(),
        {
            let need = max - self.inner.export_batch.len();
            let mut drained: Vec<T> = Vec::new();
            let ghost e0 = self.inner.export_batch@;
            let ghost r0 = self.inner.ring@;
            self.inner.ring.drain_batch(need, &mut drained);
            if drained.len() == 0 {
                break;
            }
            let ghost d = drained@;
            let ghost r1 = self.inner.ring@;
            proof {
                assert(d + r1 =~= r0);
            }
            for item in it: drained
                invariant
                    self.inner.ring.wf(),
                    self.inner.ring.capacity() == self.capacity,
                    self.capacity == old(self).capacity,
                    self.inner.ring@ == r1,
                    d == it.seq(),
                    e0.len() + d.len() + r1.len() <= usize::MAX,
                    self.inner.export_batch@ == e0 + d.take(it.index() as int),
            {
                let ghost i = it.index() as int;
                self.inner.export_batch.push_back(item);
                proof {
                    assert(d.take(i + 1) =~= d.take(i).push(d[i]));
                }
            }
            proof {
                assert(d.take(d.len() as int) =~= d);
                assert(self@ =~= e0 + r0);
            }
        }
        let take = if max < self.inner.export_batch.len() {
            max
        } else {
            self.inner.export_batch.len()
        };
        let ghost e1 = self.inner.export_batch@;
        let ghost r = self.inner.ring@;
        proof {
            assert(take == drained_count(b.len(), max as nat));
        }
        let mut out: Vec<T> = Vec::with_capacity(take);
        while out.len() < take
            invariant
                self.wf(),
                self.capacity == old(self).capacity,
                b == e1 + r,
                take <= e1.len(),
                out@.len() <= take,
                out@ == e1.take(out@.len() as int),
                self.inner.export_batch@ == e1.skip(out@.len() as int),
                self.inner.ring@ == r,
            decreases take - out@.len(),
        {
            let ghost j = out@.len() as int;
            match self.inner.export_batch.pop_front() {
                Some(item) => {
                    out.push(item);
                },
                None => {},
            }
            proof {
                assert(out@ =~= e1.take(j + 1));
                assert(self.inner.export_batch@ =~= e1.skip(j + 1));
            }
        }
        proof {
            assert(out@ =~= b.take(take as int));
            assert(self@ =~= b.skip(take as int));
        }
        out
    }

    /// Puts the records of a failed export back in front of the backlog, in
    /// their order.
    pub fn restore_export_batch(&mut self, batch: Vec<T>)
        requires
            old(self).wf(),
            batch@.len() + old(self)@.len() <= usize::MAX,
        ensures
            final(self).wf(),
            final(self).capacity() == old(self).capacity(),
            final(self)@ == batch@ + old(self)@,
    {
        if batch.len() == 0 {
            assert(batch@ + self@ =~= self@);
            return;
        }
        let ghost e0 = self.inner.export_batch@;
        let ghost all = batch@;
        let mut merged: std::collections::VecDeque<T> = std::collections::VecDeque::with_capacity(
            batch.len() + self.inner.export_batch.len(),
        );
        proof {
            assert(all.take(0) =~= Seq::<T>::empty());
        }
        for item in it: batch
            invariant
                all == it.seq(),
                merged@ == all.take(it.index() as int),
        {
            let ghost i = it.index() as int;
            merged.push_back(item);
            proof {
                assert(all.take(i + 1) =~= all.take(i).push(all[i]));
            }
        }
        proof {
            assert(all.take(all.len() as int) =~= all);
            assert(e0.skip(0) =~= e0);
        }
        while self.inner.export_batch.len() > 0
            invariant
                self.inner.ring.wf(),
                self.inner.ring.capacity() == self.capacity,
                self.inner.ring@ == old(self).inner.ring@,
                self.capacity == old(self).capacity,
                e0 == old(self).inner.export_batch@,
                self.inner.export_batch@.len() <= e0.len(),
                self.inner.export_batch@ == e0.skip(e0.len() - self.inner.export_batch@.len()),
                merged@ == all + e0.take(e0.len() - self.inner.export_batch@.len()),
            decreases self.inner.export_batch@.len(),
        {
            let ghost j = e0.len() - self.inner.export_batch@.len();
            match self.inner.export_batch.pop_front() {
                Some(item) => {
                    merged.push_back(item);
                },
                None => {},
            }
            proof {
                assert(self.inner.export_batch@ =~= e0.skip(j + 1));
                assert(merged@ =~= all + e0.take(j + 1));
            }
        }
        self.inner.export_batch = merged;
        proof {
            assert(e0.take(e0.len() as int) =~= e0);
            assert(self@ =~= all + old(self)@);
        }
    }

    /// Number of queued records.
    pub fn backlog_len(&self) -> (r: usize)
        requires
            self.wf(),
        ensures
            r == self@.len(),
    {
        self.inner.backlog_len()
    }
}

/// The backlog and counters after `push` of each record of `items`, in
/// order, starting from backlog `b` and counters `c`.
pub open spec fn push_each<T>(b: Seq<T>, c: (u64, u64, u64), items: Seq<T>, cap: nat) -> (
    Seq<T>,
    (u64, u64, u64),
)
    decreases items.len(),
{
    if items.len() == 0 {
        (b, c)
    } else {
        let (b1, c1) = push_each(b, c, items.drop_last(), cap);
        (
            newest(b1.push(items.last()), cap),
            (wrap_u64(c1.0 + 1), c1.1, wrap_u64(c1.2 + evictions(b1.len(), 1, cap))),
        )
    }
}

/// `push_batch` does what pushing its records one at a time does: the same
/// backlog and the same counters, and nothing at all for no records.
pub proof fn lemma_push_batch_is_push_each<T>(
    b: Seq<T>,
    c: (u64, u64, u64),
    items: Seq<T>,
    cap: nat,
)
    ensures
        push_each(b, c, items, cap) == (
            backlog_after_push(b, items, cap),
            (
                wrap_u64(c.0 + items.len()),
                c.1,
                wrap_u64(c.2 + evictions(b.len(), items.len(), cap)),
            ),
        ),
    decreases items.len(),
{
    let n = items.len();
    if n == 0 {
        lemma_wrap_small(c.0);
        lemma_wrap_small(c.2);
    } else {
        let p = items.drop_last();
        let x = items.last();
        lemma_push_batch_is_push_each(b, c, p, cap);
        let (b1, c1) = push_each(b, c, p, cap);
        assert(b + items =~= (b + p).push(x));
        if p.len() == 0 {
            assert(b + p =~= b);
        } else {
            lemma_newest_push(b + p, x, cap);
        }
        lemma_wrap_wrap(c.0 + p.len(), 1);
        lemma_wrap_wrap(c.2 + evictions(b.len(), p.len(), cap), evictions(b1.len(), 1, cap) as int);
        assert(evictions(b.len(), p.len(), cap) + evictions(b1.len(), 1, cap) == evictions(
            b.len(),
            n,
            cap,
        ));
    }
}

/// Every pushed record is accounted for: after pushing `items` onto a
/// backlog of `b` bounded by `cap`, the records queued plus the records
/// counted as evicted are the records that were queued plus those pushed, the
/// backlog holds at most `cap` records once anything is pushed, and the last
/// pushed record is the newest queued.
pub proof fn lemma_push_accounts_for_every_record<T>(b: Seq<T>, items: Seq<T>, cap: nat)
    requires
        cap > 0,
    ensures
        backlog_after_push(b, items, cap).len() + evictions(b.len(), items.len(), cap) == b.len()
            + items.len(),
        items.len() > 0 ==> backlog_after_push(b, items, cap).len() <= cap,
        items.len() > 0 ==> backlog_after_push(b, items, cap).last() == items.last(),
{
    if items.len() > 0 {
        let a = b + items;
        assert(a.last() == items.last());
        if a.len() > cap {
            assert(a.skip(a.len() - cap).last() == a.last());
        }
    }
}

/// An export that fails and is put back leaves the backlog as it was: the
/// records taken plus the records left are the records queued before.
pub proof fn lemma_failed_export_restores_backlog<T>(b: Seq<T>, max: nat)
    ensures
        b.take(drained_count(b.len(), max) as int) + b.skip(drained_count(b.len(), max) as int)
            == b,
{
    assert(b.take(drained_count(b.len(), max) as int) + b.skip(drained_count(b.len(), max) as int)
        =~= b);
}

/// Whether a stream's counters account for its records: every record
/// received has been exported, evicted, is queued (`queued` records), or is
/// out for an export that has not finished (`in_flight` records); counts
/// wrap around as the counters do.
pub open spec fn counts_balance(c: (u64, u64, u64), queued: nat, in_flight: nat) -> bool {
    c.0 == wrap_u64(c.1 + c.2 + queued + in_flight)
}

/// Pushing records keeps a stream's counters balanced with its backlog: the
/// records it counts as received are queued or counted as evicted.
pub proof fn lemma_push_keeps_counts_balanced<T>(
    c: (u64, u64, u64),
    b: Seq<T>,
    items: Seq<T>,
    cap: nat,
    in_flight: nat,
)
    requires
        cap > 0,
        counts_balance(c, b.len(), in_flight),
    ensures
        counts_balance(
            (wrap_u64(c.0 + items.len()), c.1, wrap_u64(c.2 + evictions(b.len(), items.len(), cap))),
            backlog_after_push(b, items, cap).len(),
            in_flight,
        ),
{
    lemma_push_accounts_for_every_record(b, items, cap);
    let e = evictions(b.len(), items.len(), cap);
    let rest = c.1 + backlog_after_push(b, items, cap).len() + in_flight;
    lemma_wrap_wrap(c.1 + c.2 + b.len() + in_flight, items.len() as int);
    lemma_wrap_wrap(c.2 + e, rest);
    assert(wrap_u64(c.2 + e) + rest == c.1 + wrap_u64(c.2 + e) + backlog_after_push(b, items, cap).len() + in_flight);
}

/// Taking records out for export, and putting a failed export back, move
/// records between the backlog and the export in flight and keep the
/// counters balanced; a successful export of `n` records counts them as
/// exported and keeps the counters balanced.
pub proof fn lemma_export_keeps_counts_balanced(c: (u64, u64, u64), queued: nat, in_flight: nat, n: nat)
    requires
        counts_balance(c, queued, in_flight + n),
        n <= u64::MAX,
    ensures
        counts_balance(c, queued + n, in_flight),
        counts_balance((c.0, wrap_u64(c.1 + n), c.2), queued, in_flight),
{
    lemma_wrap_wrap(c.1 + n, c.2 + queued + in_flight);
}

/// Why an export failed.
#[derive(Debug)]
pub enum LoggerError {
    Serialize,
}

impl LoggerError {
    /// The error's message.
    pub fn to_string(&self) -> (r: String)
        ensures
            r@ == "serialize error"@,
    {
        match self {
            LoggerError::Serialize => "serialize error".to_owned(),
        }
    }
}

/// What an exporter does next.
#[derive(Debug, PartialEq, Eq, Structural)]
pub enum ExporterAction {
    /// Nothing is queued: wait briefly and look again.
    Idle,
    /// Records are queued: take a batch and export it.
    Export,
    /// Nothing was queued: let other tasks run before polling again.
    Yield,
    /// Records were exported: go on exporting.
    Continue,
    /// The export failed: report it and wait before retrying.
    Backoff,
}

/// The exporter's next step given the number of queued records.
pub fn before_export(backlog: usize) -> (r: ExporterAction)
    ensures
        r == (if backlog == 0 {
            ExporterAction::Idle
        } else {
            ExporterAction::Export
        }),
{
    if backlog == 0 {
        ExporterAction::Idle
    } else {
        ExporterAction::Export
    }
}

/// The exporter's next step after an export that returned `result`.
pub fn after_export<E>(result: &Result<usize, E>) -> (r: ExporterAction)
    ensures
        r == match result {
            Ok(n) => if *n == 0 {
                ExporterAction::Yield
            } else {
                ExporterAction::Continue
            },
            Err(_) => ExporterAction::Backoff,
        },
{
    match result {
        Ok(0) => ExporterAction::Yield,
        Ok(_) => ExporterAction::Continue,
        Err(_) => ExporterAction::Backoff,
    }
}

/// Finishes an export of `batch` that was taken out of `buffer`: a success
/// counts `n` records as exported; a failure puts the batch back in front of
/// the backlog, so no record is lost.
pub fn settle_export<T>(
    buffer: &mut StreamBuffer<T>,
    counter: &mut StreamCounter,
    batch: Vec<T>,
    outcome: Result<usize, LoggerError>,
) -> (r: Result<usize, LoggerError>)
    requires
        old(buffer).wf(),
        outcome is Err ==> batch@.len() + old(buffer)@.len() <= usize::MAX,
    ensures
        final(buffer).wf(),
        final(buffer).capacity() == old(buffer).capacity(),
        r == outcome,
        match outcome {
            Ok(n) => {
                &&& final(buffer)@ == old(buffer)@
                &&& final(counter)@ == (old(counter)@.0, wrap_u64(old(counter)@.1 + n), old(counter)@.2)
            },
            Err(_) => {
                &&& final(buffer)@ == batch@ + old(buffer)@
                &&& final(counter)@ == old(counter)@
            },
        },
{
    match outcome {
        Ok(n) => {
            counter.add_flushed(n as u64);
            Ok(n)
        },
        Err(err) => {
            buffer.restore_export_batch(batch);
            Err(err)
        },
    }
}

/// The backlog that a stream's counters imply: received less exported less
/// evicted, stopping at zero.
pub open spec fn spec_backlog_estimate(c: (u64, u64, u64)) -> u64 {
    let a: u64 = if c.0 >= c.1 {
        (c.0 - c.1) as u64
    } else {
        0
    };
    if a >= c.2 {
        (a - c.2) as u64
    } else {
        0
    }
}

/// Received less exported less evicted, each difference stopping at zero.
pub fn backlog_estimate(c: (u64, u64, u64)) -> (r: u64)
    ensures
        r == spec_backlog_estimate(c),
{
    c.0.saturating_sub(c.1).saturating_sub(c.2)
}

/// A stream's counters as last reported.
#[derive(Clone, Copy, Debug)]
pub struct StreamSnapshot {
    pub received: u64,
    pub flushed: u64,
    pub evicted: u64,
}

impl Default for StreamSnapshot {
    fn default() -> (r: Self)
        ensures
            r.received == 0 && r.flushed == 0 && r.evicted == 0,
    {
        StreamSnapshot { received: 0, flushed: 0, evicted: 0 }
    }
}

/// Every stream's counters as last reported.
#[derive(Debug)]
pub struct StatsSnapshot {
    pub unified_ip: StreamSnapshot,
}

impl Default for StatsSnapshot {
    fn default() -> (r: Self)
        ensures
            r.unified_ip.received == 0 && r.unified_ip.flushed == 0 && r.unified_ip.evicted == 0,
    {
        StatsSnapshot { unified_ip: StreamSnapshot::default() }
    }
}

/// What a stream did since its last report, and its backlog now.
#[derive(Debug)]
pub struct StreamDelta {
    pub received: u64,
    pub flushed: u64,
    pub evicted: u64,
    pub backlog: u64,
}

/// `a - b`, or zero when `b` is larger.
pub open spec fn sat_sub(a: u64, b: u64) -> u64 {
    if a >= b {
        (a - b) as u64
    } else {
        0
    }
}

/// What `counter` did since `prev`, which then becomes the current counts.
pub fn stream_delta(counter: &StreamCounter, prev: &mut StreamSnapshot) -> (r: StreamDelta)
    ensures
        r.received == sat_sub(counter@.0, old(prev).received),
        r.flushed == sat_sub(counter@.1, old(prev).flushed),
        r.evicted == sat_sub(counter@.2, old(prev).evicted),
        r.backlog == spec_backlog_estimate(counter@),
        final(prev).received == counter@.0,
        final(prev).flushed == counter@.1,
        final(prev).evicted == counter@.2,
{
    let (received, flushed, evicted) = counter.snapshot();
    let r = StreamDelta {
        received: received.saturating_sub(prev.received),
        flushed: flushed.saturating_sub(prev.flushed),
        evicted: evicted.saturating_sub(prev.evicted),
        backlog: backlog_estimate((received, flushed, evicted)),
    };
    prev.received = received;
    prev.flushed = flushed;
    prev.evicted = evicted;
    r
}

/// What the `UnifiedIp` stream did since `prev`, which then becomes the
/// current counts.
pub fn interval_stats(stats: &Stats, prev: &mut StatsSnapshot) -> (r: StreamDelta)
    ensures
        r.received == sat_sub(stats.unified_ip@.0, old(prev).unified_ip.received),
        r.flushed == sat_sub(stats.unified_ip@.1, old(prev).unified_ip.flushed),
        r.evicted == sat_sub(stats.unified_ip@.2, old(prev).unified_ip.evicted),
        r.backlog == spec_backlog_estimate(stats.unified_ip@),
        final(prev).unified_ip.received == stats.unified_ip@.0,
        final(prev).unified_ip.flushed == stats.unified_ip@.1,
        final(prev).unified_ip.evicted == stats.unified_ip@.2,
{
    stream_delta(&stats.unified_ip, &mut prev.unified_ip)
}

/// Records that the `UnifiedIp` backlog holds before it evicts the oldest.
pub const UNIFIED_IP_BACKLOG_CAPACITY: usize = 100_000;

/// The backlogs of every stream, with their counters.
pub struct LogStore {
    pub unified_ip: StreamBuffer<UnifiedIp>,
    pub stats: Stats,
}

impl LogStore {
    pub closed spec fn wf(&self) -> bool {
        &&& self.unified_ip.wf()
        &&& self.unified_ip.capacity() == UNIFIED_IP_BACKLOG_CAPACITY
    }

    pub fn new(stats: Stats) -> (r: Self)
        ensures
            r.wf(),
            r.unified_ip@ == Seq::<UnifiedIp>::empty(),
            r.stats == stats,
    {
        LogStore { stats, unified_ip: StreamBuffer::new(UNIFIED_IP_BACKLOG_CAPACITY) }
    }

    /// Queues decoded records on the backlog of their stream.
    pub fn push_decoded(&mut self, decoded: DecodedLogItems)
        requires
            old(self).wf(),
        ensures
            final(self).wf(),
            match decoded {
                DecodedLogItems::UnifiedIp(items) => {
                    &&& final(self).unified_ip@ == backlog_after_push(
                        old(self).unified_ip@,
                        items@,
                        UNIFIED_IP_BACKLOG_CAPACITY as nat,
                    )
                    &&& final(self).stats.unified_ip@ == (
                        wrap_u64(old(self).stats.unified_ip@.0 + items@.len()),
                        old(self).stats.unified_ip@.1,
                        wrap_u64(
                            old(self).stats.unified_ip@.2 + evictions(
                                old(self).unified_ip@.len(),
                                items@.len(),
                                UNIFIED_IP_BACKLOG_CAPACITY as nat,
                            ),
                        ),
                    )
                },
            },
    {
        match decoded {
            DecodedLogItems::UnifiedIp(items) => {
                self.unified_ip.push_batch(items, &mut self.stats.unified_ip);
            },
        }
    }
}

/// The backlog estimate is received less exported less evicted, and zero
/// when the exported and evicted counts reach the received count.
pub proof fn lemma_backlog_estimate_is_difference(received: u64, flushed: u64, evicted: u64)
    ensures
        received >= flushed + evicted ==> spec_backlog_estimate((received, flushed, evicted)) as int
            == received - flushed - evicted,
        received < flushed + evicted ==> spec_backlog_estimate((received, flushed, evicted)) == 0,
{
}

/// A reported delta is how much a count grew, and zero when it went down.
pub proof fn lemma_delta_is_growth(now: u64, before: u64)
    ensures
        now >= before ==> sat_sub(now, before) as int == now - before,
        now < before ==> sat_sub(now, before) == 0,
        sat_sub(now, before) <= now,
{
}

} // verus!
