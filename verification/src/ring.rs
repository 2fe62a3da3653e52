//! A fixed-capacity ring of items that evicts its oldest item when full.
use vstd::prelude::*;

verus! {

/// What a ring of capacity `cap` holds after `item` is pushed onto `s`:
/// nothing changes when the capacity is zero, the oldest item goes when the
/// ring is full, and the new item always lands at the back otherwise.
pub open spec fn bounded_push<T>(s: Seq<T>, cap: nat, item: T) -> Seq<T> {
    if cap == 0 {
        s
    } else if s.len() >= cap {
        s.drop_first().push(item)
    } else {
        s.push(item)
    }
}

/// Pushing every item of `items`, in order, onto a ring holding `s`.
pub open spec fn bounded_push_all<T>(s: Seq<T>, cap: nat, items: Seq<T>) -> Seq<T>
    decreases items.len(),
{
    if items.len() == 0 {
        s
    } else {
        bounded_push(bounded_push_all(s, cap, items.drop_last()), cap, items.last())
    }
}

/// The newest `cap` items of `s` (all of them when there are no more than `cap`).
pub open spec fn newest<T>(s: Seq<T>, cap: nat) -> Seq<T> {
    if s.len() > cap {
        s.skip(s.len() - cap)
    } else {
        s
    }
}

/// A ring of nonzero capacity keeps exactly the newest `capacity` items of
/// everything pushed into it: pushing `items` one by one onto a ring holding
/// `s` leaves it holding the newest `cap` items of `s` followed by `items`.
pub proof fn lemma_ring_keeps_newest<T>(s: Seq<T>, cap: nat, items: Seq<T>)
    requires
        cap > 0,
        s.len() <= cap,
    ensures
        bounded_push_all(s, cap, items) == newest(s + items, cap),
    decreases items.len(),
{
    if items.len() == 0 {
        assert(s + items =~= s);
    } else {
        let t = s + items.drop_last();
        let x = items.last();
        lemma_ring_keeps_newest(s, cap, items.drop_last());
        assert(s + items =~= t.push(x));
        let r = newest(t, cap);
        if t.len() >= cap {
            assert(r.drop_first().push(x) =~= t.push(x).skip(t.len() + 1 - cap));
        } else {
            assert(r.push(x) =~= t.push(x));
        }
    }
}

/// A ring made empty with capacity `cap` holds `min(n, cap)` items after `n`
/// pushes: none when its capacity is zero.
pub proof fn lemma_ring_len_after_pushes<T>(cap: nat, items: Seq<T>)
    ensures
        bounded_push_all(Seq::<T>::empty(), cap, items).len() == if items.len() < cap {
            items.len()
        } else {
            cap
        },
    decreases items.len(),
{
    if items.len() > 0 {
        lemma_ring_len_after_pushes(cap, items.drop_last());
    }
}

/// The number of items that `drain_batch(max, ..)` takes out of a ring of `len` items.
pub open spec fn drained_count(len: nat, max: nat) -> nat {
    if max < len {
        max
    } else {
        len
    }
}

/// A drain takes `max` items when the ring holds that many, and every item
/// otherwise: never more than `max`, never more than the ring holds, and it
/// stops short of `max` only by emptying the ring.
pub proof fn lemma_drained_count_is_min(len: nat, max: nat)
    ensures
        drained_count(len, max) <= max,
        drained_count(len, max) <= len,
        drained_count(len, max) == max || drained_count(len, max) == len,
        len <= max ==> drained_count(len, max) == len,
        max <= len ==> drained_count(len, max) == max,
{
}

pub struct RingBuffer<T> {
    slots: Vec<Option<T>>,
    head: usize,
    len: usize,
}

impl<T> RingBuffer<T> {
    /// Number of slots of the ring, fixed when it is made.
    pub closed spec fn capacity(&self) -> nat {
        self.slots@.len()
    }

    /// Physical slot of the `i`-th oldest item.
    closed spec fn slot_of(&self, i: int) -> int {
        if self.head + i < self.slots@.len() {
            self.head + i
        } else {
            self.head + i - self.slots@.len()
        }
    }

    pub closed spec fn wf(&self) -> bool {
        &&& self.slots@.len() <= isize::MAX
        &&& self.len <= self.slots@.len()
        &&& (self.slots@.len() == 0 ==> self.head == 0)
        &&& (self.slots@.len() > 0 ==> self.head < self.slots@.len())
        &&& forall|i: int| 0 <= i < self.len ==> (#[trigger] self.slots@[self.slot_of(i)]) is Some
    }

    /// A ring never holds more items than its capacity.
    pub proof fn lemma_len_within_capacity(&self)
        requires
            self.wf(),
        ensures
            self@.len() <= self.capacity(),
    {
    }

    proof fn lemma_slot_of(&self, i: int, j: int)
        requires
            self.head < self.slots@.len(),
            0 <= i < self.slots@.len(),
            0 <= j < self.slots@.len(),
        ensures
            0 <= self.slot_of(i) < self.slots@.len(),
            i != j ==> self.slot_of(i) != self.slot_of(j),
    {
    }

    /// Makes an empty ring with `capacity` slots.
    pub fn with_capacity(capacity: usize) -> (r: Self)
        requires
            capacity <= isize::MAX,
        ensures
            r.wf(),
            r.capacity() == capacity,
            r@ == Seq::<T>::empty(),
    {
        let mut slots: Vec<Option<T>> = Vec::with_capacity(capacity);
        let mut i: usize = 0;
        while i < capacity
            invariant
                i <= capacity,
                slots@.len() == i,
            decreases capacity - i,
        {
            slots.push(None);
            i = i + 1;
        }
        let r = RingBuffer { slots, head: 0, len: 0 };
        assert(r@ =~= Seq::<T>::empty());
        r
    }

    /// Appends `item` as the newest item; when the ring is full the oldest
    /// item is dropped first, and a ring of capacity zero drops `item`.
    pub fn push(&mut self, item: T)
        requires
            old(self).wf(),
        ensures
            final(self).wf(),
            final(self).capacity() == old(self).capacity(),
            final(self)@ == bounded_push(old(self)@, old(self).capacity(), item),
            final(self)@.len() <= final(self).capacity(),
    {
        let cap = self.slots.len();
        if cap == 0 {
            return;
        }
        if self.len >= cap {
            self.drop_oldest();
        }
        assert(self@.len() == self.len);
        assert(self.len < cap);
        let ghost before = self@;
        let ghost mid = *self;
        let idx = (self.head + self.len) % cap;
        proof {
            let x = self.head + self.len;
            if x < cap {
                vstd::arithmetic::div_mod::lemma_small_mod(x as nat, cap as nat);
            } else {
                vstd::arithmetic::div_mod::lemma_mod_sub_multiples_vanish(x as int, cap as int);
                vstd::arithmetic::div_mod::lemma_small_mod((x - cap) as nat, cap as nat);
            }
            assert(idx == self.slot_of(self.len as int));
        }
        self.slots[idx] = Some(item);
        self.len = self.len + 1;
        proof {
            assert(0 <= self.len - 1 < cap);
            assert forall|i: int| 0 <= i < self.len implies (#[trigger] self.slots@[self.slot_of(i)]) is Some by {
                self.lemma_slot_of(i, self.len - 1);
                if i < self.len - 1 {
                    assert(self.slot_of(i) == mid.slot_of(i));
                    assert(mid.slots@[mid.slot_of(i)] is Some);
                }
            }
            assert forall|i: int| 0 <= i < before.len() implies self@[i] == before[i] by {
                self.lemma_slot_of(i, self.len - 1);
            }
            assert(self@ =~= before.push(item));
        }
    }

    /// Drops the oldest item, if there is one.
    pub fn drop_oldest(&mut self)
        requires
            old(self).wf(),
        ensures
            final(self).wf(),
            final(self).capacity() == old(self).capacity(),
            final(self)@ == (if old(self)@.len() == 0 { old(self)@ } else { old(self)@.drop_first() }),
    {
        let _ = self.pop_front();
    }

    fn pop_front(&mut self) -> (r: Option<T>)
        requires
            old(self).wf(),
        ensures
            final(self).wf(),
            final(self).capacity() == old(self).capacity(),
            old(self)@.len() == 0 ==> r is None && final(self)@ == old(self)@,
            old(self)@.len() > 0 ==> r == Some(old(self)@[0]) && final(self)@ == old(self)@.drop_first(),
    {
        if self.len == 0 {
            return None;
        }
        let ghost before = self@;
        let ghost orig = *self;
        let cap = self.slots.len();
        let idx = self.head;
        proof {
            assert(self.slots@[self.slot_of(0)] is Some);
        }
        let item = self.slots[idx].take()?;
        proof {
            if self.head + 1 < cap {
                vstd::arithmetic::div_mod::lemma_small_mod((self.head + 1) as nat, cap as nat);
            } else {
                vstd::arithmetic::div_mod::lemma_mod_self_0(cap as int);
            }
        }
        let ghost old_ring = *self;
        self.head = (self.head + 1) % cap;
        self.len = self.len - 1;
        proof {
            assert forall|i: int| 0 <= i < self.len implies self.slot_of(i) == old_ring.slot_of(i + 1) && self.slot_of(i) != idx by {
                old_ring.lemma_slot_of(i + 1, 0);
            }
            assert forall|i: int| 0 <= i < self.len implies (#[trigger] self.slots@[self.slot_of(i)]) is Some by {
                old_ring.lemma_slot_of(i + 1, 0);
                assert(orig.slot_of(i + 1) == old_ring.slot_of(i + 1));
                assert(orig.slots@[orig.slot_of(i + 1)] is Some);
            }
            assert forall|i: int| 0 <= i < self.len implies self@[i] == before[i + 1] by {
                old_ring.lemma_slot_of(i + 1, 0);
            }
            assert(self@ =~= before.drop_first());
        }
        Some(item)
    }

    /// Empties `out`, then moves the oldest items of the ring into it, oldest
    /// first, until it holds `max` items or the ring is empty.
    pub fn drain_batch(&mut self, max: usize, out: &mut Vec<T>)
        requires
            old(self).wf(),
        ensures
            final(self).wf(),
            final(self).capacity() == old(self).capacity(),
            final(out)@ == old(self)@.take(drained_count(old(self)@.len(), max as nat) as int),
            final(self)@ == old(self)@.skip(drained_count(old(self)@.len(), max as nat) as int),
            final(out)@.len() <= max,
            final(out)@.len() == max || final(self)@.len() == 0,
    {
        let ghost start = self@;
        out.clear();
        while out.len() < max
            invariant
                self.wf(),
                self.capacity() == old(self).capacity(),
                start == old(self)@,
                out@.len() <= max,
                out@.len() <= start.len(),
                out@ == start.take(out@.len() as int),
                self@ == start.skip(out@.len() as int),
            ensures
                out@.len() == max || self@.len() == 0,
            decreases self@.len(),
        {
            match self.pop_front() {
                Some(item) => {
                    out.push(item);
                    proof {
                        assert(out@ =~= start.take(out@.len() as int));
                        assert(self@ =~= start.skip(out@.len() as int));
                    }
                },
                None => {
                    break;
                },
            }
        }
    }

    /// Number of items held.
    pub fn len(&self) -> (r: usize)
        requires
            self.wf(),
        ensures
            r == self@.len(),
            r <= self.capacity(),
    {
        self.len
    }
}

impl<T> View for RingBuffer<T> {
    type V = Seq<T>;

    /// The items held, oldest first.
    closed spec fn view(&self) -> Seq<T> {
        Seq::new(self.len as nat, |i: int| self.slots@[self.slot_of(i)]->Some_0)
    }
}

} // verus!
