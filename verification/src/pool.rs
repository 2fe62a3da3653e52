//! Reusable datagram buffers shared between receiving and decoding threads.
use vstd::prelude::*;
use crossbeam_queue::ArrayQueue;
use crate::frame::MAX_UDP_DATAGRAM;

verus! {

/// One datagram's worth of bytes.
pub type PacketBuf = Box<[u8; MAX_UDP_DATAGRAM]>;

/// A received datagram: its buffer and the number of bytes received into it.
pub type Packet = (PacketBuf, usize);

/// Datagrams received together.
pub struct PacketBatch {
    pub packets: Vec<Packet>,
}

#[verifier::external_type_specification]
#[verifier::external_body]
#[verifier::reject_recursive_types(T)]
pub struct ExArrayQueue<T>(ArrayQueue<T>);

/// The number of slots that a buffer queue was made with.
pub uninterp spec fn queue_capacity(q: ArrayQueue<PacketBuf>) -> nat;

/// `ArrayQueue::new`: a queue of `cap` slots; it panics when `cap` is zero,
/// or when `cap + 1` has no power of two at or above it in its 64-bit index.
#[verifier::external_body]
fn new_queue(cap: usize) -> (q: ArrayQueue<PacketBuf>)
    requires
        0 < cap < 0x8000_0000_0000_0000u64,
    ensures
        queue_capacity(q) == cap,
{
    ArrayQueue::new(cap)
}

/// `ArrayQueue::push`: stores `value`, or hands it back when the queue is
/// full. Whether it is full depends on what other threads did, so nothing
/// is said of which of the two happens.
#[verifier::external_body]
fn queue_push(q: &ArrayQueue<PacketBuf>, value: PacketBuf) -> (r: Result<(), PacketBuf>)
    ensures
        r matches Err(v) ==> v == value,
{
    q.push(value)
}

/// `ArrayQueue::pop`: the oldest stored buffer, or `None` when the queue is
/// empty. What it holds depends on other threads, so nothing is said of the
/// result.
#[verifier::external_body]
fn queue_pop(q: &ArrayQueue<PacketBuf>) -> Option<PacketBuf> {
    q.pop()
}

/// A new datagram buffer, all zero.
fn zeroed_buffer() -> (r: PacketBuf)
    ensures
        r@.len() == MAX_UDP_DATAGRAM,
        forall|i: int| 0 <= i < MAX_UDP_DATAGRAM ==> r@[i] == 0,
{
    Box::new([0u8; MAX_UDP_DATAGRAM])
}

/// The buffer taken from a stock, or a new all-zero buffer when the stock
/// had none.
pub fn take_or_fresh(popped: Option<PacketBuf>) -> (r: PacketBuf)
    ensures
        match popped {
            Some(buf) => r == buf,
            None => r@.len() == MAX_UDP_DATAGRAM && forall|i: int|
                0 <= i < MAX_UDP_DATAGRAM ==> r@[i] == 0,
        },
{
    match popped {
        Some(buf) => buf,
        None => zeroed_buffer(),
    }
}

/// `a * b`, or `usize::MAX` when the product does not fit.
pub open spec fn spec_saturating_mul(a: usize, b: usize) -> usize {
    if a * b > usize::MAX {
        usize::MAX
    } else {
        (a * b) as usize
    }
}

fn saturating_product(a: usize, b: usize) -> (r: usize)
    ensures
        r == spec_saturating_mul(a, b),
{
    match a.checked_mul(b) {
        Some(p) => p,
        None => usize::MAX,
    }
}

/// The buffers a pool keeps for `receiver_threads` threads that each receive
/// `recv_batch` datagrams at a time: four batches per thread (saturating),
/// and never fewer than two batches.
pub fn pool_capacity(recv_batch: usize, receiver_threads: usize) -> (r: usize)
    requires
        recv_batch * 2 <= usize::MAX,
    ensures
        ({
            let per_threads = spec_saturating_mul(spec_saturating_mul(recv_batch, receiver_threads), 4);
            r == if per_threads >= recv_batch * 2 {
                per_threads
            } else {
                (recv_batch * 2) as usize
            }
        }),
{
    let per_threads = saturating_product(saturating_product(recv_batch, receiver_threads), 4);
    let floor = recv_batch * 2;
    if per_threads >= floor {
        per_threads
    } else {
        floor
    }
}

/// A bounded stock of datagram buffers: taking from an empty stock makes a
/// new buffer, and returning to a full stock drops the buffer.
pub struct BufferPool {
    free: ArrayQueue<PacketBuf>,
}

impl BufferPool {
    /// The most buffers the stock keeps.
    pub closed spec fn capacity(&self) -> nat {
        queue_capacity(self.free)
    }

    /// A stock of `capacity` zeroed buffers.
    pub fn new(capacity: usize) -> (r: Self)
        requires
            0 < capacity < 0x8000_0000_0000_0000u64,
        ensures
            r.capacity() == capacity,
    {
        let free = new_queue(capacity);
        let mut i: usize = 0;
        while i < capacity
            invariant
                i <= capacity,
                queue_capacity(free) == capacity,
            decreases capacity - i,
        {
            let _ = queue_push(&free, zeroed_buffer());
            i = i + 1;
        }
        Self { free }
    }

    /// A buffer from the stock, or a new zeroed one when the stock is empty.
    /// Which of the two depends on what other threads put in and took out,
    /// so this says nothing of the result beyond `take_or_fresh`.
    pub fn acquire(&self) -> PacketBuf {
        take_or_fresh(queue_pop(&self.free))
    }

    /// Returns `buf` to the stock; it is dropped when the stock is full.
    pub fn release(&self, buf: PacketBuf) {
        let _ = queue_push(&self.free, buf);
    }
}

} // verus!
