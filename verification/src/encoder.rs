//! Packing records into frames that each fit in one datagram.
use vstd::prelude::*;
use crate::frame::{
    FrameType, MAX_UDP_DATAGRAM, MAX_UDP_FRAME_PAYLOAD, UDPFrame, UDP_IO_BATCH, frame_bytes,
    pending_frames_hint, datagram_items, datagram_decodable, unified_ips_of,
    lemma_frame_roundtrip,
};
use crate::types::{LogItem, UnifiedIp, unified_ip_wire_size, lemma_unified_ip_roundtrip};

verus! {

/// What an encoder holds: the frames made so far, the payload being filled,
/// and the number of items in that payload.
pub type EncoderState = (Seq<Seq<u8>>, Seq<u8>, u32);

/// What `append_item` does with an item whose wire form is `w`.
///
/// While it fits, `w` joins the payload. Otherwise the payload, if it holds
/// any item, is closed as a frame, and `w` is sent in a frame of its own when
/// it fits in one; after that the next item starts an empty payload. An item
/// too large for any frame stays in the payload with a count of zero and is
/// discarded by the next item.
pub open spec fn append_step(t: FrameType, s: EncoderState, w: Seq<u8>) -> EncoderState {
    if s.1.len() + w.len() <= MAX_UDP_FRAME_PAYLOAD {
        (s.0, s.1 + w, (s.2 + 1) as u32)
    } else {
        let closed = if s.2 > 0 {
            s.0.push(frame_bytes(t, s.2, s.1))
        } else {
            s.0
        };
        if w.len() <= MAX_UDP_FRAME_PAYLOAD {
            (closed.push(frame_bytes(t, 1, w)), Seq::empty(), 0)
        } else {
            (closed, w, 0)
        }
    }
}

/// Closing the payload as a frame when it holds any item.
pub open spec fn flush_step(t: FrameType, s: EncoderState) -> EncoderState {
    if s.2 > 0 {
        (s.0.push(frame_bytes(t, s.2, s.1)), Seq::empty(), 0)
    } else {
        s
    }
}

/// The state after appending every item of `items`, in order, from `s`.
pub open spec fn encode_steps<T: LogItem>(t: FrameType, s: EncoderState, items: Seq<T>) -> EncoderState
    decreases items.len(),
{
    if items.len() == 0 {
        s
    } else {
        append_step(t, encode_steps(t, s, items.drop_last()), items.last().wire())
    }
}

/// The frames that one batch of records becomes, from an empty payload.
pub open spec fn batch_frames<T: LogItem>(t: FrameType, items: Seq<T>) -> Seq<Seq<u8>> {
    flush_step(t, encode_steps(t, (Seq::empty(), Seq::empty(), 0), items)).0
}

/// The wire forms of `items`, back to back.
pub open spec fn concat_wires<T: LogItem>(items: Seq<T>) -> Seq<u8>
    decreases items.len(),
{
    if items.len() == 0 {
        Seq::empty()
    } else {
        concat_wires(items.drop_last()) + items.last().wire()
    }
}

/// The records of every datagram of `frames`, in order.
pub open spec fn frames_items(frames: Seq<Seq<u8>>) -> Seq<UnifiedIp>
    decreases frames.len(),
{
    if frames.len() == 0 {
        Seq::empty()
    } else {
        frames_items(frames.drop_last()) + match datagram_items(frames.last()) {
            Some(items) => items,
            None => Seq::empty(),
        }
    }
}

/// Whether every frame of `frames` fits in a datagram and decodes.
pub open spec fn frames_sendable(frames: Seq<Seq<u8>>) -> bool {
    forall|k: int|
        0 <= k < frames.len() ==> {
            &&& (#[trigger] frames[k]).len() <= MAX_UDP_DATAGRAM
            &&& datagram_decodable(frames[k])
            &&& datagram_items(frames[k]) is Some
        }
}

/// Whether a buffer may be sent as one datagram. An oversized buffer gives
/// `false`; it never stops the program.
pub fn datagram_fits_mtu(buf: &[u8]) -> (r: bool)
    ensures
        r == (buf@.len() <= MAX_UDP_DATAGRAM),
{
    buf.len() <= MAX_UDP_DATAGRAM
}

pub struct FrameEncoder {
    frame_type: FrameType,
    payload: Vec<u8>,
    count: u32,
    wire: Vec<u8>,
    pending: Vec<Vec<u8>>,
}

impl FrameEncoder {
    /// The type of the frames this encoder makes.
    pub closed spec fn kind(&self) -> FrameType {
        self.frame_type
    }

    /// Frames made and not yet handed out, the payload being filled, and its item count.
    pub closed spec fn state(&self) -> EncoderState {
        (self.pending@.map_values(|v: Vec<u8>| v@), self.payload@, self.count)
    }

    /// The bytes of the frame being built by `queue_frame`.
    pub closed spec fn scratch(&self) -> Seq<u8> {
        self.wire@
    }

    /// A payload that holds items fits in a frame, and every frame made fits
    /// in a datagram.
    pub closed spec fn wf(&self) -> bool {
        &&& self.count > 0 ==> self.payload@.len() <= MAX_UDP_FRAME_PAYLOAD
        &&& forall|k: int|
            0 <= k < self.pending@.len() ==> (#[trigger] self.pending@[k])@.len() <= MAX_UDP_DATAGRAM
    }

    pub fn new(frame_type: FrameType) -> (r: Self)
        ensures
            r.wf(),
            r.kind() == frame_type,
            r.state() == (Seq::<Seq<u8>>::empty(), Seq::<u8>::empty(), 0u32),
            r.scratch() == Seq::<u8>::empty(),
    {
        let pending_cap = pending_frames_hint(UDP_IO_BATCH, frame_type.typical_wire_bytes()).max(1);
        let r = Self {
            frame_type,
            payload: Vec::with_capacity(MAX_UDP_FRAME_PAYLOAD),
            count: 0,
            wire: Vec::with_capacity(MAX_UDP_DATAGRAM),
            pending: Vec::with_capacity(pending_cap),
        };
        assert(r.state().0 =~= Seq::<Seq<u8>>::empty());
        r
    }

    /// Adds the frame made of `payload` and `count` to the frames to send.
    fn queue_frame(&mut self, payload: &[u8], count: u32)
        requires
            payload@.len() <= MAX_UDP_FRAME_PAYLOAD,
            forall|k: int|
                0 <= k < old(self).pending@.len() ==> (#[trigger] old(self).pending@[k])@.len()
                    <= MAX_UDP_DATAGRAM,
        ensures
            forall|k: int|
                0 <= k < final(self).pending@.len() ==> (#[trigger] final(self).pending@[k])@.len()
                    <= MAX_UDP_DATAGRAM,
            final(self).kind() == old(self).kind(),
            final(self).state() == (
                old(self).state().0.push(frame_bytes(old(self).kind(), count, payload@)),
                old(self).state().1,
                old(self).state().2,
            ),
            final(self).payload == old(self).payload,
            final(self).count == old(self).count,
    {
        let frame = UDPFrame { frame_type: self.frame_type, count, payload };
        self.wire.clear();
        frame.encode(&mut self.wire);
        proof {
            vstd::bytes::lemma_auto_spec_u32_to_from_le_bytes();
        }
        if self.wire.len() > MAX_UDP_DATAGRAM {
            // A payload within its bound always makes a frame within a datagram.
            return;
        }
        let mut fresh: Vec<u8> = Vec::with_capacity(MAX_UDP_DATAGRAM);
        std::mem::swap(&mut fresh, &mut self.wire);
        let ghost before = self.pending@;
        self.pending.push(fresh);
        proof {
            assert(self.pending@.map_values(|v: Vec<u8>| v@) =~= before.map_values(
                |v: Vec<u8>| v@,
            ).push(frame_bytes(self.frame_type, count, payload@)));
        }
    }

    /// Adds `item` to the payload, closing frames as `append_step` says.
    pub fn append_item<T: LogItem>(&mut self, item: &T)
        requires
            old(self).wf(),
            old(self).state().1.len() + item.wire().len() <= MAX_UDP_FRAME_PAYLOAD ==> old(
                self,
            ).state().2 < u32::MAX,
        ensures
            final(self).wf(),
            final(self).kind() == old(self).kind(),
            final(self).state() == append_step(old(self).kind(), old(self).state(), item.wire()),
    {
        let start_len = self.payload.len();
        item.encode(&mut self.payload);
        if self.payload.len() > MAX_UDP_FRAME_PAYLOAD {
            if self.count > 0 {
                self.payload.truncate(start_len);
                let count = self.count;
                let mut payload: Vec<u8> = Vec::new();
                std::mem::swap(&mut payload, &mut self.payload);
                assert(payload@ =~= old(self).payload@);
                self.queue_frame(payload.as_slice(), count);
            }
            self.payload.clear();
            self.count = 0;
            item.encode(&mut self.payload);
            assert(self.payload@ =~= item.wire());
            if self.payload.len() <= MAX_UDP_FRAME_PAYLOAD {
                let mut payload: Vec<u8> = Vec::new();
                std::mem::swap(&mut payload, &mut self.payload);
                self.queue_frame(payload.as_slice(), 1);
            }
            return;
        }
        self.count = self.count + 1;
    }

    /// Closes the payload as a frame when it holds any item, and hands out
    /// every frame made so far, oldest first.
    pub fn flush(&mut self) -> (frames: Vec<Vec<u8>>)
        requires
            old(self).wf(),
        ensures
            final(self).wf(),
            final(self).kind() == old(self).kind(),
            frames@.map_values(|v: Vec<u8>| v@) == flush_step(old(self).kind(), old(self).state()).0,
            forall|k: int| 0 <= k < frames@.len() ==> (#[trigger] frames@[k])@.len() <= MAX_UDP_DATAGRAM,
            final(self).state() == (
                Seq::<Seq<u8>>::empty(),
                flush_step(old(self).kind(), old(self).state()).1,
                flush_step(old(self).kind(), old(self).state()).2,
            ),
    {
        if self.count > 0 {
            let count = self.count;
            let mut payload: Vec<u8> = Vec::new();
            std::mem::swap(&mut payload, &mut self.payload);
            self.count = 0;
            self.queue_frame(payload.as_slice(), count);
        }
        let mut frames: Vec<Vec<u8>> = Vec::new();
        std::mem::swap(&mut frames, &mut self.pending);
        assert(self.pending@.map_values(|v: Vec<u8>| v@) =~= Seq::<Seq<u8>>::empty());
        frames
    }
}

/// Encodes one batch of records: the payload starts empty, every record is
/// appended in order, and every frame made so far is handed out.
pub fn encode_unified_ip_batch(encoder: &mut FrameEncoder, batch: &Vec<UnifiedIp>) -> (frames: Vec<
    Vec<u8>,
>)
    requires
        old(encoder).wf(),
    ensures
        final(encoder).wf(),
        final(encoder).kind() == old(encoder).kind(),
        frames@.map_values(|v: Vec<u8>| v@) == old(encoder).state().0 + batch_frames(
            old(encoder).kind(),
            batch@,
        ),
        forall|k: int| 0 <= k < frames@.len() ==> (#[trigger] frames@[k])@.len() <= MAX_UDP_DATAGRAM,
        final(encoder).state() == (Seq::<Seq<u8>>::empty(), Seq::<u8>::empty(), 0u32),
{
    let ghost t = encoder.kind();
    let ghost p0 = encoder.state().0;
    encoder.payload.clear();
    encoder.count = 0;
    let mut i: usize = 0;
    while i < batch.len()
        invariant
            encoder.wf(),
            encoder.kind() == t,
            i <= batch@.len(),
            encoder.state() == encode_steps(t, (p0, Seq::<u8>::empty(), 0u32), batch@.take(i as int)),
            encoder.state().1.len() == unified_ip_wire_size() * encoder.state().2,
            encoder.state().2 <= 17,
        decreases batch@.len() - i,
    {
        proof {
            lemma_unified_ip_roundtrip(batch@[i as int]);
            assert(batch@.take(i + 1).drop_last() =~= batch@.take(i as int));
        }
        encoder.append_item(&batch[i]);
        i = i + 1;
    }
    proof {
        assert(batch@.take(i as int) =~= batch@);
        lemma_encode_steps_carry(t, p0, batch@);
    }
    let frames = encoder.flush();
    proof {
        let e = encode_steps(t, (Seq::<Seq<u8>>::empty(), Seq::<u8>::empty(), 0u32), batch@);
        if e.2 > 0 {
            assert((p0 + e.0).push(frame_bytes(t, e.2, e.1)) =~= p0 + e.0.push(
                frame_bytes(t, e.2, e.1),
            ));
        }
    }
    frames
}

/// Frames made before a batch stay in front of the frames the batch makes,
/// and do not change how the batch is packed.
proof fn lemma_encode_steps_carry<T: LogItem>(t: FrameType, p0: Seq<Seq<u8>>, items: Seq<T>)
    ensures
        ({
            let e = encode_steps(t, (Seq::<Seq<u8>>::empty(), Seq::<u8>::empty(), 0u32), items);
            encode_steps(t, (p0, Seq::<u8>::empty(), 0u32), items) == (p0 + e.0, e.1, e.2)
        }),
    decreases items.len(),
{
    if items.len() > 0 {
        lemma_encode_steps_carry(t, p0, items.drop_last());
        let e = encode_steps(
            t,
            (Seq::<Seq<u8>>::empty(), Seq::<u8>::empty(), 0u32),
            items.drop_last(),
        );
        let w = items.last().wire();
        if e.1.len() + w.len() > MAX_UDP_FRAME_PAYLOAD {
            let a = if e.2 > 0 {
                e.0.push(frame_bytes(t, e.2, e.1))
            } else {
                e.0
            };
            assert((p0 + e.0).push(frame_bytes(t, e.2, e.1)) =~= p0 + e.0.push(
                frame_bytes(t, e.2, e.1),
            ));
            assert((p0 + a).push(frame_bytes(t, 1, w)) =~= p0 + a.push(frame_bytes(t, 1, w)));
        }
    }
}

/// Records laid back to back decode to themselves.
proof fn lemma_concat_wires_decode(s: Seq<UnifiedIp>)
    ensures
        concat_wires(s).len() == unified_ip_wire_size() * s.len(),
        unified_ips_of(concat_wires(s), s.len()) == s,
    decreases s.len(),
{
    if s.len() > 0 {
        let p = s.drop_last();
        let x = s.last();
        lemma_concat_wires_decode(p);
        lemma_unified_ip_roundtrip(x);
        let c = concat_wires(s);
        let n = p.len() as int;
        assert(c == concat_wires(p) + x.wire());
        assert forall|k: int| 0 <= k < s.len() implies #[trigger] unified_ips_of(c, s.len())[k]
            == s[k] by {
            if k < n {
                assert(c.subrange(k * 84, k * 84 + 84) =~= concat_wires(p).subrange(
                    k * 84,
                    k * 84 + 84,
                ));
                assert(unified_ips_of(concat_wires(p), p.len())[k] == p[k]);
            } else {
                assert(c.subrange(k * 84, k * 84 + 84) =~= x.wire());
            }
        }
        assert(unified_ips_of(c, s.len()) =~= s);
    }
}

/// The frame of `count` back-to-back records fits in a datagram and decodes
/// to those records.
proof fn lemma_frame_of_records(t: FrameType, s: Seq<UnifiedIp>)
    requires
        0 < s.len() <= 17,
    ensures
        frame_bytes(t, s.len() as u32, concat_wires(s)).len() <= MAX_UDP_DATAGRAM,
        datagram_decodable(frame_bytes(t, s.len() as u32, concat_wires(s))),
        datagram_items(frame_bytes(t, s.len() as u32, concat_wires(s))) == Some(s),
{
    lemma_concat_wires_decode(s);
    lemma_frame_roundtrip(t, s.len() as u32, concat_wires(s));
    vstd::bytes::lemma_auto_spec_u32_to_from_le_bytes();
}

proof fn lemma_frames_items_push(frames: Seq<Seq<u8>>, f: Seq<u8>, s: Seq<UnifiedIp>)
    requires
        datagram_items(f) == Some(s),
    ensures
        frames_items(frames.push(f)) == frames_items(frames) + s,
{
    assert(frames.push(f).drop_last() =~= frames);
}

/// After encoding `items` from an empty payload: the closed frames carry the
/// records before the last `count`, in order, and each fits in a datagram;
/// the payload holds the last `count` records back to back.
proof fn lemma_encode_progress(t: FrameType, items: Seq<UnifiedIp>)
    ensures
        ({
            let e = encode_steps(t, (Seq::<Seq<u8>>::empty(), Seq::<u8>::empty(), 0u32), items);
            let n = items.len() as int;
            &&& e.2 <= n
            &&& e.2 <= 17
            &&& e.1 == concat_wires(items.subrange(n - e.2, n))
            &&& frames_items(e.0) == items.subrange(0, n - e.2)
            &&& frames_sendable(e.0)
        }),
    decreases items.len(),
{
    let n = items.len() as int;
    if n == 0 {
        assert(items.subrange(0, 0) =~= Seq::<UnifiedIp>::empty());
    } else {
        let p = items.drop_last();
        let x = items.last();
        lemma_encode_progress(t, p);
        let e = encode_steps(t, (Seq::<Seq<u8>>::empty(), Seq::<u8>::empty(), 0u32), p);
        let c = e.2 as int;
        let tail = p.subrange(n - 1 - c, n - 1);
        lemma_concat_wires_decode(tail);
        lemma_unified_ip_roundtrip(x);
        let w = x.wire();
        assert(items.subrange(0, n - 1 - c) =~= p.subrange(0, n - 1 - c));
        if e.1.len() + w.len() <= MAX_UDP_FRAME_PAYLOAD {
            assert(items.subrange(n - (c + 1), n).drop_last() =~= tail);
            assert(items.subrange(n - (c + 1), n).last() == x);
        } else {
            assert(c == 17);
            lemma_frame_of_records(t, tail);
            let closed = e.0.push(frame_bytes(t, e.2, e.1));
            lemma_frames_items_push(e.0, frame_bytes(t, e.2, e.1), tail);
            let single = seq![x];
            assert(single.drop_last() =~= Seq::<UnifiedIp>::empty());
            assert(single.last() == x);
            assert(concat_wires(single.drop_last()) =~= Seq::<u8>::empty());
            assert(concat_wires(single) =~= w);
            lemma_frame_of_records(t, single);
            lemma_frames_items_push(closed, frame_bytes(t, 1, w), single);
            assert(p.subrange(0, n - 1 - c) + tail + single =~= items.subrange(0, n));
            assert(items.subrange(n, n) =~= Seq::<UnifiedIp>::empty());
            assert(concat_wires(items.subrange(n, n)) =~= Seq::<u8>::empty());
            let f = closed.push(frame_bytes(t, 1, w));
            assert forall|k: int| 0 <= k < f.len() implies {
                &&& (#[trigger] f[k]).len() <= MAX_UDP_DATAGRAM
                &&& datagram_decodable(f[k])
                &&& datagram_items(f[k]) is Some
            } by {
                if k < e.0.len() {
                    assert(f[k] == e.0[k]);
                }
            }
        }
    }
}

/// Every frame that a batch of records becomes fits in one datagram and
/// decodes, and decoding the frames in order gives back the whole batch, in
/// order: no record is lost, repeated or reordered.
pub proof fn lemma_batch_roundtrip(t: FrameType, items: Seq<UnifiedIp>)
    ensures
        frames_sendable(batch_frames(t, items)),
        frames_items(batch_frames(t, items)) == items,
{
    lemma_encode_progress(t, items);
    let e = encode_steps(t, (Seq::<Seq<u8>>::empty(), Seq::<u8>::empty(), 0u32), items);
    let n = items.len() as int;
    let c = e.2 as int;
    if c > 0 {
        let tail = items.subrange(n - c, n);
        lemma_frame_of_records(t, tail);
        lemma_frames_items_push(e.0, frame_bytes(t, e.2, e.1), tail);
        assert(items.subrange(0, n - c) + tail =~= items);
        let f = e.0.push(frame_bytes(t, e.2, e.1));
        assert forall|k: int| 0 <= k < f.len() implies {
            &&& (#[trigger] f[k]).len() <= MAX_UDP_DATAGRAM
            &&& datagram_decodable(f[k])
            &&& datagram_items(f[k]) is Some
        } by {
            if k < e.0.len() {
                assert(f[k] == e.0[k]);
            }
        }
    } else {
        assert(items.subrange(0, n) =~= items);
    }
}

} // verus!
