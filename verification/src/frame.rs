//! The datagram frame: a one-byte type, a little-endian `u32` item count, and
//! the items' bytes.
use vstd::prelude::*;
use vstd::bytes::{spec_u32_from_le_bytes, spec_u32_to_le_bytes};
use crate::types::{
    DecodedLogItems, LogItem, UnifiedIp, UNIFIED_IP_ENCODED_LEN, unified_ip_wire_size,
};

verus! {

pub const UDP_IO_BATCH_TARGET_BYTES: usize = 256 * 1024;

/// Datagrams per batched send on the sender process.
pub const UDP_IO_BATCH: usize = UDP_IO_BATCH_TARGET_BYTES / MAX_UDP_DATAGRAM;

pub const UDP_FRAME_HEADER_SIZE: usize = 5;

pub const MAX_UDP_DATAGRAM: usize = 1472;

pub const MAX_UDP_FRAME_PAYLOAD: usize = MAX_UDP_DATAGRAM - UDP_FRAME_HEADER_SIZE;

pub const UDP_RECV_BATCH_TARGET_BYTES: usize = 512 * 1024;

pub const UDP_RECV_BATCH: usize = UDP_RECV_BATCH_TARGET_BYTES / MAX_UDP_DATAGRAM;

/// Estimated bytes of one `UnifiedIp` used for sizing hints; zero means
/// that no estimate is made.
pub const UNIFIED_IP_WIRE_BYTES: usize = 0;

#[derive(Clone, Copy, Debug, PartialEq, Eq, Structural)]
pub enum FrameType {
    UnifiedIp,
}

/// The byte that stands for a frame type on the wire.
pub open spec fn frame_type_byte(t: FrameType) -> u8 {
    match t {
        FrameType::UnifiedIp => 0,
    }
}

/// The frame type that a byte stands for, if any.
pub open spec fn frame_type_of(v: u8) -> Option<FrameType> {
    if v == 0 {
        Some(FrameType::UnifiedIp)
    } else {
        None
    }
}

/// Items of `wire_bytes` bytes each that fit in one frame payload (zero when
/// `wire_bytes` is zero).
pub open spec fn spec_items_per_frame(wire_bytes: nat) -> nat {
    if wire_bytes == 0 {
        0
    } else {
        MAX_UDP_FRAME_PAYLOAD as nat / wire_bytes
    }
}

/// The number of frames needed for `items` items, `per_frame` to a frame,
/// rounded up; `items` itself when nothing fits.
pub open spec fn spec_pending_frames_hint(items: nat, wire_bytes: nat) -> nat {
    let per_frame = spec_items_per_frame(wire_bytes);
    if per_frame == 0 {
        items
    } else {
        ((items + per_frame - 1) / per_frame as int) as nat
    }
}

impl FrameType {
    /// The frame type that `v` stands for; `None` for an unknown byte.
    pub fn from_u8(v: u8) -> (r: Option<Self>)
        ensures
            r == frame_type_of(v),
    {
        match v {
            0 => Some(Self::UnifiedIp),
            _ => None,
        }
    }

    /// Estimated wire size of one item of this type.
    pub fn typical_wire_bytes(self) -> (r: usize)
        ensures
            r == UNIFIED_IP_WIRE_BYTES,
    {
        match self {
            Self::UnifiedIp => UNIFIED_IP_WIRE_BYTES,
        }
    }

    /// Items of this type that fit in one frame by the size estimate.
    pub fn items_per_frame(self) -> (r: usize)
        ensures
            r == spec_items_per_frame(UNIFIED_IP_WIRE_BYTES as nat),
    {
        items_per_frame(self.typical_wire_bytes())
    }
}

/// Frames needed for `items` items of `wire_bytes` bytes each.
pub fn pending_frames_hint(items: usize, wire_bytes: usize) -> (r: usize)
    ensures
        r == spec_pending_frames_hint(items as nat, wire_bytes as nat),
{
    let per_frame = items_per_frame(wire_bytes);
    if per_frame == 0 {
        return items;
    }
    let whole = items / per_frame;
    let rest = items % per_frame;
    proof {
        let p = per_frame as int;
        let i = items as int;
        let q = whole as int;
        let m = rest as int;
        vstd::arithmetic::div_mod::lemma_fundamental_div_mod(i, p);
        assert(i == q * p + m) by (nonlinear_arith)
            requires
                i == p * (i / p) + i % p,
                q == i / p,
                m == i % p,
        ;
        if m > 0 {
            assert(q < usize::MAX) by (nonlinear_arith)
                requires
                    i == q * p + m,
                    0 < m < p,
                    i <= usize::MAX,
                    q >= 0,
            ;
            assert(i + p - 1 == (q + 1) * p + (m - 1)) by (nonlinear_arith)
                requires
                    i == q * p + m,
            ;
            vstd::arithmetic::div_mod::lemma_fundamental_div_mod_converse(i + p - 1, p, q + 1, m - 1);
        } else {
            assert(i + p - 1 == q * p + (p - 1));
            vstd::arithmetic::div_mod::lemma_fundamental_div_mod_converse(i + p - 1, p, q, p - 1);
        }
    }
    let r = if rest == 0 {
        whole
    } else {
        whole + 1
    };
    r
}

/// Items of `wire_bytes` bytes each that fit in one frame payload.
pub fn items_per_frame(wire_bytes: usize) -> (r: usize)
    ensures
        r == spec_items_per_frame(wire_bytes as nat),
{
    if wire_bytes == 0 {
        return 0;
    }
    MAX_UDP_FRAME_PAYLOAD / wire_bytes
}

/// The bytes of a frame: type byte, little-endian count, payload.
pub open spec fn frame_bytes(t: FrameType, count: u32, payload: Seq<u8>) -> Seq<u8> {
    seq![frame_type_byte(t)] + spec_u32_to_le_bytes(count) + payload
}

/// Type, count and payload of a datagram; `None` when it is shorter than a
/// header or its type byte is unknown.
pub open spec fn parse_frame(bytes: Seq<u8>) -> Option<(FrameType, u32, Seq<u8>)> {
    if bytes.len() < UDP_FRAME_HEADER_SIZE {
        None
    } else {
        match frame_type_of(bytes[0]) {
            None => None,
            Some(t) => Some(
                (
                    t,
                    spec_u32_from_le_bytes(bytes.subrange(1, UDP_FRAME_HEADER_SIZE as int)),
                    bytes.skip(UDP_FRAME_HEADER_SIZE as int),
                ),
            ),
        }
    }
}

/// The `count` records stored back to back at the front of `payload`.
pub open spec fn unified_ips_of(payload: Seq<u8>, count: nat) -> Seq<UnifiedIp> {
    Seq::new(
        count,
        |i: int|
            UnifiedIp::from_wire(
                payload.subrange(
                    i * unified_ip_wire_size(),
                    i * unified_ip_wire_size() + unified_ip_wire_size(),
                ),
            ),
    )
}

/// Whether a frame's payload holds all the records its count announces.
pub open spec fn payload_complete(count: u32, payload: Seq<u8>) -> bool {
    payload.len() >= count * unified_ip_wire_size()
}

/// The records that a datagram carries: `None` when it is no frame.
pub open spec fn datagram_items(bytes: Seq<u8>) -> Option<Seq<UnifiedIp>> {
    match parse_frame(bytes) {
        None => None,
        Some((t, count, payload)) => Some(unified_ips_of(payload, count as nat)),
    }
}

/// Whether a datagram is no frame or a frame whose payload holds every record
/// its count announces.
pub open spec fn datagram_decodable(bytes: Seq<u8>) -> bool {
    match parse_frame(bytes) {
        None => true,
        Some((t, count, payload)) => payload_complete(count, payload),
    }
}

pub struct UDPFrame<'a> {
    pub frame_type: FrameType,
    pub count: u32,
    pub payload: &'a [u8],
}

impl<'a> View for UDPFrame<'a> {
    type V = (FrameType, u32, Seq<u8>);

    open spec fn view(&self) -> (FrameType, u32, Seq<u8>) {
        (self.frame_type, self.count, self.payload@)
    }
}

impl<'a> UDPFrame<'a> {
    /// Appends the frame's bytes to `buf`.
    pub fn encode(&self, buf: &mut Vec<u8>)
        ensures
            final(buf)@ == old(buf)@ + frame_bytes(self.frame_type, self.count, self.payload@),
    {
        let type_byte: u8 = match self.frame_type {
            FrameType::UnifiedIp => 0,
        };
        buf.push(type_byte);
        let mut count_bytes = vstd::bytes::u32_to_le_bytes(self.count);
        buf.append(&mut count_bytes);
        let ghost mid = buf@;
        buf.extend_from_slice(self.payload);
        assert(buf@ =~= mid + self.payload@);
        assert(buf@ =~= old(buf)@ + frame_bytes(self.frame_type, self.count, self.payload@));
    }

    /// Reads a frame's header from `buf`; the payload borrows the rest of `buf`.
    pub fn decode(buf: &'a [u8]) -> (r: Option<Self>)
        ensures
            match r {
                Some(f) => parse_frame(buf@) == Some(f@),
                None => parse_frame(buf@) is None,
            },
    {
        if buf.len() < UDP_FRAME_HEADER_SIZE {
            return None;
        }
        let frame_type = FrameType::from_u8(buf[0])?;
        let count = vstd::bytes::u32_from_le_bytes(
            vstd::slice::slice_subrange(buf, 1, UDP_FRAME_HEADER_SIZE),
        );
        let payload = vstd::slice::slice_subrange(buf, UDP_FRAME_HEADER_SIZE, buf.len());
        assert(payload@ =~= buf@.skip(UDP_FRAME_HEADER_SIZE as int));
        Some(Self { frame_type, count, payload })
    }

    /// Reads the `count` items of the payload.
    pub fn decode_items(&self) -> (r: Option<DecodedLogItems>)
        requires
            payload_complete(self.count, self.payload@),
        ensures
            match r {
                Some(DecodedLogItems::UnifiedIp(items)) => items@ == unified_ips_of(
                    self.payload@,
                    self.count as nat,
                ),
                None => false,
            },
    {
        let mut buf = self.payload;
        let count = self.count as usize;
        match self.frame_type {
            FrameType::UnifiedIp => {
                let mut items: Vec<UnifiedIp> = Vec::with_capacity(count);
                let mut i: usize = 0;
                while i < count
                    invariant
                        count == self.count,
                        i <= count,
                        self.payload@.len() >= count * unified_ip_wire_size(),
                        buf@ == self.payload@.skip(i * unified_ip_wire_size()),
                        items@ == unified_ips_of(self.payload@, i as nat),
                    decreases count - i,
                {
                    let ghost before = buf@;
                    let item = UnifiedIp::decode(&mut buf);
                    proof {
                        assert(before.take(84) =~= self.payload@.subrange(i * 84, i * 84 + 84));
                        assert(buf@ =~= self.payload@.skip((i + 1) * 84));
                    }
                    items.push(item);
                    i = i + 1;
                    assert(items@ =~= unified_ips_of(self.payload@, i as nat));
                }
                Some(DecodedLogItems::UnifiedIp(items))
            },
        }
    }
}

/// Decodes one received datagram into its records; `None` when it is no frame.
pub fn decode_datagram(buf: &[u8]) -> (r: Option<DecodedLogItems>)
    requires
        datagram_decodable(buf@),
    ensures
        match r {
            Some(DecodedLogItems::UnifiedIp(items)) => datagram_items(buf@) == Some(items@),
            None => datagram_items(buf@) is None,
        },
{
    let frame = UDPFrame::decode(buf)?;
    frame.decode_items()
}

/// Whether `decode_datagram` may be called on `buf`: it is no frame, or the
/// frame's payload holds all the records it announces.
pub fn datagram_is_decodable(buf: &[u8]) -> (r: bool)
    ensures
        r == datagram_decodable(buf@),
{
    match UDPFrame::decode(buf) {
        None => true,
        Some(frame) => {
            let count = frame.count as usize;
            if count > frame.payload.len() / UNIFIED_IP_ENCODED_LEN {
                false
            } else {
                true
            }
        },
    }
}

/// Whether a received datagram of `len` bytes is kept for decoding: empty
/// datagrams and lengths beyond a datagram buffer are dropped.
pub fn datagram_len_acceptable(len: usize) -> (r: bool)
    ensures
        r == (0 < len <= MAX_UDP_DATAGRAM),
{
    !(len == 0 || len > MAX_UDP_DATAGRAM)
}

/// A frame's bytes parse back to the type, count and payload they were made
/// of, and bytes that parse are exactly the frame bytes of what they parse to.
pub proof fn lemma_frame_roundtrip(t: FrameType, count: u32, payload: Seq<u8>)
    ensures
        parse_frame(frame_bytes(t, count, payload)) == Some((t, count, payload)),
{
    vstd::bytes::lemma_auto_spec_u32_to_from_le_bytes();
    let b = frame_bytes(t, count, payload);
    assert(b.subrange(1, 5) =~= spec_u32_to_le_bytes(count));
    assert(b.skip(5) =~= payload);
}

/// Every datagram that parses as a frame is exactly the frame bytes of what
/// it parses to.
pub proof fn lemma_frame_parse_exact(bytes: Seq<u8>)
    requires
        parse_frame(bytes) is Some,
    ensures
        ({
            let (t, count, payload) = parse_frame(bytes).unwrap();
            frame_bytes(t, count, payload) == bytes
        }),
{
    vstd::bytes::lemma_auto_spec_u32_to_from_le_bytes();
    let (t, count, payload) = parse_frame(bytes).unwrap();
    assert(frame_bytes(t, count, payload) =~= bytes);
}

} // verus!
