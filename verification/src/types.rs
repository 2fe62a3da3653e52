//! Log records and their fixed little-endian wire form.
use vstd::prelude::*;
use vstd::bytes::{
    spec_u32_from_le_bytes, spec_u32_to_le_bytes, spec_u64_from_le_bytes, spec_u64_to_le_bytes,
};

verus! {

/// Items decoded from one frame, by the frame's type.
#[derive(Debug)]
pub enum DecodedLogItems {
    UnifiedIp(Vec<UnifiedIp>),
}

/// A record that can be written to and read back from a frame payload.
pub trait LogItem {
    /// The bytes that `encode` appends for this item.
    spec fn wire(&self) -> Seq<u8>;

    /// The number of bytes that `decode` reads.
    spec fn wire_size() -> nat;

    /// The item that `decode` reads from `wire_size()` bytes.
    spec fn from_wire(bytes: Seq<u8>) -> Self where Self: Sized;

    /// Appends this item's wire form to `buf`.
    fn encode(&self, buf: &mut Vec<u8>)
        ensures
            final(buf)@ == old(buf)@ + self.wire(),
    ;

    /// Reads one item from the front of `buf` and advances `buf` past it.
    fn decode(buf: &mut &[u8]) -> (r: Self) where Self: Sized
        requires
            old(buf)@.len() >= Self::wire_size(),
        ensures
            r == Self::from_wire(old(buf)@.take(Self::wire_size() as int)),
            final(buf)@ == old(buf)@.skip(Self::wire_size() as int),
    ;
}

/// Per-destination traffic totals.
#[derive(Clone, Debug, PartialEq, Eq, Structural)]
pub struct UnifiedIp {
    pub dest_ip: u32,
    pub tcp_packet_count: u64,
    pub tcp_byte_sum: u64,
    pub tcp_src_ip: u64,
    pub udp_packet_count: u64,
    pub udp_byte_sum: u64,
    pub udp_src_ip: u64,
    pub icmp_packet_count: u64,
    pub icmp_byte_sum: u64,
    pub icmp_src_ip: u64,
    pub timestamp: i64,
}

/// Size in bytes of one `UnifiedIp` on the wire, for executable code.
pub const UNIFIED_IP_ENCODED_LEN: usize = 84;

/// Size in bytes of one `UnifiedIp` on the wire.
pub open spec fn unified_ip_wire_size() -> nat {
    84
}

/// The eight bytes at `offset` of `bytes`, read as a little-endian `u64`.
pub open spec fn u64_at(bytes: Seq<u8>, offset: int) -> u64 {
    spec_u64_from_le_bytes(bytes.subrange(offset, offset + 8))
}

/// The two's-complement bits of a signed timestamp.
pub open spec fn signed_bits(t: i64) -> u64 {
    t as u64
}

/// The signed value whose two's-complement bits are `u`.
pub open spec fn from_signed_bits(u: u64) -> i64 {
    u as i64
}

/// A timestamp's wire bits are its two's complement: the value itself when
/// it is not negative, and the value plus 2^64 when it is; reading bits back
/// gives the value below 2^63 unchanged and subtracts 2^64 from the rest.
pub proof fn lemma_signed_bits_twos_complement(t: i64, u: u64)
    ensures
        t >= 0 ==> signed_bits(t) as int == t,
        t < 0 ==> signed_bits(t) as int == t + 0x1_0000_0000_0000_0000,
        u < 0x8000_0000_0000_0000 ==> from_signed_bits(u) as int == u,
        u >= 0x8000_0000_0000_0000 ==> from_signed_bits(u) as int == u - 0x1_0000_0000_0000_0000,
{
    assert(t >= 0 ==> (t as u64) as int == t) by (bit_vector);
    assert(t < 0 ==> (t as u64) as int == t + 0x1_0000_0000_0000_0000) by (bit_vector);
    assert(u < 0x8000_0000_0000_0000 ==> (u as i64) as int == u) by (bit_vector);
    assert(u >= 0x8000_0000_0000_0000 ==> (u as i64) as int == u - 0x1_0000_0000_0000_0000) by (bit_vector);
}

proof fn lemma_signed_bits_roundtrip(t: i64)
    ensures
        from_signed_bits(signed_bits(t)) == t,
{
    assert((t as u64) as i64 == t) by (bit_vector);
}

proof fn lemma_signed_bits_exact(u: u64)
    ensures
        signed_bits(from_signed_bits(u)) == u,
{
    assert((u as i64) as u64 == u) by (bit_vector);
}

fn to_signed_bits(t: i64) -> (r: u64)
    ensures
        r == signed_bits(t),
{
    t as u64
}

fn to_signed(u: u64) -> (r: i64)
    ensures
        r == from_signed_bits(u),
{
    u as i64
}

fn take_u32(buf: &mut &[u8]) -> (r: u32)
    requires
        old(buf)@.len() >= 4,
    ensures
        r == spec_u32_from_le_bytes(old(buf)@.take(4)),
        final(buf)@ == old(buf)@.skip(4),
{
    let head = vstd::slice::slice_subrange(*buf, 0, 4);
    let r = vstd::bytes::u32_from_le_bytes(head);
    *buf = vstd::slice::slice_subrange(*buf, 4, buf.len());
    assert(head@ =~= old(buf)@.take(4));
    r
}

fn take_u64(buf: &mut &[u8]) -> (r: u64)
    requires
        old(buf)@.len() >= 8,
    ensures
        r == spec_u64_from_le_bytes(old(buf)@.take(8)),
        final(buf)@ == old(buf)@.skip(8),
{
    let head = vstd::slice::slice_subrange(*buf, 0, 8);
    let r = vstd::bytes::u64_from_le_bytes(head);
    *buf = vstd::slice::slice_subrange(*buf, 8, buf.len());
    assert(head@ =~= old(buf)@.take(8));
    r
}

fn put_u64(buf: &mut Vec<u8>, x: u64)
    ensures
        final(buf)@ == old(buf)@ + spec_u64_to_le_bytes(x),
{
    let mut bytes = vstd::bytes::u64_to_le_bytes(x);
    buf.append(&mut bytes);
}

impl LogItem for UnifiedIp {
    open spec fn wire(&self) -> Seq<u8> {
        spec_u32_to_le_bytes(self.dest_ip)
            + spec_u64_to_le_bytes(self.tcp_packet_count)
            + spec_u64_to_le_bytes(self.tcp_byte_sum)
            + spec_u64_to_le_bytes(self.tcp_src_ip)
            + spec_u64_to_le_bytes(self.udp_packet_count)
            + spec_u64_to_le_bytes(self.udp_byte_sum)
            + spec_u64_to_le_bytes(self.udp_src_ip)
            + spec_u64_to_le_bytes(self.icmp_packet_count)
            + spec_u64_to_le_bytes(self.icmp_byte_sum)
            + spec_u64_to_le_bytes(self.icmp_src_ip)
            + spec_u64_to_le_bytes(signed_bits(self.timestamp))
    }

    open spec fn wire_size() -> nat {
        unified_ip_wire_size()
    }

    open spec fn from_wire(bytes: Seq<u8>) -> UnifiedIp {
        UnifiedIp {
            dest_ip: spec_u32_from_le_bytes(bytes.subrange(0, 4)),
            tcp_packet_count: u64_at(bytes, 4),
            tcp_byte_sum: u64_at(bytes, 12),
            tcp_src_ip: u64_at(bytes, 20),
            udp_packet_count: u64_at(bytes, 28),
            udp_byte_sum: u64_at(bytes, 36),
            udp_src_ip: u64_at(bytes, 44),
            icmp_packet_count: u64_at(bytes, 52),
            icmp_byte_sum: u64_at(bytes, 60),
            icmp_src_ip: u64_at(bytes, 68),
            timestamp: from_signed_bits(u64_at(bytes, 76)),
        }
    }

    fn encode(&self, buf: &mut Vec<u8>) {
        let mut head = vstd::bytes::u32_to_le_bytes(self.dest_ip);
        buf.append(&mut head);
        put_u64(buf, self.tcp_packet_count);
        put_u64(buf, self.tcp_byte_sum);
        put_u64(buf, self.tcp_src_ip);
        put_u64(buf, self.udp_packet_count);
        put_u64(buf, self.udp_byte_sum);
        put_u64(buf, self.udp_src_ip);
        put_u64(buf, self.icmp_packet_count);
        put_u64(buf, self.icmp_byte_sum);
        put_u64(buf, self.icmp_src_ip);
        put_u64(buf, to_signed_bits(self.timestamp));
        assert(buf@ =~= old(buf)@ + self.wire());
    }

    fn decode(buf: &mut &[u8]) -> (r: UnifiedIp) {
        let ghost b = old(buf)@;
        assert(b.len() >= 84);
        let dest_ip = take_u32(buf);
        assert(b.take(4) =~= b.subrange(0, 4));
        assert(buf@ =~= b.skip(4));
        let tcp_packet_count = take_u64(buf);
        assert(b.skip(4).take(8) =~= b.subrange(4, 12));
        assert(buf@ =~= b.skip(12));
        let tcp_byte_sum = take_u64(buf);
        assert(b.skip(12).take(8) =~= b.subrange(12, 20));
        assert(buf@ =~= b.skip(20));
        let tcp_src_ip = take_u64(buf);
        assert(b.skip(20).take(8) =~= b.subrange(20, 28));
        assert(buf@ =~= b.skip(28));
        let udp_packet_count = take_u64(buf);
        assert(b.skip(28).take(8) =~= b.subrange(28, 36));
        assert(buf@ =~= b.skip(36));
        let udp_byte_sum = take_u64(buf);
        assert(b.skip(36).take(8) =~= b.subrange(36, 44));
        assert(buf@ =~= b.skip(44));
        let udp_src_ip = take_u64(buf);
        assert(b.skip(44).take(8) =~= b.subrange(44, 52));
        assert(buf@ =~= b.skip(52));
        let icmp_packet_count = take_u64(buf);
        assert(b.skip(52).take(8) =~= b.subrange(52, 60));
        assert(buf@ =~= b.skip(60));
        let icmp_byte_sum = take_u64(buf);
        assert(b.skip(60).take(8) =~= b.subrange(60, 68));
        assert(buf@ =~= b.skip(68));
        let icmp_src_ip = take_u64(buf);
        assert(b.skip(68).take(8) =~= b.subrange(68, 76));
        assert(buf@ =~= b.skip(76));
        let timestamp = to_signed(take_u64(buf));
        assert(b.skip(76).take(8) =~= b.subrange(76, 84));
        assert(buf@ =~= b.skip(84));
        let r = UnifiedIp {
            dest_ip,
            tcp_packet_count,
            tcp_byte_sum,
            tcp_src_ip,
            udp_packet_count,
            udp_byte_sum,
            udp_src_ip,
            icmp_packet_count,
            icmp_byte_sum,
            icmp_src_ip,
            timestamp,
        };
        proof {
            let t = b.take(84);
            assert(t.subrange(0, 4) =~= b.subrange(0, 4));
            assert forall|k: int| 0 <= k <= 76 implies #[trigger] t.subrange(k, k + 8) =~= b.subrange(k, k + 8) by {}
        }
        r
    }
}

/// Decoding what `encode` wrote gives back the same record, and the wire form
/// of a record is exactly `unified_ip_wire_size()` bytes long.
pub proof fn lemma_unified_ip_roundtrip(x: UnifiedIp)
    ensures
        x.wire().len() == unified_ip_wire_size(),
        UnifiedIp::from_wire(x.wire()) == x,
{
    vstd::bytes::lemma_auto_spec_u32_to_from_le_bytes();
    vstd::bytes::lemma_auto_spec_u64_to_from_le_bytes();
    let w = x.wire();
    assert(w.subrange(0, 4) =~= spec_u32_to_le_bytes(x.dest_ip));
    assert(w.subrange(4, 12) =~= spec_u64_to_le_bytes(x.tcp_packet_count));
    assert(w.subrange(12, 20) =~= spec_u64_to_le_bytes(x.tcp_byte_sum));
    assert(w.subrange(20, 28) =~= spec_u64_to_le_bytes(x.tcp_src_ip));
    assert(w.subrange(28, 36) =~= spec_u64_to_le_bytes(x.udp_packet_count));
    assert(w.subrange(36, 44) =~= spec_u64_to_le_bytes(x.udp_byte_sum));
    assert(w.subrange(44, 52) =~= spec_u64_to_le_bytes(x.udp_src_ip));
    assert(w.subrange(52, 60) =~= spec_u64_to_le_bytes(x.icmp_packet_count));
    assert(w.subrange(60, 68) =~= spec_u64_to_le_bytes(x.icmp_byte_sum));
    assert(w.subrange(68, 76) =~= spec_u64_to_le_bytes(x.icmp_src_ip));
    assert(w.subrange(76, 84) =~= spec_u64_to_le_bytes(signed_bits(x.timestamp)));
    lemma_signed_bits_roundtrip(x.timestamp);
    assert(UnifiedIp::from_wire(w) == x);
}

/// Every run of `unified_ip_wire_size()` bytes is the wire form of the
/// record it decodes to: decoding loses nothing.
pub proof fn lemma_unified_ip_wire_exact(bytes: Seq<u8>)
    requires
        bytes.len() == unified_ip_wire_size(),
    ensures
        UnifiedIp::from_wire(bytes).wire() == bytes,
{
    vstd::bytes::lemma_auto_spec_u32_to_from_le_bytes();
    vstd::bytes::lemma_auto_spec_u64_to_from_le_bytes();
    let x = UnifiedIp::from_wire(bytes);
    lemma_signed_bits_exact(u64_at(bytes, 76));
    assert(spec_u32_to_le_bytes(x.dest_ip) == bytes.subrange(0, 4));
    assert forall|k: int| 0 <= k <= 76 implies #[trigger] spec_u64_to_le_bytes(u64_at(bytes, k))
        == bytes.subrange(k, k + 8) by {}
    assert(x.wire() =~= bytes.subrange(0, 4) + bytes.subrange(4, 12) + bytes.subrange(12, 20)
        + bytes.subrange(20, 28) + bytes.subrange(28, 36) + bytes.subrange(36, 44) + bytes.subrange(
        44,
        52,
    ) + bytes.subrange(52, 60) + bytes.subrange(60, 68) + bytes.subrange(68, 76) + bytes.subrange(
        76,
        84,
    ));
    assert(x.wire() =~= bytes);
}

/// The last eight wire bytes of a record are its timestamp's two's
/// complement, little-endian.
pub proof fn lemma_timestamp_wire(x: UnifiedIp)
    ensures
        x.wire().subrange(76, 84) == spec_u64_to_le_bytes(x.timestamp as u64),
{
    vstd::bytes::lemma_auto_spec_u32_to_from_le_bytes();
    vstd::bytes::lemma_auto_spec_u64_to_from_le_bytes();
    assert(x.wire().subrange(76, 84) =~= spec_u64_to_le_bytes(x.timestamp as u64));
}

} // verus!
