use udp_ring_queue::encoder::{datagram_fits_mtu, encode_unified_ip_batch, FrameEncoder};
use udp_ring_queue::frame::{
    datagram_len_acceptable, decode_datagram, datagram_is_decodable, items_per_frame, pending_frames_hint, FrameType,
    UDPFrame, MAX_UDP_DATAGRAM, MAX_UDP_FRAME_PAYLOAD, UDP_FRAME_HEADER_SIZE, UDP_IO_BATCH,
    UDP_RECV_BATCH, UNIFIED_IP_WIRE_BYTES,
};
use udp_ring_queue::types::{DecodedLogItems, LogItem, UnifiedIp};

fn record(seed: u64) -> UnifiedIp {
    UnifiedIp {
        dest_ip: seed as u32 ^ 0xA0B0_C0D0,
        tcp_packet_count: seed,
        tcp_byte_sum: seed * 3,
        tcp_src_ip: u64::MAX - seed,
        udp_packet_count: seed + 1,
        udp_byte_sum: seed + 2,
        udp_src_ip: seed + 3,
        icmp_packet_count: seed + 4,
        icmp_byte_sum: seed + 5,
        icmp_src_ip: seed + 6,
        timestamp: 1_700_000_000 - seed as i64,
    }
}

fn items_of(decoded: Option<DecodedLogItems>) -> Vec<UnifiedIp> {
    match decoded {
        Some(DecodedLogItems::UnifiedIp(items)) => items,
        None => panic!("not a frame"),
    }
}

#[test]
fn constants_have_their_values() {
    assert_eq!(UDP_FRAME_HEADER_SIZE, 5);
    assert_eq!(MAX_UDP_DATAGRAM, 1472);
    assert_eq!(MAX_UDP_FRAME_PAYLOAD, 1467);
    assert_eq!(UDP_IO_BATCH, 178);
    assert_eq!(UDP_RECV_BATCH, 356);
    assert_eq!(UNIFIED_IP_WIRE_BYTES, 0);
}

#[test]
fn frame_type_from_byte() {
    assert_eq!(FrameType::from_u8(0), Some(FrameType::UnifiedIp));
    assert_eq!(FrameType::from_u8(1), None);
    assert_eq!(FrameType::from_u8(255), None);
}

#[test]
fn items_per_frame_divides_the_payload() {
    assert_eq!(items_per_frame(0), 0);
    assert_eq!(items_per_frame(84), 17);
    assert_eq!(items_per_frame(1467), 1);
    assert_eq!(items_per_frame(1468), 0);
    assert_eq!(items_per_frame(1), 1467);
    assert_eq!(FrameType::UnifiedIp.typical_wire_bytes(), 0);
    assert_eq!(FrameType::UnifiedIp.items_per_frame(), 0);
}

#[test]
fn pending_frames_hint_rounds_up() {
    assert_eq!(pending_frames_hint(178, 0), 178);
    assert_eq!(pending_frames_hint(34, 84), 2);
    assert_eq!(pending_frames_hint(35, 84), 3);
    assert_eq!(pending_frames_hint(0, 84), 0);
    assert_eq!(pending_frames_hint(7, 2000), 7);
    assert_eq!(pending_frames_hint(usize::MAX, 1467), usize::MAX);
    assert_eq!(pending_frames_hint(usize::MAX, 700), usize::MAX / 2 + 1);
}

#[test]
fn frame_encode_writes_header_then_payload() {
    let payload = [9u8, 8, 7];
    let frame = UDPFrame { frame_type: FrameType::UnifiedIp, count: 0x0102_0304, payload: &payload };
    let mut buf = vec![0xEE];
    frame.encode(&mut buf);
    assert_eq!(buf, vec![0xEE, 0, 4, 3, 2, 1, 9, 8, 7]);
}

#[test]
fn frame_decode_reads_back_an_encoded_frame() {
    let payload = [1u8, 2, 3, 4, 5];
    let frame = UDPFrame { frame_type: FrameType::UnifiedIp, count: 77, payload: &payload };
    let mut buf = Vec::new();
    frame.encode(&mut buf);
    let back = UDPFrame::decode(&buf).expect("a frame");
    assert_eq!(back.frame_type, FrameType::UnifiedIp);
    assert_eq!(back.count, 77);
    assert_eq!(back.payload, &payload[..]);
}

#[test]
fn frame_decode_refuses_short_or_unknown_input() {
    assert!(UDPFrame::decode(&[0, 1, 0, 0]).is_none());
    assert!(UDPFrame::decode(&[]).is_none());
    assert!(UDPFrame::decode(&[1, 0, 0, 0, 0]).is_none());
    let empty = UDPFrame::decode(&[0, 0, 0, 0, 0]).expect("header only");
    assert_eq!(empty.count, 0);
    assert!(empty.payload.is_empty());
}

#[test]
fn unified_ip_wire_layout_is_little_endian() {
    let mut r = record(0);
    r.dest_ip = 0x0A0B_0C0D;
    r.timestamp = -2;
    let mut buf = Vec::new();
    r.encode(&mut buf);
    assert_eq!(buf.len(), 84);
    assert_eq!(&buf[0..4], &[0x0D, 0x0C, 0x0B, 0x0A]);
    assert_eq!(&buf[76..84], &[0xFE, 0xFF, 0xFF, 0xFF, 0xFF, 0xFF, 0xFF, 0xFF]);
}

#[test]
fn unified_ip_decode_reads_back_and_advances() {
    let a = record(5);
    let b = record(6);
    let mut buf = Vec::new();
    a.encode(&mut buf);
    b.encode(&mut buf);
    buf.push(42);
    let mut rest: &[u8] = &buf;
    assert_eq!(UnifiedIp::decode(&mut rest), a);
    assert_eq!(rest.len(), 85);
    assert_eq!(UnifiedIp::decode(&mut rest), b);
    assert_eq!(rest, &[42u8][..]);
}

#[test]
fn decode_items_reads_count_records() {
    let mut payload = Vec::new();
    record(1).encode(&mut payload);
    record(2).encode(&mut payload);
    let frame = UDPFrame { frame_type: FrameType::UnifiedIp, count: 2, payload: &payload };
    assert_eq!(items_of(frame.decode_items()), vec![record(1), record(2)]);
    let one = UDPFrame { frame_type: FrameType::UnifiedIp, count: 1, payload: &payload };
    assert_eq!(items_of(one.decode_items()), vec![record(1)]);
}

#[test]
fn decode_datagram_decodes_frames_and_rejects_others() {
    let mut payload = Vec::new();
    record(3).encode(&mut payload);
    let mut buf = Vec::new();
    UDPFrame { frame_type: FrameType::UnifiedIp, count: 1, payload: &payload }.encode(&mut buf);
    assert!(datagram_is_decodable(&buf));
    assert_eq!(items_of(decode_datagram(&buf)), vec![record(3)]);
    assert!(decode_datagram(&[7, 0, 0, 0, 0]).is_none());
    assert!(decode_datagram(&[0, 0]).is_none());
}

#[test]
fn datagram_is_decodable_checks_the_announced_count() {
    assert!(datagram_is_decodable(&[0, 0, 0, 0, 0]));
    assert!(!datagram_is_decodable(&[0, 1, 0, 0, 0]));
    assert!(datagram_is_decodable(&[3, 1, 0, 0, 0]));
    let mut buf = vec![0, 1, 0, 0, 0];
    buf.extend_from_slice(&[0u8; 83]);
    assert!(!datagram_is_decodable(&buf));
    buf.push(0);
    assert!(datagram_is_decodable(&buf));
}

#[test]
fn datagram_fits_mtu_at_the_limit() {
    assert!(datagram_fits_mtu(&[0u8; 1472]));
    assert!(!datagram_fits_mtu(&[0u8; 1473]));
    assert!(datagram_fits_mtu(&[]));
}

#[test]
fn encoder_keeps_items_until_flush() {
    let mut enc = FrameEncoder::new(FrameType::UnifiedIp);
    enc.append_item(&record(1));
    enc.append_item(&record(2));
    let frames = enc.flush();
    assert_eq!(frames.len(), 1);
    assert_eq!(frames[0].len(), 5 + 2 * 84);
    assert_eq!(&frames[0][0..5], &[0, 2, 0, 0, 0]);
    assert_eq!(items_of(decode_datagram(&frames[0])), vec![record(1), record(2)]);
    assert!(enc.flush().is_empty());
}

#[test]
fn encoder_sends_the_overflowing_item_alone() {
    let mut enc = FrameEncoder::new(FrameType::UnifiedIp);
    for i in 0..18 {
        enc.append_item(&record(i));
    }
    let frames = enc.flush();
    assert_eq!(frames.len(), 2);
    assert_eq!(frames[0].len(), 5 + 17 * 84);
    assert_eq!(frames[1].len(), 5 + 84);
    assert_eq!(items_of(decode_datagram(&frames[1])), vec![record(17)]);
}

#[test]
fn batch_frames_decode_back_to_the_batch() {
    let batch: Vec<UnifiedIp> = (0..40).map(record).collect();
    let mut enc = FrameEncoder::new(FrameType::UnifiedIp);
    let frames = encode_unified_ip_batch(&mut enc, &batch);
    let sizes: Vec<usize> = frames.iter().map(|f| (f.len() - 5) / 84).collect();
    assert_eq!(sizes, vec![17, 1, 17, 1, 4]);
    let mut decoded = Vec::new();
    for f in &frames {
        assert!(f.len() <= MAX_UDP_DATAGRAM);
        decoded.extend(items_of(decode_datagram(f)));
    }
    assert_eq!(decoded, batch);
}

#[test]
fn empty_batch_makes_no_frame() {
    let mut enc = FrameEncoder::new(FrameType::UnifiedIp);
    assert!(encode_unified_ip_batch(&mut enc, &Vec::new()).is_empty());
}

#[test]
fn received_lengths_kept_for_decoding() {
    assert!(!datagram_len_acceptable(0));
    assert!(datagram_len_acceptable(1));
    assert!(datagram_len_acceptable(1472));
    assert!(!datagram_len_acceptable(1473));
}

#[test]
fn any_record_bytes_encode_back_unchanged() {
    let bytes: Vec<u8> = (0..84u32).map(|i| (i * 37 + 5) as u8).collect();
    let mut rest: &[u8] = &bytes;
    let r = UnifiedIp::decode(&mut rest);
    assert!(rest.is_empty());
    let mut again = Vec::new();
    r.encode(&mut again);
    assert_eq!(again, bytes);
}

#[test]
fn any_frame_bytes_encode_back_unchanged() {
    let bytes = vec![0u8, 0xFF, 0x10, 0x00, 0x80, 1, 2, 3];
    let f = UDPFrame::decode(&bytes).expect("a frame");
    assert_eq!(f.count, 0x8000_10FF);
    let mut again = Vec::new();
    f.encode(&mut again);
    assert_eq!(again, bytes);
}
