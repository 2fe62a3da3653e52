use udp_ring_queue::mock::produce_mock_data;
use udp_ring_queue::types::UnifiedIp;

#[test]
fn test_produce_mock_data() {
    const MOCK_LEN: usize = 1_000_000;
    let mut mock_data = Vec::with_capacity(MOCK_LEN);
    produce_mock_data(&mut mock_data);
    assert_eq!(mock_data.len(), MOCK_LEN);
}

#[test]
fn mock_records_lie_in_their_ranges_and_follow_existing_ones() {
    let first = UnifiedIp {
        dest_ip: 1,
        tcp_packet_count: u64::MAX,
        tcp_byte_sum: 0,
        tcp_src_ip: 0,
        udp_packet_count: 0,
        udp_byte_sum: 0,
        udp_src_ip: 0,
        icmp_packet_count: 0,
        icmp_byte_sum: 0,
        icmp_src_ip: 0,
        timestamp: -1,
    };
    let mut data = vec![first.clone()];
    produce_mock_data(&mut data);
    assert_eq!(data.len(), 1_000_001);
    assert_eq!(data[0], first);
    for r in &data[1..] {
        assert!(r.tcp_packet_count < 10_000);
        assert!(r.tcp_byte_sum < 5_000_000);
        assert!(r.udp_packet_count < 5_000);
        assert!(r.udp_byte_sum < 2_500_000);
        assert!(r.icmp_packet_count < 500);
        assert!(r.icmp_byte_sum < 50_000);
        assert!((1_700_000_000..1_735_000_000).contains(&r.timestamp));
    }
}
