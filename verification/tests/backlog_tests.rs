use udp_ring_queue::pool::{pool_capacity, take_or_fresh, BufferPool, PacketBatch};
use udp_ring_queue::ring::RingBuffer;
use udp_ring_queue::stream::{
    after_export, backlog_estimate, before_export, interval_stats, settle_export, stream_delta, ExporterAction,
    LogStore, LoggerError, Stats, StatsSnapshot, StreamBuffer, StreamCounter, StreamSnapshot,
};
use udp_ring_queue::types::{DecodedLogItems, UnifiedIp};

fn drain_all<T>(ring: &mut RingBuffer<T>) -> Vec<T> {
    let mut out = Vec::new();
    ring.drain_batch(usize::MAX, &mut out);
    out
}

#[test]
fn ring_keeps_items_in_order() {
    let mut ring = RingBuffer::with_capacity(4);
    ring.push(1);
    ring.push(2);
    ring.push(3);
    assert_eq!(ring.len(), 3);
    assert_eq!(drain_all(&mut ring), vec![1, 2, 3]);
    assert_eq!(ring.len(), 0);
}

#[test]
fn ring_evicts_the_oldest_when_full() {
    let mut ring = RingBuffer::with_capacity(3);
    for i in 0..7 {
        ring.push(i);
    }
    assert_eq!(ring.len(), 3);
    assert_eq!(drain_all(&mut ring), vec![4, 5, 6]);
}

#[test]
fn ring_wraps_around() {
    let mut ring = RingBuffer::with_capacity(3);
    ring.push(0);
    ring.push(1);
    ring.push(2);
    let mut out = Vec::new();
    ring.drain_batch(2, &mut out);
    assert_eq!(out, vec![0, 1]);
    ring.push(3);
    ring.push(4);
    ring.push(5);
    assert_eq!(ring.len(), 3);
    assert_eq!(drain_all(&mut ring), vec![3, 4, 5]);
}

#[test]
fn ring_of_zero_capacity_drops_everything() {
    let mut ring = RingBuffer::with_capacity(0);
    ring.push("a");
    assert_eq!(ring.len(), 0);
    assert!(drain_all(&mut ring).is_empty());
}

#[test]
fn ring_drop_oldest_and_empty_ring() {
    let mut ring = RingBuffer::with_capacity(2);
    ring.drop_oldest();
    assert_eq!(ring.len(), 0);
    ring.push(10);
    ring.push(11);
    ring.drop_oldest();
    assert_eq!(drain_all(&mut ring), vec![11]);
}

#[test]
fn drain_batch_takes_at_most_max_and_clears_out() {
    let mut ring = RingBuffer::with_capacity(5);
    for i in 0..5 {
        ring.push(i);
    }
    let mut out = vec![99, 98];
    ring.drain_batch(2, &mut out);
    assert_eq!(out, vec![0, 1]);
    ring.drain_batch(10, &mut out);
    assert_eq!(out, vec![2, 3, 4]);
    ring.drain_batch(10, &mut out);
    assert!(out.is_empty());
}

#[test]
fn counter_adds_and_wraps() {
    let mut c = StreamCounter::default();
    c.add_received(5);
    c.add_flushed(2);
    c.add_evicted(1);
    assert_eq!(c.snapshot(), (5, 2, 1));
    c.add_received(u64::MAX);
    assert_eq!(c.snapshot(), (4, 2, 1));
}

#[test]
fn stream_buffer_evicts_oldest_and_counts() {
    let mut c = StreamCounter::default();
    let mut sb = StreamBuffer::new(3);
    for i in 0..5 {
        sb.push(i, &mut c);
    }
    assert_eq!(sb.backlog_len(), 3);
    assert_eq!(c.snapshot(), (5, 0, 2));
    assert_eq!(sb.take_batch_for_export(10), vec![2, 3, 4]);
}

#[test]
fn push_batch_keeps_the_newest() {
    let mut c = StreamCounter::default();
    let mut sb = StreamBuffer::new(4);
    sb.push(0, &mut c);
    sb.push_batch(vec![1, 2, 3, 4, 5], &mut c);
    assert_eq!(c.snapshot(), (6, 0, 2));
    assert_eq!(sb.take_batch_for_export(100), vec![2, 3, 4, 5]);
    sb.push_batch(Vec::new(), &mut c);
    assert_eq!(c.snapshot(), (6, 0, 2));
}

#[test]
fn take_batch_takes_oldest_first_in_limits() {
    let mut c = StreamCounter::default();
    let mut sb = StreamBuffer::new(10);
    sb.push_batch((0..6).collect(), &mut c);
    assert_eq!(sb.take_batch_for_export(4), vec![0, 1, 2, 3]);
    assert_eq!(sb.backlog_len(), 2);
    assert_eq!(sb.take_batch_for_export(0), Vec::<i32>::new());
    assert_eq!(sb.take_batch_for_export(4), vec![4, 5]);
    assert_eq!(sb.backlog_len(), 0);
}

#[test]
fn failed_export_restores_the_backlog() {
    let mut c = StreamCounter::default();
    let mut sb = StreamBuffer::new(10);
    sb.push_batch((0..6).collect(), &mut c);
    let batch = sb.take_batch_for_export(4);
    sb.push(6, &mut c);
    let r = settle_export(&mut sb, &mut c, batch, Err(LoggerError::Serialize));
    assert!(matches!(r, Err(LoggerError::Serialize)));
    assert_eq!(c.snapshot(), (7, 0, 0));
    assert_eq!(sb.take_batch_for_export(100), vec![0, 1, 2, 3, 4, 5, 6]);
}

#[test]
fn restored_batch_is_evicted_first_when_full() {
    let mut c = StreamCounter::default();
    let mut sb = StreamBuffer::new(3);
    sb.push_batch(vec![1, 2, 3], &mut c);
    let batch = sb.take_batch_for_export(2);
    sb.push_batch(vec![4, 5], &mut c);
    sb.restore_export_batch(batch);
    assert_eq!(sb.backlog_len(), 5);
    sb.push(6, &mut c);
    assert_eq!(c.snapshot(), (6, 0, 3));
    assert_eq!(sb.take_batch_for_export(10), vec![4, 5, 6]);
}

#[test]
fn successful_export_counts_flushed() {
    let mut c = StreamCounter::default();
    let mut sb = StreamBuffer::new(10);
    sb.push_batch(vec![1, 2, 3], &mut c);
    let batch = sb.take_batch_for_export(2);
    let n = batch.len();
    assert_eq!(settle_export(&mut sb, &mut c, batch, Ok(n)).ok(), Some(2));
    assert_eq!(c.snapshot(), (3, 2, 0));
    assert_eq!(sb.backlog_len(), 1);
    assert_eq!(backlog_estimate(c.snapshot()), 1);
}

#[test]
fn backlog_estimate_saturates() {
    assert_eq!(backlog_estimate((10, 3, 2)), 5);
    assert_eq!(backlog_estimate((1, 3, 2)), 0);
    assert_eq!(backlog_estimate((5, 3, 9)), 0);
}

#[test]
fn stream_delta_reports_and_advances() {
    let mut c = StreamCounter::default();
    c.add_received(10);
    c.add_flushed(4);
    c.add_evicted(1);
    let mut prev = StreamSnapshot::default();
    let d = stream_delta(&c, &mut prev);
    assert_eq!((d.received, d.flushed, d.evicted, d.backlog), (10, 4, 1, 5));
    c.add_received(3);
    let d = stream_delta(&c, &mut prev);
    assert_eq!((d.received, d.flushed, d.evicted, d.backlog), (3, 0, 0, 8));
    assert_eq!((prev.received, prev.flushed, prev.evicted), (13, 4, 1));
}

#[test]
fn interval_stats_reports_the_unified_ip_stream() {
    let mut stats = Stats::default();
    stats.unified_ip.add_received(2);
    let mut prev = StatsSnapshot::default();
    let d = interval_stats(&stats, &mut prev);
    assert_eq!((d.received, d.backlog), (2, 2));
    assert_eq!(prev.unified_ip.received, 2);
}

#[test]
fn logger_error_message() {
    assert_eq!(LoggerError::Serialize.to_string(), "serialize error");
}

#[test]
fn exporter_action_after_export() {
    assert_eq!(after_export::<LoggerError>(&Ok(0)), ExporterAction::Yield);
    assert_eq!(after_export::<LoggerError>(&Ok(3)), ExporterAction::Continue);
    assert_eq!(after_export(&Err(LoggerError::Serialize)), ExporterAction::Backoff);
}

fn ip(seed: u32) -> UnifiedIp {
    UnifiedIp {
        dest_ip: seed,
        tcp_packet_count: 0,
        tcp_byte_sum: 0,
        tcp_src_ip: 0,
        udp_packet_count: 0,
        udp_byte_sum: 0,
        udp_src_ip: 0,
        icmp_packet_count: 0,
        icmp_byte_sum: 0,
        icmp_src_ip: 0,
        timestamp: 0,
    }
}

#[test]
fn log_store_queues_decoded_records() {
    let mut store = LogStore::new(Stats::default());
    store.push_decoded(DecodedLogItems::UnifiedIp(vec![ip(1), ip(2)]));
    assert_eq!(store.unified_ip.backlog_len(), 2);
    assert_eq!(store.stats.unified_ip.snapshot(), (2, 0, 0));
    assert_eq!(store.unified_ip.take_batch_for_export(1), vec![ip(1)]);
}

#[test]
fn buffer_pool_hands_out_datagram_buffers() {
    let pool = BufferPool::new(2);
    let a = pool.acquire();
    let b = pool.acquire();
    let c = pool.acquire();
    assert_eq!(a.len(), 1472);
    assert!(c.iter().all(|x| *x == 0));
    pool.release(a);
    pool.release(b);
    pool.release(c);
    let batch = PacketBatch { packets: vec![(pool.acquire(), 10)] };
    assert_eq!(batch.packets[0].1, 10);
}

#[test]
fn counters_balance_with_backlog_and_exports() {
    let mut c = StreamCounter::default();
    let mut sb = StreamBuffer::new(5);
    sb.push_batch((0..8).collect(), &mut c);
    let ok = sb.take_batch_for_export(2);
    let failed = sb.take_batch_for_export(2);
    let n = ok.len();
    settle_export(&mut sb, &mut c, ok, Ok(n)).ok();
    settle_export(&mut sb, &mut c, failed, Err(LoggerError::Serialize)).ok();
    sb.push(8, &mut c);
    let (received, flushed, evicted) = c.snapshot();
    assert_eq!(received, flushed + evicted + sb.backlog_len() as u64);
    assert_eq!((received, flushed, evicted), (9, 2, 3));
    assert_eq!(backlog_estimate(c.snapshot()), 4);
}

#[test]
fn zero_capacity_backlog_accepts_and_keeps_nothing() {
    let mut c = StreamCounter::default();
    let mut sb = StreamBuffer::new(0);
    sb.push(1, &mut c);
    assert_eq!(c.snapshot(), (1, 0, 0));
    assert_eq!(sb.backlog_len(), 0);
    sb.restore_export_batch(vec![7, 8]);
    sb.push_batch(vec![2, 3], &mut c);
    assert_eq!(c.snapshot(), (3, 0, 2));
    assert_eq!(sb.backlog_len(), 0);
}

#[test]
fn push_batch_matches_pushing_one_at_a_time() {
    let (mut c1, mut c2) = (StreamCounter::default(), StreamCounter::default());
    let (mut a, mut b) = (StreamBuffer::new(4), StreamBuffer::new(4));
    for sb_c in [(&mut a, &mut c1), (&mut b, &mut c2)] {
        sb_c.0.push_batch(vec![0, 1, 2], sb_c.1);
    }
    let items = vec![3, 4, 5, 6, 7];
    a.push_batch(items.clone(), &mut c1);
    for x in items {
        b.push(x, &mut c2);
    }
    assert_eq!(c1.snapshot(), c2.snapshot());
    assert_eq!(a.take_batch_for_export(10), b.take_batch_for_export(10));
}

#[test]
fn ring_len_after_pushes_is_min_of_count_and_capacity() {
    for cap in 0..4usize {
        for n in 0..7usize {
            let mut ring = RingBuffer::with_capacity(cap);
            for i in 0..n {
                ring.push(i);
            }
            assert_eq!(ring.len(), n.min(cap));
        }
    }
}

#[test]
fn exporter_action_before_export() {
    assert_eq!(before_export(0), ExporterAction::Idle);
    assert_eq!(before_export(5), ExporterAction::Export);
}

#[test]
fn take_or_fresh_keeps_a_taken_buffer_or_makes_a_zeroed_one() {
    let mut buf = Box::new([0u8; 1472]);
    buf[7] = 9;
    let kept = take_or_fresh(Some(buf));
    assert_eq!(kept[7], 9);
    let fresh = take_or_fresh(None);
    assert_eq!(fresh.len(), 1472);
    assert!(fresh.iter().all(|b| *b == 0));
}

#[test]
fn pool_capacity_is_four_batches_per_thread_at_least_two_batches() {
    assert_eq!(pool_capacity(356, 4), 5696);
    assert_eq!(pool_capacity(356, 0), 712);
    assert_eq!(pool_capacity(usize::MAX / 2, 4), usize::MAX);
}
