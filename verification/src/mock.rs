//! Random records for exercising a sender.
use vstd::prelude::*;
use rand::rngs::ThreadRng;
use rand::{Rng, RngExt};
use crate::types::UnifiedIp;

verus! {

/// Records that one call of `produce_mock_data` adds.
pub const MOCK_RECORDS: usize = 1_000_000;

#[verifier::external_type_specification]
#[verifier::external_body]
pub struct ExThreadRng(ThreadRng);

/// `rand::rng`: the calling thread's random generator. It panics only when
/// the operating system cannot seed it, which no argument decides.
#[verifier::external_body]
fn thread_rng() -> ThreadRng {
    rand::rng()
}

/// `Rng::next_u32`: a random `u32`; nothing is said of its value.
#[verifier::external_body]
fn next_u32(rng: &mut ThreadRng) -> u32 {
    rng.next_u32()
}

/// `Rng::next_u64`: a random `u64`; nothing is said of its value.
#[verifier::external_body]
fn next_u64(rng: &mut ThreadRng) -> u64 {
    rng.next_u64()
}

/// `RngExt::random_range` on `lo..hi`: a random value at least `lo` and
/// below `hi`. It panics on an empty range, which `requires` leaves out.
#[verifier::external_body]
fn random_range(rng: &mut ThreadRng, lo: u64, hi: u64) -> (r: u64)
    requires
        lo < hi,
    ensures
        lo <= r < hi,
{
    rng.random_range(lo..hi)
}

/// Whether a record's counts and timestamp lie in the ranges that mock
/// records are drawn from.
pub open spec fn mock_in_range(r: UnifiedIp) -> bool {
    &&& r.tcp_packet_count < 10_000
    &&& r.tcp_byte_sum < 5_000_000
    &&& r.udp_packet_count < 5_000
    &&& r.udp_byte_sum < 2_500_000
    &&& r.icmp_packet_count < 500
    &&& r.icmp_byte_sum < 50_000
    &&& 1_700_000_000 <= r.timestamp < 1_735_000_000
}

fn timestamp_from(u: u64) -> (r: i64)
    requires
        u <= i64::MAX,
    ensures
        r == u,
{
    u as i64
}

/// Appends `MOCK_RECORDS` random records to `mock_data`, each within the
/// ranges of `mock_in_range`; addresses are arbitrary.
pub fn produce_mock_data(mock_data: &mut Vec<UnifiedIp>)
    requires
        old(mock_data)@.len() + MOCK_RECORDS <= usize::MAX,
    ensures
        final(mock_data)@.len() == old(mock_data)@.len() + MOCK_RECORDS,
        forall|i: int| 0 <= i < old(mock_data)@.len() ==> final(mock_data)@[i] == old(mock_data)@[i],
        forall|i: int|
            old(mock_data)@.len() <= i < final(mock_data)@.len() ==> mock_in_range(
                #[trigger] final(mock_data)@[i],
            ),
{
    let add_count = MOCK_RECORDS;
    let mut rng = thread_rng();
    mock_data.reserve(add_count);
    let ghost start = mock_data@;
    let mut i: usize = 0;
    while i < add_count
        invariant
            i <= add_count,
            add_count == MOCK_RECORDS,
            start == old(mock_data)@,
            start.len() + MOCK_RECORDS <= usize::MAX,
            mock_data@.len() == start.len() + i,
            forall|k: int| 0 <= k < start.len() ==> mock_data@[k] == start[k],
            forall|k: int|
                start.len() <= k < mock_data@.len() ==> mock_in_range(#[trigger] mock_data@[k]),
        decreases add_count - i,
    {
        let dest_ip = next_u32(&mut rng);
        let tcp_packet_count = random_range(&mut rng, 0, 10_000);
        let tcp_byte_sum = random_range(&mut rng, 0, 5_000_000);
        let tcp_src_ip = next_u64(&mut rng);
        let udp_packet_count = random_range(&mut rng, 0, 5_000);
        let udp_byte_sum = random_range(&mut rng, 0, 2_500_000);
        let udp_src_ip = next_u64(&mut rng);
        let icmp_packet_count = random_range(&mut rng, 0, 500);
        let icmp_byte_sum = random_range(&mut rng, 0, 50_000);
        let icmp_src_ip = next_u64(&mut rng);
        let timestamp = timestamp_from(random_range(&mut rng, 1_700_000_000, 1_735_000_000));
        let ghost before = mock_data@;
        mock_data.push(
            UnifiedIp {
                dest_ip,
                tcp_packet_count,
                tcp_byte_sum,
                tcp_src_ip,
                udp_packet_count,
                udp_byte_sum,
                udp_src_ip,
                icmp_packet_count,
                icmp_byte_sum,
                icmp_src_ip,
                timestamp,
            },
        );
        i = i + 1;
    }
}

} // verus!
