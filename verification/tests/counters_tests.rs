//! Decaying-counter behaviour: exact fixed-point decay values, monotonic
//! totals, rounding-tolerant comparison, the long-window reset, and the
//! wire round trip.

use mc_state::cells::{BuilderData, SliceData};
use mc_state::counters::{umulnexps32, BlockCounters, BlockCreateStats, Counters, CreatorStats};
use mc_state::error::BlockError;
use mc_state::types::UInt256;

#[test]
fn umulnexps32_exact_values() {
    // e^-1 of a unit in 32.32 fixed point
    assert_eq!(umulnexps32(1u64 << 32, 65536, false), 1580030169);
    // no time elapsed: no decay at all
    assert_eq!(umulnexps32(u64::MAX, 0, false), u64::MAX);
    // one short half-life, scaled time
    assert_eq!(umulnexps32(1000000u64 << 32, 2048 * 32, false), 1580030168702101);
    assert_eq!(umulnexps32(123456789, 777, false), 122001718);
    // far past representable precision everything decays to nothing
    assert_eq!(umulnexps32(u64::MAX, 0x40_0000, false), 0);
}

#[test]
fn increase_by_initializes_and_decays() {
    let mut c = Counters::default();
    assert!(c.is_valid());
    assert!(c.is_zero());
    assert!(c.increase_by(5, 100));
    assert_eq!(c.total(), 5);
    assert_eq!(c.last_updated(), 100);
    assert_eq!(c.cnt2048(), 5u64 << 32);
    assert_eq!(c.cnt65536(), 5u64 << 32);
    assert!(c.increase_by(3, 100 + 2048));
    assert_eq!(c.total(), 8);
    assert_eq!(c.cnt2048(), 20785052732);
    assert_eq!(c.cnt65536(), 33699027109);
}

#[test]
fn increase_by_total_is_monotonic() {
    let mut c = Counters::default();
    let mut prev = 0u64;
    let times = [10u32, 10, 5000, 5000, 200000, 4000000];
    for (i, now) in times.iter().enumerate() {
        let _ = c.increase_by(i as u64, *now);
        assert!(c.total() >= prev);
        prev = c.total();
    }
}

#[test]
fn equal_feeds_stay_almost_equal() {
    let mut a = Counters::default();
    let mut b = Counters::default();
    let feed = [(5u64, 100u32), (3, 2148), (7, 2148), (1, 99_999), (2, 4_000_000)];
    for (count, now) in feed.iter() {
        let ra = a.increase_by(*count, *now);
        let rb = b.increase_by(*count, *now);
        assert_eq!(ra, rb);
        assert!(a.almost_equals(&b));
    }
}

#[test]
fn long_window_resets_exactly() {
    let mut c = Counters::default();
    assert!(c.increase_by(9, 50));
    // a gap past the reset threshold leaves only the fresh scaled count
    assert!(c.increase_by(2, 50 + 98304));
    assert_eq!(c.cnt65536(), 2u64 << 32);
}

#[test]
fn increase_by_refuses_overflow_and_invalid() {
    let mut c = Counters::default();
    // a count too large for the fixed-point scale
    assert!(!c.increase_by(1u64 << 32, 7));
    assert!(c.is_zero());
    assert!(c.increase_by((1u64 << 32) - 1, 7));
    // the scaled accumulator would overflow
    assert!(!c.increase_by((1u64 << 32) - 1, 7));
    assert_eq!(c.total(), (1u64 << 32) - 1);
}

#[test]
fn almost_zero_tolerates_one_unit() {
    let c = Counters::default();
    assert!(c.almost_zero());
    assert!(c.modified_since(0));
    let mut d = Counters::default();
    assert!(d.increase_by(1, 1));
    assert!(!d.almost_zero());
}

#[test]
fn counters_round_trip() {
    let mut c = Counters::default();
    assert!(c.increase_by(41, 1234));
    assert!(c.increase_by(1, 4321));
    let mut b = BuilderData::new();
    c.write_to(&mut b).unwrap();
    let mut s = SliceData::load_cell(b.into_cell());
    let back = Counters::read_from(&mut s).unwrap();
    assert_eq!(back, c);
    assert_eq!(s.bits_remaining(), 0);
}

#[test]
fn creator_stats_round_trip_and_tag() {
    assert_eq!(CreatorStats::tag(), 4);
    assert_eq!(CreatorStats::tag_len_bits(), 4);
    let mut mc = Counters::default();
    assert!(mc.increase_by(11, 500));
    let mut sh = Counters::default();
    assert!(sh.increase_by(22, 600));
    let st = CreatorStats { mc_blocks: mc, shard_blocks: sh };
    assert_eq!(*st.mc_blocks(), mc);
    assert_eq!(*st.shard_blocks(), sh);
    let mut b = BuilderData::new();
    st.write_to(&mut b).unwrap();
    let mut s = SliceData::load_cell(b.into_cell());
    let back = CreatorStats::read_from(&mut s).unwrap();
    assert_eq!(back, st);
}

#[test]
fn creator_stats_rejects_wrong_tag() {
    let mut b = BuilderData::new();
    b.append_bits(7, 4);
    b.append_bits(0, 60);
    let mut s = SliceData::load_cell(b.into_cell());
    assert_eq!(
        CreatorStats::read_from(&mut s).unwrap_err(),
        BlockError::InvalidConstructorTag { t: 7 }
    );
}

#[test]
fn block_create_stats_round_trip() {
    assert_eq!(BlockCreateStats::tag(), 0x17);
    assert_eq!(BlockCreateStats::tag_len_bits(), 8);
    let mut counters = BlockCounters::default();
    let mut c1 = Counters::default();
    assert!(c1.increase_by(3, 10));
    counters.push(
        UInt256::with_words(1, 2, 3, 4),
        CreatorStats { mc_blocks: c1, shard_blocks: Counters::default() },
    );
    let stats = BlockCreateStats { counters };
    let mut b = BuilderData::new();
    stats.write_to(&mut b).unwrap();
    let mut s = SliceData::load_cell(b.into_cell());
    let back = BlockCreateStats::read_from(&mut s).unwrap();
    assert_eq!(back.counters.entries().len(), 1);
    assert_eq!(back.counters.entries()[0].0, UInt256::with_words(1, 2, 3, 4));
    assert_eq!(back.counters.entries()[0].1.mc_blocks, c1);
    let found = back.counters.get(&UInt256::with_words(1, 2, 3, 4)).unwrap();
    assert_eq!(found.mc_blocks.total(), 3);
}
