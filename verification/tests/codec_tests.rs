//! Wire round trips: every structure with a defined format encodes and
//! decodes back to itself, across every tag generation.

use mc_state::cells::{BuilderData, Cell, SliceData};
use mc_state::descr::{
    CollatorRange, ConnectedNwDescr, ConnectedNwDescrExt, ConnectedNwOutDescr, CopyleftRewards,
    FutureSplitMerge, HashUpdate, Mempool, MeshOutDescr, MsgPackId, MsgPackProcessingInfo,
    ProofChain, ShardCollators, ShardDescr, ValidatorsStat, SERDE_OPTS_MEMPOOL_NODES,
};
use mc_state::error::BlockError;
use mc_state::extra::{BlkMasterInfo, CryptoSignaturePair, ShardBlockRef, ShardFeeCreated, ValidatorInfo};
use mc_state::keyblocks::{KeyExtBlkRef, KeyMaxLt};
use mc_state::shard::ShardIdentFull;
use mc_state::types::{CurrencyCollection, ExtBlkRef, UInt256};

fn h(a: u64) -> UInt256 {
    UInt256::with_words(a, a.wrapping_mul(3), a ^ 0xDEAD, a.rotate_left(17))
}

fn cell_of(b: BuilderData) -> SliceData {
    SliceData::load_cell(b.into_cell())
}

#[test]
fn uint256_round_trip() {
    let x = h(77);
    let mut b = BuilderData::new();
    x.write_to(&mut b).unwrap();
    let mut s = cell_of(b);
    assert_eq!(UInt256::read_from(&mut s).unwrap(), x);
    assert_eq!(s.bits_remaining(), 0);
}

#[test]
fn currency_round_trip_and_add() {
    for grams in [0u64, 1, 255, 256, 0xFFFF_FFFF_FFFF_FFFF] {
        let x = CurrencyCollection::with_grams(grams);
        let mut b = BuilderData::new();
        x.write_to(&mut b).unwrap();
        let mut s = cell_of(b);
        assert_eq!(CurrencyCollection::read_from(&mut s).unwrap(), x);
        assert_eq!(s.bits_remaining(), 0);
    }
    let mut a = CurrencyCollection::with_grams(7);
    assert!(a.calc(&CurrencyCollection::with_grams(5)).is_ok());
    assert_eq!(a.grams, 12);
    let mut m = CurrencyCollection::with_grams(u64::MAX);
    assert_eq!(
        m.calc(&CurrencyCollection::with_grams(1)).unwrap_err(),
        BlockError::IntOverflow
    );
    assert_eq!(m.grams, u64::MAX);
}

#[test]
fn ext_blk_ref_round_trip() {
    let x = ExtBlkRef { end_lt: 987654321, seq_no: 424242, root_hash: h(1), file_hash: h(2) };
    let mut b = BuilderData::new();
    x.write_to(&mut b).unwrap();
    let mut s = cell_of(b);
    assert_eq!(ExtBlkRef::read_from(&mut s).unwrap(), x);
}

#[test]
fn key_types_round_trip() {
    let k = KeyMaxLt { key: true, max_end_lt: 5555 };
    let mut b = BuilderData::new();
    k.write_to(&mut b).unwrap();
    let mut s = cell_of(b);
    assert_eq!(KeyMaxLt::read_from(&mut s).unwrap(), k);

    let e = KeyExtBlkRef {
        key: true,
        blk_ref: ExtBlkRef { end_lt: 10, seq_no: 20, root_hash: h(3), file_hash: h(4) },
    };
    let mut b = BuilderData::new();
    e.write_to(&mut b).unwrap();
    let mut s = cell_of(b);
    assert_eq!(KeyExtBlkRef::read_from(&mut s).unwrap(), e);
}

#[test]
fn future_split_merge_round_trip() {
    for x in [
        FutureSplitMerge::Unset,
        FutureSplitMerge::Split { split_utime: 17, interval: 90 },
        FutureSplitMerge::Merge { merge_utime: 400, interval: 3 },
    ] {
        let mut b = BuilderData::new();
        x.write_to(&mut b).unwrap();
        let mut s = cell_of(b);
        assert_eq!(FutureSplitMerge::read_from(&mut s).unwrap(), x);
        assert_eq!(s.bits_remaining(), 0);
    }
}

#[test]
fn collator_range_round_trip_both_modes() {
    let mut mp = Mempool::new();
    mp.push(4);
    mp.push(9);
    mp.push(1);
    let x = CollatorRange { collator: 7, mempool: mp, start: 100, finish: 200 };
    // the extended mode keeps the mempool list
    let mut b = BuilderData::new();
    x.write_with_opts(&mut b, SERDE_OPTS_MEMPOOL_NODES).unwrap();
    let mut s = cell_of(b);
    let back = CollatorRange::construct_from_with_opts(&mut s, SERDE_OPTS_MEMPOOL_NODES).unwrap();
    assert_eq!(back.collator, 7);
    assert_eq!(back.start, 100);
    assert_eq!(back.finish, 200);
    assert_eq!(back.mempool_nodes(), vec![4, 9, 1]);
    assert_eq!(back.range(), 100..200);
    // the plain mode drops it
    let mut b = BuilderData::new();
    x.write_to(&mut b).unwrap();
    let mut s = cell_of(b);
    let back = CollatorRange::construct_from(&mut s).unwrap();
    assert_eq!(back.collator, 7);
    assert_eq!(back.mempool_nodes(), Vec::<u16>::new());
}

#[test]
fn collator_range_rejects_long_mempool() {
    let mut mp = Mempool::new();
    for i in 0..10u16 {
        mp.push(i);
    }
    let x = CollatorRange { collator: 1, mempool: mp, start: 0, finish: 1 };
    let mut b = BuilderData::new();
    assert_eq!(x.write_to(&mut b).unwrap_err(), BlockError::TooManyMempoolNodes);
}

#[test]
fn shard_collators_round_trip_both_tags() {
    let mk = |c: u16| CollatorRange {
        collator: c,
        mempool: Mempool::new(),
        start: c as u32,
        finish: c as u32 + 10,
    };
    // tag 1: no statistics
    let x = ShardCollators {
        prev: mk(1),
        prev2: None,
        current: mk(2),
        next: mk(3),
        next2: Some(mk(4)),
        updated_at: 999,
        stat: ValidatorsStat::default(),
    };
    let mut b = BuilderData::new();
    x.write_to(&mut b).unwrap();
    let mut s = cell_of(b);
    let back = ShardCollators::construct_from(&mut s).unwrap();
    assert_eq!(back.current.collator, 2);
    assert!(back.prev2.is_none());
    assert_eq!(back.next2.as_ref().unwrap().collator, 4);
    assert_eq!(back.updated_at, 999);
    assert!(back.stat.is_empty());
    // tag 2: statistics present, mempool lists kept
    let mut mp = Mempool::new();
    mp.push(8);
    let mut stat = ValidatorsStat::default();
    stat.push(5, 77);
    let x = ShardCollators {
        prev: CollatorRange { collator: 9, mempool: mp, start: 1, finish: 2 },
        prev2: Some(mk(6)),
        current: mk(2),
        next: mk(3),
        next2: None,
        updated_at: 1000,
        stat,
    };
    let mut b = BuilderData::new();
    x.write_to(&mut b).unwrap();
    let mut s = cell_of(b);
    let back = ShardCollators::construct_from(&mut s).unwrap();
    assert_eq!(back.prev.mempool_nodes(), vec![8]);
    assert_eq!(back.stat.entries()[0], (5, 77));
    assert_eq!(back.prev2.as_ref().unwrap().collator, 6);
}

#[test]
fn connected_nw_round_trips() {
    let hu = HashUpdate { old_hash: h(10), new_hash: h(11) };
    let mut b = BuilderData::new();
    hu.write_to(&mut b).unwrap();
    let mut s = cell_of(b);
    assert_eq!(HashUpdate::read_from(&mut s).unwrap(), hu);

    let out = ConnectedNwOutDescr { out_queue_update: hu, exported: 123456 };
    let mut b = BuilderData::new();
    out.write_to(&mut b).unwrap();
    let mut s = cell_of(b);
    assert_eq!(ConnectedNwOutDescr::read_from(&mut s).unwrap(), out);

    let d = ConnectedNwDescr {
        seq_no: 5,
        root_hash: h(12),
        file_hash: h(13),
        imported: 999,
        gen_utime: 1111,
    };
    let mut b = BuilderData::new();
    d.write_to(&mut b).unwrap();
    let mut s = cell_of(b);
    assert_eq!(ConnectedNwDescr::read_from(&mut s).unwrap(), d);

    let ext = ConnectedNwDescrExt { queue_descr: out, descr: Some(d) };
    let mut b = BuilderData::new();
    ext.write_to(&mut b).unwrap();
    let mut s = cell_of(b);
    assert_eq!(ConnectedNwDescrExt::read_from(&mut s).unwrap(), ext);
}

#[test]
fn msg_pack_info_round_trip() {
    let x = MsgPackProcessingInfo {
        round: 3141592,
        last_id: MsgPackId { workchain_id: -1, seq_no: 88, hash: h(20) },
        last_partially_included: Some(h(21)),
    };
    let mut b = BuilderData::new();
    x.write_to(&mut b).unwrap();
    let mut s = cell_of(b);
    assert_eq!(MsgPackProcessingInfo::read_from(&mut s).unwrap(), x);
}

#[test]
fn misc_round_trips() {
    let x = ShardBlockRef { seq_no: 6, root_hash: h(30), file_hash: h(31), end_lt: 777 };
    let mut b = BuilderData::new();
    x.write_to(&mut b).unwrap();
    let mut s = cell_of(b);
    assert_eq!(ShardBlockRef::construct_from(&mut s).unwrap(), x);

    let m = BlkMasterInfo {
        master: ExtBlkRef { end_lt: 1, seq_no: 2, root_hash: h(32), file_hash: h(33) },
    };
    let mut b = BuilderData::new();
    m.write_to(&mut b).unwrap();
    let mut s = cell_of(b);
    assert_eq!(BlkMasterInfo::read_from(&mut s).unwrap(), m);

    let p = CryptoSignaturePair { node_id_short: h(40), sign_r: h(41), sign_s: h(42) };
    let mut b = BuilderData::new();
    p.write_to(&mut b).unwrap();
    let mut s = cell_of(b);
    assert_eq!(CryptoSignaturePair::read_from(&mut s).unwrap(), p);

    let v = ValidatorInfo { validator_list_hash_short: 1, catchain_seqno: 2, nx_cc_updated: true };
    let mut b = BuilderData::new();
    v.write_to(&mut b).unwrap();
    let mut s = cell_of(b);
    assert_eq!(ValidatorInfo::read_from(&mut s).unwrap(), v);
}

fn base_descr() -> ShardDescr {
    let mut d = ShardDescr::with_params(
        7,
        100,
        200,
        h(50),
        FutureSplitMerge::Split { split_utime: 9, interval: 11 },
    );
    d.reg_mc_seqno = 3;
    d.file_hash = h(51);
    d.before_split = true;
    d.want_merge = true;
    d.next_catchain_seqno = 12;
    d.next_validator_shard = 0x8000_0000_0000_0000;
    d.min_ref_mc_seqno = 4;
    d.gen_utime = 5;
    d.fees_collected = CurrencyCollection::with_grams(1000);
    d.funds_created = CurrencyCollection::with_grams(2000);
    d
}

fn assert_descr_headers_equal(a: &ShardDescr, b: &ShardDescr) {
    assert_eq!(a.seq_no, b.seq_no);
    assert_eq!(a.reg_mc_seqno, b.reg_mc_seqno);
    assert_eq!(a.start_lt, b.start_lt);
    assert_eq!(a.end_lt, b.end_lt);
    assert_eq!(a.root_hash, b.root_hash);
    assert_eq!(a.file_hash, b.file_hash);
    assert_eq!(a.before_split, b.before_split);
    assert_eq!(a.before_merge, b.before_merge);
    assert_eq!(a.want_split, b.want_split);
    assert_eq!(a.want_merge, b.want_merge);
    assert_eq!(a.nx_cc_updated, b.nx_cc_updated);
    assert_eq!(a.next_catchain_seqno, b.next_catchain_seqno);
    assert_eq!(a.next_validator_shard, b.next_validator_shard);
    assert_eq!(a.min_ref_mc_seqno, b.min_ref_mc_seqno);
    assert_eq!(a.gen_utime, b.gen_utime);
    assert_eq!(a.split_merge_at, b.split_merge_at);
    assert_eq!(a.fees_collected, b.fees_collected);
    assert_eq!(a.funds_created, b.funds_created);
}

fn round_trip_descr(d: &ShardDescr) -> ShardDescr {
    let mut b = BuilderData::new();
    d.write_to(&mut b).unwrap();
    let mut s = cell_of(b);
    let back = ShardDescr::read_from(&mut s).unwrap();
    assert_eq!(s.bits_remaining(), 0);
    assert_eq!(s.refs_remaining(), 0);
    assert_descr_headers_equal(&back, d);
    back
}

#[test]
fn shard_descr_round_trip_plain() {
    // the oldest generation: fee child only
    let d = base_descr();
    let back = round_trip_descr(&d);
    assert!(back.copyleft_rewards.is_empty());
    assert!(back.proof_chain.is_none());
    assert!(back.collators.is_none());
    assert!(back.pack_info.is_none());
}

#[test]
fn shard_descr_round_trip_copyleft() {
    let mut d = base_descr();
    d.copyleft_rewards.push(h(60), 12345);
    let back = round_trip_descr(&d);
    assert_eq!(back.copyleft_rewards.entries()[0], (h(60), 12345));
}

#[test]
fn shard_descr_round_trip_proof_chain() {
    let mut d = base_descr();
    let mut cb = BuilderData::new();
    cb.append_bits(0xAB, 8);
    d.proof_chain = Some(ProofChain::with_cells(vec![cb.into_cell()]));
    d.copyleft_rewards.push(h(61), 55);
    let back = round_trip_descr(&d);
    assert_eq!(back.proof_chain.as_ref().unwrap().len(), 1);
    assert_eq!(back.copyleft_rewards.entries()[0], (h(61), 55));
}

#[test]
fn shard_descr_round_trip_collators() {
    let mut d = base_descr();
    let mk = |c: u16| CollatorRange {
        collator: c,
        mempool: Mempool::new(),
        start: 0,
        finish: 5,
    };
    d.collators = Some(ShardCollators {
        prev: mk(1),
        prev2: None,
        current: mk(2),
        next: mk(3),
        next2: None,
        updated_at: 44,
        stat: ValidatorsStat::default(),
    });
    let back = round_trip_descr(&d);
    assert_eq!(back.collators.as_ref().unwrap().current.collator, 2);
}

#[test]
fn shard_descr_round_trip_mesh() {
    let mut d = base_descr();
    let mut mesh = MeshOutDescr::default();
    mesh.push(
        5,
        ConnectedNwOutDescr {
            out_queue_update: HashUpdate { old_hash: h(70), new_hash: h(71) },
            exported: 42,
        },
    );
    d.mesh_msg_queues = mesh;
    let back = round_trip_descr(&d);
    assert_eq!(back.mesh_msg_queues.entries().len(), 1);
    assert_eq!(back.mesh_msg_queues.entries()[0].0, 5);
    assert_eq!(back.mesh_msg_queues.entries()[0].1.exported, 42);
}

#[test]
fn shard_descr_round_trip_pack_info() {
    let mut d = base_descr();
    d.pack_info = Some(MsgPackProcessingInfo {
        round: 1,
        last_id: MsgPackId { workchain_id: 0, seq_no: 2, hash: h(80) },
        last_partially_included: None,
    });
    let back = round_trip_descr(&d);
    assert_eq!(back.pack_info.as_ref().unwrap().round, 1);
}

#[test]
fn shard_descr_rejects_reserved_flags_and_bad_tag() {
    let mut d = base_descr();
    d.flags = 3;
    let mut b = BuilderData::new();
    assert_eq!(d.write_to(&mut b).unwrap_err(), BlockError::InvalidData);

    let mut b = BuilderData::new();
    b.append_bits(0xB, 4);
    b.append_bits(0, 60);
    let mut s = cell_of(b);
    assert_eq!(
        ShardDescr::read_from(&mut s).unwrap_err(),
        BlockError::InvalidConstructorTag { t: 0xB }
    );
}

#[test]
fn shard_descr_rejects_copyleft_with_collators() {
    let mut d = base_descr();
    d.copyleft_rewards.push(h(90), 1);
    d.collators = Some(ShardCollators {
        prev: CollatorRange { collator: 1, mempool: Mempool::new(), start: 0, finish: 1 },
        prev2: None,
        current: CollatorRange { collator: 2, mempool: Mempool::new(), start: 0, finish: 1 },
        next: CollatorRange { collator: 3, mempool: Mempool::new(), start: 0, finish: 1 },
        next2: None,
        updated_at: 0,
        stat: ValidatorsStat::default(),
    });
    let mut b = BuilderData::new();
    assert_eq!(d.write_to(&mut b).unwrap_err(), BlockError::UnsupportedCombination);
}

#[test]
fn copyleft_rewards_and_validators_stat_round_trip() {
    let mut cl = CopyleftRewards::default();
    cl.push(h(100), 10);
    cl.push(h(101), 20);
    let mut b = BuilderData::new();
    cl.write_to(&mut b).unwrap();
    let mut s = cell_of(b);
    let back = CopyleftRewards::read_from(&mut s).unwrap();
    assert!(back.same_entries(&cl));

    let mut st = ValidatorsStat::default();
    st.push(1, 2);
    st.push(3, 4);
    let mut b = BuilderData::new();
    st.write_to(&mut b).unwrap();
    let mut s = cell_of(b);
    let back = ValidatorsStat::read_from(&mut s).unwrap();
    assert_eq!(back.entries().as_slice(), st.entries().as_slice());
}

#[test]
fn shard_fee_created_round_trip() {
    let x = ShardFeeCreated {
        fees: CurrencyCollection::with_grams(5),
        create: CurrencyCollection::with_grams(6),
    };
    let mut b = BuilderData::new();
    x.write_to(&mut b).unwrap();
    let mut s = cell_of(b);
    assert_eq!(ShardFeeCreated::read_from(&mut s).unwrap(), x);
    assert_eq!(x.aug().unwrap(), x);
    let _ = ShardIdentFull::new(0, 0x8000_0000_0000_0000);
}

#[test]
fn var_uint_rejects_non_minimal() {
    // a length byte claiming two bytes for a one-byte value
    let mut b = BuilderData::new();
    b.append_bits(2, 4);
    b.append_bits(5, 16);
    b.append_bit(false);
    let mut s = cell_of(b);
    assert_eq!(
        CurrencyCollection::read_from(&mut s).unwrap_err(),
        BlockError::InvalidData
    );
}

#[test]
fn cell_clone_is_deep() {
    let mut inner = BuilderData::new();
    inner.append_bits(0x5A, 8);
    let mut outer = BuilderData::new();
    outer.append_bit(true);
    outer.append_reference(inner.into_cell());
    let c: Cell = outer.into_cell();
    let d = c.clone();
    let mut s = SliceData::load_cell(d);
    assert!(s.get_next_bit().unwrap());
    let child = s.checked_drain_reference().unwrap();
    let mut cs = SliceData::load_cell(child);
    assert_eq!(cs.get_next_int(8).unwrap(), 0x5A);
}
