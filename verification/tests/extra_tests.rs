//! Block and state extension behaviour: fee totals, referenced shard
//! blocks, libraries, and the whole-record wire round trips.

use mc_state::cells::{BuilderData, SliceData};
use mc_state::counters::{BlockCounters, BlockCreateStats, Counters, CreatorStats};
use mc_state::descr::{FutureSplitMerge, ShardDescr};
use mc_state::error::BlockError;
use mc_state::extra::{
    ConfigParams, CryptoSignaturePair, LibDescr, McBlockExtra, McStateExtra, RefShardBlocks,
    ShardBlockRef, ShardFeeCreated, ShardFees, ValidatorInfo,
};
use mc_state::keyblocks::{KeyExtBlkRef, OldMcBlocksInfo};
use mc_state::shard::ShardIdent;
use mc_state::topology::ShardHashes;
use mc_state::types::{BlockIdExt, CurrencyCollection, ExtBlkRef, UInt256};

fn h(a: u64) -> UInt256 {
    UInt256::with_words(a, a + 1, a + 2, a + 3)
}

fn zero_hash() -> UInt256 {
    UInt256::with_words(0, 0, 0, 0)
}

#[test]
fn shard_fees_accumulate() {
    let mut fees = ShardFees::default();
    let shard = ShardIdent::full(0);
    fees.store_shard_fees(
        &shard,
        CurrencyCollection::with_grams(10),
        CurrencyCollection::with_grams(20),
    )
    .unwrap();
    let (left, _) = shard.split().unwrap();
    fees.store_shard_fees(
        &left,
        CurrencyCollection::with_grams(1),
        CurrencyCollection::with_grams(2),
    )
    .unwrap();
    assert_eq!(fees.root_extra().fees.grams, 11);
    assert_eq!(fees.root_extra().create.grams, 22);
    assert_eq!(fees.entries().len(), 2);

    let mut extra = McBlockExtra::default();
    *extra.fees_mut() = fees;
    assert_eq!(extra.total_fee().grams, 11);
    assert_eq!(extra.fee(&shard).unwrap().unwrap().grams, 10);
    assert!(extra.fee(&ShardIdent::full(9)).unwrap().is_none());
}

#[test]
fn shard_fees_replace_same_shard() {
    let mut fees = ShardFees::default();
    let shard = ShardIdent::full(0);
    fees.store_shard_fees(
        &shard,
        CurrencyCollection::with_grams(10),
        CurrencyCollection::with_grams(20),
    )
    .unwrap();
    fees.store_shard_fees(
        &shard,
        CurrencyCollection::with_grams(7),
        CurrencyCollection::with_grams(3),
    )
    .unwrap();
    assert_eq!(fees.entries().len(), 1);
    assert_eq!(fees.root_extra().fees.grams, 7);
    assert_eq!(fees.root_extra().create.grams, 3);

    let mut extra = McBlockExtra::default();
    *extra.fees_mut() = fees;
    assert_eq!(extra.fee(&shard).unwrap().unwrap().grams, 7);
}

#[test]
fn mc_block_extra_round_trip_plain() {
    let mut extra = McBlockExtra::default();
    extra
        .shards_mut()
        .add_workchain(0, 1, zero_hash(), zero_hash(), None)
        .unwrap();
    extra.prev_blk_signatures_mut().push(
        4,
        CryptoSignaturePair { node_id_short: h(1), sign_r: h(2), sign_s: h(3) },
    );
    let mut msg = BuilderData::new();
    msg.append_bits(0x77, 8);
    extra.write_mint_msg(Some(&msg.into_cell())).unwrap();

    let mut b = BuilderData::new();
    extra.write_to(&mut b).unwrap();
    let mut s = SliceData::load_cell(b.into_cell());
    let back = McBlockExtra::read_from(&mut s).unwrap();
    assert!(!back.is_key_block());
    assert_eq!(back.serde_opts(), 0);
    assert_eq!(back.prev_blk_signatures().entries().len(), 1);
    assert_eq!(back.prev_blk_signatures().entries()[0].0, 4);
    assert!(back.read_recover_create_msg().unwrap().is_none());
    let mint = back.read_mint_msg().unwrap().unwrap();
    let mut ms = SliceData::load_cell(mint);
    assert_eq!(ms.get_next_int(8).unwrap(), 0x77);
    assert!(back.hashes().has_workchain(0).unwrap());
    assert!(back.mint_msg_cell().is_some());
    assert!(back.recover_create_msg_cell().is_none());
    assert!(back.mesh_descr().is_empty());
    assert!(back.validators_stat().is_empty());
}

#[test]
fn mc_block_extra_round_trip_key_block_and_copyleft() {
    let mut extra = McBlockExtra::default();
    let mut params = BuilderData::new();
    params.append_bits(0xAA, 8);
    extra.set_config(ConfigParams { config_addr: h(5), params: params.into_cell() });
    assert!(extra.is_key_block());
    assert!(extra.config().is_some());

    let mut m1 = BuilderData::new();
    m1.append_bits(0x11, 8);
    let mut m2 = BuilderData::new();
    m2.append_bits(0x22, 8);
    extra
        .write_copyleft_msgs(&vec![m1.into_cell(), m2.into_cell()])
        .unwrap();

    let mut b = BuilderData::new();
    extra.write_to(&mut b).unwrap();
    let mut s = SliceData::load_cell(b.into_cell());
    let back = McBlockExtra::read_from(&mut s).unwrap();
    assert!(back.is_key_block());
    assert_eq!(back.config().unwrap().config_addr, h(5));
    let msgs = back.read_copyleft_msgs().unwrap();
    assert_eq!(msgs.len(), 2);
    let mut ms = SliceData::load_cell(msgs[1].clone());
    assert_eq!(ms.get_next_int(8).unwrap(), 0x22);
}

#[test]
fn mc_block_extra_refuses_copyleft_with_common_messages() {
    let mut extra = McBlockExtra::with_common_message_support();
    assert_eq!(extra.serde_opts(), mc_state::descr::SERDE_OPTS_COMMON_MESSAGE);
    let mut m = BuilderData::new();
    m.append_bits(0x33, 8);
    extra.write_copyleft_msgs(&vec![m.into_cell()]).unwrap();
    let mut b = BuilderData::new();
    assert_eq!(
        extra
            .write_with_opts(&mut b, mc_state::descr::SERDE_OPTS_COMMON_MESSAGE)
            .unwrap_err(),
        BlockError::UnsupportedCombination
    );
}

fn sample_state() -> McStateExtra {
    let mut shards = ShardHashes::new();
    shards.add_workchain(0, 1, zero_hash(), zero_hash(), None).unwrap();
    let mut prev_blocks = OldMcBlocksInfo::new();
    prev_blocks.set(
        3,
        KeyExtBlkRef {
            key: true,
            blk_ref: ExtBlkRef { end_lt: 30, seq_no: 3, root_hash: h(3), file_hash: h(4) },
        },
    );
    let mut params = BuilderData::new();
    params.append_bits(0xBB, 8);
    McStateExtra {
        shards,
        mesh: mc_state::extra::MeshHashes::default(),
        config: ConfigParams { config_addr: h(7), params: params.into_cell() },
        validator_info: ValidatorInfo {
            validator_list_hash_short: 8,
            catchain_seqno: 9,
            nx_cc_updated: false,
        },
        prev_blocks,
        after_key_block: true,
        last_key_block: Some(ExtBlkRef {
            end_lt: 30,
            seq_no: 3,
            root_hash: h(3),
            file_hash: h(4),
        }),
        block_create_stats: None,
        global_balance: CurrencyCollection::with_grams(12345),
        state_copyleft_rewards: mc_state::descr::CopyleftRewards::default(),
        validators_stat: mc_state::descr::ValidatorsStat::default(),
    }
}

#[test]
fn mc_state_extra_round_trip() {
    let state = sample_state();
    let mut b = BuilderData::new();
    state.write_to(&mut b).unwrap();
    let mut s = SliceData::load_cell(b.into_cell());
    let back = McStateExtra::read_from(&mut s).unwrap();
    assert!(back.after_key_block);
    assert_eq!(back.last_key_block.unwrap().seq_no, 3);
    assert_eq!(back.global_balance.grams, 12345);
    assert_eq!(back.config().config_addr, h(7));
    assert_eq!(back.validator_info.catchain_seqno, 9);
    assert!(back.shards().has_workchain(0).unwrap());
    assert_eq!(
        back.prev_blocks.get_prev_key_block(10).unwrap().unwrap().seq_no,
        3
    );
    assert!(back.block_create_stats.is_none());
}

#[test]
fn mc_state_extra_round_trip_with_stats() {
    let mut state = sample_state();
    let mut counters = BlockCounters::default();
    let mut c = Counters::default();
    assert!(c.increase_by(2, 5));
    counters.push(h(9), CreatorStats { mc_blocks: c, shard_blocks: Counters::default() });
    state.block_create_stats = Some(BlockCreateStats { counters });
    let mut b = BuilderData::new();
    state.write_to(&mut b).unwrap();
    let mut s = SliceData::load_cell(b.into_cell());
    let back = McStateExtra::read_from(&mut s).unwrap();
    let stats = back.block_create_stats.unwrap();
    assert_eq!(stats.counters.entries().len(), 1);
    assert_eq!(stats.counters.entries()[0].1.mc_blocks.total(), 2);
}

#[test]
fn mc_state_extra_refuses_copyleft_with_validator_stats() {
    let mut state = sample_state();
    state.state_copyleft_rewards.push(h(1), 1);
    state.validators_stat.push(1, 1);
    let mut b = BuilderData::new();
    assert_eq!(state.write_to(&mut b).unwrap_err(), BlockError::UnsupportedCombination);
}

#[test]
fn mc_state_extra_add_workchain_and_shard_lookups() {
    let mut state = sample_state();
    let d = ShardDescr::with_params(6, 70, 80, h(2), FutureSplitMerge::Unset);
    let id = state.add_workchain(4, &d).unwrap();
    assert_eq!(id.workchain_id(), 4);
    assert!(id.is_full());
    assert_eq!(state.shard_seq_no(&id).unwrap(), Some(6));
    assert_eq!(state.shard_lt(&id).unwrap(), Some(70));
    assert_eq!(state.shard_hash(&id).unwrap(), Some(h(2)));
    assert!(state.shard_seq_no(&ShardIdent::full(9)).unwrap().is_none());
}

#[test]
fn ref_shard_blocks_build_and_lookup() {
    let full = ShardIdent::full(0);
    let (left, right) = full.split().unwrap();
    let ids = vec![
        (BlockIdExt::with_params(left, 10, h(10), h(11)), 100u64),
        (BlockIdExt::with_params(right, 20, h(20), h(21)), 200u64),
        (BlockIdExt::with_params(ShardIdent::full(3), 30, h(30), h(31)), 300u64),
    ];
    let refs = RefShardBlocks::with_ids(&ids).unwrap();
    let rl = refs.ref_shard_block(&left).unwrap().unwrap();
    assert_eq!(rl.seq_no, 10);
    assert_eq!(rl.end_lt, 100);
    let rr = refs.ref_shard_block(&right).unwrap().unwrap();
    assert_eq!(rr.seq_no, 20);
    let r3 = refs.ref_shard_block(&ShardIdent::full(3)).unwrap().unwrap();
    assert_eq!(r3.seq_no, 30);
    assert!(refs.ref_shard_block(&full).unwrap().is_none());

    let all = refs.iterate_shard_block_refs().unwrap();
    assert_eq!(all.len(), 3);
    let id = rl.into_block_id(left).unwrap();
    assert_eq!(id.seq_no, 10);
    assert_eq!(id.root_hash, h(10));
    let made = ShardBlockRef::with_params(&BlockIdExt::with_params(left, 1, h(1), h(2)), 9);
    assert_eq!(made.end_lt, 9);

    // a leaf created only to complete the partition holds the zero reference
    let partial = vec![(BlockIdExt::with_params(left, 10, h(10), h(11)), 100u64)];
    let refs2 = RefShardBlocks::with_ids(&partial).unwrap();
    let sibling = refs2.ref_shard_block(&right).unwrap().unwrap();
    assert_eq!(sibling.seq_no, 0);
    assert_eq!(sibling.end_lt, 0);
    assert_eq!(sibling.root_hash, zero_hash());
    assert_eq!(sibling.file_hash, zero_hash());
}

#[test]
fn lib_descr_tracks_publishers() {
    let mut code = BuilderData::new();
    code.append_bits(0xF0, 8);
    let lib = LibDescr::new(code.into_cell());
    assert!(lib.publishers().is_empty());

    let mut code = BuilderData::new();
    code.append_bits(0xF1, 8);
    let mut lib = LibDescr::from_lib_data_by_publisher(code.into_cell(), h(50));
    assert_eq!(lib.publishers().entries().len(), 1);
    lib.publishers_mut().set(h(51));
    assert_eq!(lib.publishers().entries().len(), 2);
    let mut s = SliceData::load_cell(lib.lib().clone());
    assert_eq!(s.get_next_int(8).unwrap(), 0xF1);
}

#[test]
fn shard_fee_created_with_fee() {
    let f = ShardFeeCreated::with_fee(CurrencyCollection::with_grams(77));
    assert_eq!(f.fees.grams, 77);
    assert_eq!(f.create.grams, 0);
    let mut a = f;
    a.calc(&f).unwrap();
    assert_eq!(a.fees.grams, 154);
}
