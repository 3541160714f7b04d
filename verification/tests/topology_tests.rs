//! Shard topology behaviour: identifier arithmetic, split and merge of the
//! trie, the derived next shard set, neighbour discovery, and the concrete
//! one-workchain scenario.

use mc_state::bintree::BinTree;
use mc_state::descr::{FutureSplitMerge, ShardDescr};
use mc_state::error::BlockError;
use mc_state::shard::{AccountIdPrefixFull, ShardIdent, MASTERCHAIN_ID, SHARD_FULL};
use mc_state::topology::ShardHashes;
use mc_state::types::UInt256;

fn zero_hash() -> UInt256 {
    UInt256::with_words(0, 0, 0, 0)
}

fn descr(seq_no: u32) -> ShardDescr {
    ShardDescr::with_params(seq_no, 0, 0, zero_hash(), FutureSplitMerge::Unset)
}

#[test]
fn shard_ident_arithmetic() {
    let full = ShardIdent::with_workchain_id(0).unwrap();
    assert_eq!(full.workchain_id(), 0);
    assert!(full.is_full());
    assert!(!full.is_masterchain());
    assert_eq!(full.shard_prefix_with_tag(), SHARD_FULL);

    let (l, r) = full.split().unwrap();
    assert_eq!(l.shard_prefix_with_tag(), 0x4000_0000_0000_0000);
    assert_eq!(r.shard_prefix_with_tag(), 0xC000_0000_0000_0000);
    assert_eq!(l.merge().unwrap(), full);
    assert_eq!(r.merge().unwrap(), full);
    assert!(full.is_parent_for(&l));
    assert!(full.is_parent_for(&r));
    assert!(full.is_ancestor_for(&l));
    assert!(full.is_ancestor_for(&full));
    assert!(!l.is_ancestor_for(&r));

    let back = ShardIdent::with_tagged_prefix(0, 0x4000_0000_0000_0000).unwrap();
    assert_eq!(back, l);
    assert_eq!(
        ShardIdent::with_tagged_prefix(0, 0).unwrap_err(),
        BlockError::InvalidArg
    );
    // a terminator below the deepest allowed prefix
    assert_eq!(
        ShardIdent::with_tagged_prefix(0, 1).unwrap_err(),
        BlockError::InvalidArg
    );
    assert_eq!(full.merge().unwrap_err(), BlockError::InvalidArg);

    let mc = ShardIdent::masterchain();
    assert!(mc.is_masterchain());
    assert_eq!(mc.workchain_id(), MASTERCHAIN_ID);
}

#[test]
fn neighbours_of_siblings() {
    let full = ShardIdent::full(0);
    let (l, r) = full.split().unwrap();
    assert!(l.is_neighbor_for(&r));
    assert!(r.is_neighbor_for(&l));
    // a shard is not its own neighbour
    assert!(!l.is_neighbor_for(&l));
    // the masterchain neighbours everything
    assert!(ShardIdent::masterchain().is_neighbor_for(&l));
}

#[test]
fn bintree_split_merge_undo() {
    let t = BinTree::with_item(10u32);
    let key: Vec<bool> = Vec::new();
    let (t2, ok) = t.split(&key, 1, 2);
    assert!(ok);
    assert_eq!(t2.get(&vec![false]), Some(&1));
    assert_eq!(t2.get(&vec![true]), Some(&2));
    assert_eq!(t2.get(&key), None);
    // find stops at the leaf covering the key
    let (prefix, v) = t2.find(&vec![false, true, true]).unwrap();
    assert_eq!(prefix, vec![false]);
    assert_eq!(*v, 1);
    // merging the two fresh children with the original value restores the tree
    let (t3, ok) = t2.merge(&key, 10u32);
    assert!(ok);
    assert_eq!(t3.get(&key), Some(&10));
    // merge of a missing fork changes nothing
    let (t4, ok) = t3.merge(&vec![true], 0u32);
    assert!(!ok);
    assert_eq!(t4.get(&key), Some(&10));
}

#[test]
fn add_workchain_and_lookups() {
    let mut top = ShardHashes::new();
    assert!(!top.has_workchain(0).unwrap());
    top.add_workchain(0, 7, zero_hash(), zero_hash(), None).unwrap();
    assert!(top.has_workchain(0).unwrap());
    assert_eq!(
        top.add_workchain(0, 7, zero_hash(), zero_hash(), None).unwrap_err(),
        BlockError::WorkchainAlreadyAdded { workchain_id: 0 }
    );
    let full = ShardIdent::full(0);
    let rec = top.get_shard(&full).unwrap().unwrap();
    assert_eq!(rec.descr.reg_mc_seqno, 7);
    assert_eq!(rec.descr.next_validator_shard, SHARD_FULL);
    assert_eq!(*rec.shard(), full);
    assert_eq!(rec.block_id().seq_no(), 0);

    // an unregistered workchain
    assert!(top.find_shard(&ShardIdent::full(5)).unwrap().is_none());
    assert_eq!(
        top.split_shard(&ShardIdent::full(5), descr(1), descr(2)).unwrap_err(),
        BlockError::WorkchainNotFound { workchain_id: 5 }
    );
}

#[test]
fn scenario_split_find_neighbours() {
    // workchain 0 starts as one shard covering the full prefix
    let mut top = ShardHashes::new();
    top.add_workchain(0, 0, zero_hash(), zero_hash(), None).unwrap();
    let full = ShardIdent::full(0);
    let (left, right) = full.split().unwrap();

    // split at the full-prefix key into descriptors 1 and 2
    top.split_shard(&full, descr(1), descr(2)).unwrap();

    // each half-prefix now resolves to its own descriptor
    let rl = top.find_shard(&left).unwrap().unwrap();
    assert_eq!(rl.descr.seq_no, 1);
    assert_eq!(*rl.shard(), left);
    let rr = top.find_shard(&right).unwrap().unwrap();
    assert_eq!(rr.descr.seq_no, 2);
    assert_eq!(*rr.shard(), right);

    // the neighbours of one half are exactly the other half
    let n = top.get_neighbours(&left).unwrap();
    assert_eq!(n.len(), 1);
    assert_eq!(*n[0].shard(), right);
    assert_eq!(n[0].descr.seq_no, 2);

    // an address under the left half finds the left shard
    let addr = AccountIdPrefixFull { workchain_id: 0, prefix: 0x1234_0000_0000_0000 };
    let ra = top.find_shard_by_prefix(&addr).unwrap().unwrap();
    assert_eq!(ra.descr.seq_no, 1);

    // splitting at a key with no exact leaf fails naming the shard
    assert_eq!(
        top.split_shard(&full, descr(8), descr(9)).unwrap_err(),
        BlockError::ShardNotFound { workchain_id: 0, prefix: SHARD_FULL }
    );
}

#[test]
fn update_and_merge_shards() {
    let mut top = ShardHashes::new();
    top.add_workchain(0, 0, zero_hash(), zero_hash(), None).unwrap();
    let full = ShardIdent::full(0);
    top.split_shard(&full, descr(1), descr(2)).unwrap();
    let (left, _right) = full.split().unwrap();

    let mut d = descr(5);
    d.want_split = true;
    top.update_shard(&left, d).unwrap();
    assert_eq!(top.get_shard(&left).unwrap().unwrap().descr.seq_no, 5);

    top.merge_shards(&full, descr(3)).unwrap();
    let rec = top.get_shard(&full).unwrap().unwrap();
    assert_eq!(rec.descr.seq_no, 3);
}

#[test]
fn new_shards_after_split_intent() {
    let mut top = ShardHashes::new();
    top.add_workchain(0, 0, zero_hash(), zero_hash(), None).unwrap();
    let full = ShardIdent::full(0);
    let mut d = descr(4);
    d.before_split = true;
    d.root_hash = UInt256::with_words(9, 9, 9, 9);
    top.update_shard(&full, d).unwrap();

    let out = top.get_new_shards().unwrap();
    let (l, r) = full.split().unwrap();
    assert_eq!(out.len(), 2);
    assert_eq!(out[0].0, l);
    assert_eq!(out[1].0, r);
    for (_, ids) in &out {
        assert_eq!(ids.len(), 1);
        assert_eq!(ids[0].shard_id, full);
        assert_eq!(ids[0].seq_no, 4);
        assert_eq!(ids[0].root_hash, UInt256::with_words(9, 9, 9, 9));
    }
}

#[test]
fn new_shards_after_merge_intent() {
    let mut top = ShardHashes::new();
    top.add_workchain(0, 0, zero_hash(), zero_hash(), None).unwrap();
    let full = ShardIdent::full(0);
    let mut dl = descr(1);
    dl.before_merge = true;
    let mut dr = descr(2);
    dr.before_merge = true;
    top.split_shard(&full, dl, dr).unwrap();

    let out = top.get_new_shards().unwrap();
    assert_eq!(out.len(), 1);
    assert_eq!(out[0].0, full);
    assert_eq!(out[0].1.len(), 2);
    assert_eq!(out[0].1[0].seq_no, 1);
    assert_eq!(out[0].1[1].seq_no, 2);
}

#[test]
fn calc_shard_cc_seqno_cases() {
    let mut top = ShardHashes::new();
    top.add_workchain(0, 0, zero_hash(), zero_hash(), None).unwrap();
    let full = ShardIdent::full(0);
    let (left, right) = full.split().unwrap();

    // the masterchain is refused
    assert_eq!(
        top.calc_shard_cc_seqno(&ShardIdent::masterchain()).unwrap_err(),
        BlockError::InvalidData
    );

    // a child of the registered full shard: the ancestor's number unchanged
    let mut d = descr(1);
    d.next_catchain_seqno = 41;
    top.update_shard(&full, d).unwrap();
    assert_eq!(top.calc_shard_cc_seqno(&left).unwrap(), 41);

    // a parent of two registered children: one past the larger number
    let mut dl = descr(1);
    dl.next_catchain_seqno = 10;
    let mut dr = descr(2);
    dr.next_catchain_seqno = 12;
    top.split_shard(&full, dl, dr).unwrap();
    assert_eq!(top.calc_shard_cc_seqno(&full).unwrap(), 13);

    // an unregistered workchain
    assert_eq!(
        top.calc_shard_cc_seqno(&ShardIdent::full(3)).unwrap_err(),
        BlockError::ShardNotFound {
            workchain_id: 3,
            prefix: SHARD_FULL
        }
    );

    // a half of a half when only the halves are registered: the left
    // grandchild's search finds the left half exactly, an ancestor of it
    let (ll, _) = left.split().unwrap();
    assert_eq!(top.calc_shard_cc_seqno(&ll).unwrap(), 10);
}

#[test]
fn iterate_shards_orders_leaves() {
    let mut top = ShardHashes::new();
    top.add_workchain(0, 0, zero_hash(), zero_hash(), None).unwrap();
    top.add_workchain(7, 0, zero_hash(), zero_hash(), None).unwrap();
    let full = ShardIdent::full(0);
    top.split_shard(&full, descr(1), descr(2)).unwrap();

    let items = top.iterate_shards().unwrap();
    assert_eq!(items.len(), 3);
    let (l, r) = full.split().unwrap();
    assert_eq!(items[0].0, l);
    assert_eq!(items[0].1.seq_no, 1);
    assert_eq!(items[1].0, r);
    assert_eq!(items[1].1.seq_no, 2);
    assert_eq!(items[2].0, ShardIdent::full(7));

    let wc0 = top.iterate_shards_for_workchain(0).unwrap();
    assert_eq!(wc0.len(), 2);
    assert_eq!(wc0[0].0, l);
}

#[test]
fn iterate_with_siblings_pairs_right_leaves() {
    let mut top = ShardHashes::new();
    top.add_workchain(0, 0, zero_hash(), zero_hash(), None).unwrap();
    let full = ShardIdent::full(0);
    top.split_shard(&full, descr(1), descr(2)).unwrap();
    let (left, _right) = full.split().unwrap();
    // split the left half again: leaves 00, 01, 1
    top.split_shard(&left, descr(3), descr(4)).unwrap();

    let items = top.iterate_shards_with_siblings().unwrap();
    assert_eq!(items.len(), 3);
    // leaf 00: a left child, no sibling attached
    assert_eq!(items[0].1.seq_no, 3);
    assert!(items[0].2.is_none());
    // leaf 01: right child of a fork of two leaves, carries leaf 00
    assert_eq!(items[1].1.seq_no, 4);
    assert_eq!(items[1].2.as_ref().unwrap().seq_no, 3);
    // leaf 1: right child, but its left sibling is a fork
    assert_eq!(items[2].1.seq_no, 2);
    assert!(items[2].2.is_none());
}
