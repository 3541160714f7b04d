//! Key-block index behaviour: the pruned nearest-key-block queries match a
//! brute-force scan, and block checks fail naming the first mismatch.

use mc_state::error::BlockError;
use mc_state::keyblocks::{KeyExtBlkRef, OldMcBlocksInfo};
use mc_state::shard::ShardIdent;
use mc_state::types::{BlockIdExt, ExtBlkRef, UInt256};

fn h(a: u64) -> UInt256 {
    UInt256::with_words(a, a, a, a)
}

fn entry(seq_no: u32, key: bool) -> KeyExtBlkRef {
    KeyExtBlkRef {
        key,
        blk_ref: ExtBlkRef {
            end_lt: seq_no as u64 * 10,
            seq_no,
            root_hash: h(seq_no as u64),
            file_hash: h(seq_no as u64 + 1),
        },
    }
}

#[test]
fn prev_next_match_brute_force() {
    // a deterministically scrambled set of entries, key blocks marked
    let mut index = OldMcBlocksInfo::new();
    let mut entries: Vec<(u32, bool)> = Vec::new();
    let mut x: u64 = 12345;
    for _ in 0..40 {
        x = x.wrapping_mul(6364136223846793005).wrapping_add(1442695040888963407);
        let seq = (x >> 33) as u32 % 1000;
        let key = (x >> 7) % 3 == 0;
        entries.push((seq, key));
        index.set(seq, entry(seq, key));
    }
    // later entries with the same sequence number replace earlier ones
    let mut last: std::collections::BTreeMap<u32, bool> = std::collections::BTreeMap::new();
    for (seq, key) in &entries {
        last.insert(*seq, *key);
    }

    for req in 0..1100u32 {
        let brute_prev = last.iter().filter(|(s, k)| **s <= req && **k).map(|(s, _)| *s).max();
        let brute_next = last.iter().filter(|(s, k)| **s >= req && **k).map(|(s, _)| *s).min();
        let got_prev = index.get_prev_key_block(req).unwrap().map(|b| b.seq_no);
        let got_next = index.get_next_key_block(req).unwrap().map(|b| b.seq_no);
        assert_eq!(got_prev, brute_prev, "prev at {}", req);
        assert_eq!(got_next, brute_next, "next at {}", req);
    }
}

#[test]
fn prev_next_on_empty_and_bounds() {
    let index = OldMcBlocksInfo::new();
    assert!(index.get_prev_key_block(0).unwrap().is_none());
    assert!(index.get_next_key_block(u32::MAX).unwrap().is_none());

    let mut index = OldMcBlocksInfo::new();
    index.set(100, entry(100, true));
    index.set(200, entry(200, false));
    // below the minimum key block
    assert!(index.get_prev_key_block(99).unwrap().is_none());
    // a non-key entry is never an answer
    assert!(index.get_next_key_block(101).unwrap().is_none());
    assert_eq!(index.get_prev_key_block(500).unwrap().unwrap().seq_no, 100);
    assert_eq!(index.get_next_key_block(0).unwrap().unwrap().seq_no, 100);
    assert_eq!(index.get_prev_key_block(100).unwrap().unwrap().seq_no, 100);
    assert_eq!(index.get_next_key_block(100).unwrap().unwrap().seq_no, 100);
}

#[test]
fn check_key_block_names_first_mismatch() {
    let mut index = OldMcBlocksInfo::new();
    index.set(5, entry(5, true));

    let good = BlockIdExt::with_params(ShardIdent::masterchain(), 5, h(5), h(6));
    assert!(index.check_block(&good).is_ok());
    assert!(index.check_key_block(&good, Some(true)).is_ok());
    assert_eq!(
        index.check_key_block(&good, Some(false)).unwrap_err(),
        BlockError::KeyFlagMismatch
    );

    let not_mc = BlockIdExt::with_params(ShardIdent::full(0), 5, h(5), h(6));
    assert_eq!(index.check_block(&not_mc).unwrap_err(), BlockError::InvalidData);

    let missing = BlockIdExt::with_params(ShardIdent::masterchain(), 6, h(5), h(6));
    assert_eq!(
        index.check_block(&missing).unwrap_err(),
        BlockError::BlockNotFound { seq_no: 6 }
    );

    let bad_root = BlockIdExt::with_params(ShardIdent::masterchain(), 5, h(9), h(6));
    assert_eq!(index.check_block(&bad_root).unwrap_err(), BlockError::RootHashMismatch);

    let bad_file = BlockIdExt::with_params(ShardIdent::masterchain(), 5, h(5), h(9));
    assert_eq!(index.check_block(&bad_file).unwrap_err(), BlockError::FileHashMismatch);
}

#[test]
fn master_block_id_unpacks() {
    let e = entry(9, true);
    let (lt, id, key) = e.master_block_id();
    assert_eq!(lt, 90);
    assert_eq!(id.seq_no, 9);
    assert!(id.shard().is_masterchain());
    assert!(key);
    assert!(e.key());
    assert_eq!(e.blk_ref().seq_no, 9);
    assert_eq!(e.aug().unwrap().max_end_lt, 90);
}
