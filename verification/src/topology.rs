//! The shard topology: one binary trie of shard descriptors per workchain,
//! with split, merge, point update, prefix search and neighbour discovery.

use vstd::prelude::*;

use crate::bintree::{BinTree, split_leaves, merge_leaves, update_leaves};
use crate::cells::CellData;
use crate::descr::{ShardCollators, ShardDescr, ShardDescrV};
use crate::error::BlockError;
use crate::shard::{AccountIdPrefixFull, ShardIdent, SHARD_FULL, MASTERCHAIN_ID, INVALID_WORKCHAIN_ID, MAX_SPLIT_DEPTH};
use crate::types::{BlockIdExt, UInt256};

verus! {

broadcast use vstd::seq::group_seq_axioms;

/// A found shard: its descriptor together with the identifier of its
/// latest block.
#[derive(Debug)]
pub struct McShardRecord {
    pub descr: ShardDescr,
    pub block_id: BlockIdExt,
}

impl McShardRecord {
    /// Packs a shard identifier and descriptor into a record whose block
    /// identifier carries the descriptor's latest block.
    pub fn from_shard_descr(shard: ShardIdent, descr: ShardDescr) -> (r: McShardRecord)
        ensures
            r.descr@ == descr@,
            r.block_id.shard_id == shard,
            r.block_id.seq_no == descr.seq_no,
            r.block_id.root_hash == descr.root_hash,
            r.block_id.file_hash == descr.file_hash,
    {
        let block_id = BlockIdExt::with_params(shard, descr.seq_no, descr.root_hash, descr.file_hash);
        McShardRecord { descr, block_id }
    }

    /// The shard the record describes.
    pub fn shard(&self) -> (r: &ShardIdent)
        ensures
            r == self.block_id.shard_id,
    {
        self.block_id.shard()
    }

    /// The descriptor.
    pub fn descr(&self) -> (r: &ShardDescr)
        ensures
            r == self.descr,
    {
        &self.descr
    }

    /// The latest block's identifier.
    pub fn blk_id(&self) -> (r: &BlockIdExt)
        ensures
            r == self.block_id,
    {
        &self.block_id
    }

    /// The latest block's identifier.
    pub fn block_id(&self) -> (r: &BlockIdExt)
        ensures
            r == self.block_id,
    {
        &self.block_id
    }

    /// Whether the basic part of two records agrees: block identifier,
    /// logical-time range, times and intents, and on request the
    /// registration number and the fee totals.
    pub fn basic_info_equal(&self, other: &McShardRecord, compare_fees: bool, compare_reg_seqno: bool)
        -> (r: bool)
        ensures
            r == (self.block_id == other.block_id && self.descr.start_lt == other.descr.start_lt
                && self.descr.end_lt == other.descr.end_lt && (!compare_reg_seqno
                || self.descr.reg_mc_seqno == other.descr.reg_mc_seqno) && self.descr.gen_utime
                == other.descr.gen_utime && self.descr.min_ref_mc_seqno
                == other.descr.min_ref_mc_seqno && self.descr.before_split
                == other.descr.before_split && self.descr.want_split == other.descr.want_split
                && self.descr.want_merge == other.descr.want_merge && (!compare_fees || (
            self.descr.fees_collected == other.descr.fees_collected && self.descr.funds_created
                == other.descr.funds_created && self.descr.copyleft_rewards@
                == other.descr.copyleft_rewards@))),
    {
        self.block_id == other.block_id && self.descr.start_lt == other.descr.start_lt
            && self.descr.end_lt == other.descr.end_lt && (!compare_reg_seqno
            || self.descr.reg_mc_seqno == other.descr.reg_mc_seqno) && self.descr.gen_utime
            == other.descr.gen_utime && self.descr.min_ref_mc_seqno == other.descr.min_ref_mc_seqno
            && self.descr.before_split == other.descr.before_split && self.descr.want_split
            == other.descr.want_split && self.descr.want_merge == other.descr.want_merge && (
        !compare_fees || (self.descr.fees_collected == other.descr.fees_collected
            && self.descr.funds_created == other.descr.funds_created
            && self.descr.copyleft_rewards.same_entries(&other.descr.copyleft_rewards)))
    }
}

/// The first position holding the given workchain, or `-1`.
pub open spec fn wc_index(s: Seq<(i32, BinTree<ShardDescr>)>, wc: i32) -> int
    decreases s.len(),
{
    if s.len() == 0 {
        -1
    } else if s[0].0 == wc {
        0
    } else {
        let sub = wc_index(s.skip(1), wc);
        if sub == -1 {
            -1
        } else {
            sub + 1
        }
    }
}

/// `wc_index` returns `-1` or the first position carrying the workchain.
pub proof fn lemma_wc_index(s: Seq<(i32, BinTree<ShardDescr>)>, wc: i32)
    ensures
        wc_index(s, wc) == -1 || (0 <= wc_index(s, wc) < s.len() && s[wc_index(s, wc)].0 == wc),
        forall|j: int| 0 <= j < wc_index(s, wc) ==> (#[trigger] s[j]).0 != wc,
        wc_index(s, wc) == -1 ==> forall|j: int| 0 <= j < s.len() ==> (#[trigger] s[j]).0 != wc,
    decreases s.len(),
{
    if s.len() > 0 && s[0].0 != wc {
        lemma_wc_index(s.skip(1), wc);
        assert forall|j: int| 0 <= j < wc_index(s, wc) implies (#[trigger] s[j]).0 != wc by {
            if j > 0 {
                assert(s.skip(1)[j - 1] == s[j]);
            }
        };
        if wc_index(s, wc) == -1 {
            assert forall|j: int| 0 <= j < s.len() implies (#[trigger] s[j]).0 != wc by {
                if j > 0 {
                    assert(s.skip(1)[j - 1] == s[j]);
                }
            };
        }
    }
}

/// The shard topology: for every registered workchain, the binary trie of
/// its shards, in registration order.
#[derive(Debug)]
pub struct ShardHashes {
    entries: Vec<(i32, BinTree<ShardDescr>)>,
}

impl ShardHashes {
    /// The per-workchain tries in registration order.
    pub closed spec fn entries_spec(self) -> Seq<(i32, BinTree<ShardDescr>)> {
        self.entries@
    }

    /// The trie of a workchain, if registered.
    pub open spec fn tree_of(self, wc: i32) -> Option<BinTree<ShardDescr>> {
        let i = wc_index(self.entries_spec(), wc);
        if i >= 0 {
            Some(self.entries_spec()[i].1)
        } else {
            None
        }
    }

    /// An empty topology.
    pub fn new() -> (r: ShardHashes)
        ensures
            r.entries_spec() == Seq::<(i32, BinTree<ShardDescr>)>::empty(),
    {
        ShardHashes { entries: Vec::new() }
    }

    /// Finds the position of a workchain's entry.
    fn find_wc(&self, workchain_id: i32) -> (r: Option<usize>)
        ensures
            match r {
                Some(i) => 0 <= i < self.entries_spec().len() && i == wc_index(
                    self.entries_spec(),
                    workchain_id,
                ),
                None => wc_index(self.entries_spec(), workchain_id) == -1,
            },
    {
        proof {
            lemma_wc_index(self.entries_spec(), workchain_id);
        }
        let mut i: usize = 0;
        while i < self.entries.len()
            invariant
                i <= self.entries@.len(),
                forall|j: int| 0 <= j < i ==> (#[trigger] self.entries@[j]).0 != workchain_id,
            decreases self.entries@.len() - i,
        {
            let (wc, _) = &self.entries[i];
            if *wc == workchain_id {
                proof {
                    Self::lemma_wc_index_at(self.entries@, workchain_id, i as int);
                }
                return Some(i);
            }
            i = i + 1;
        }
        None
    }

    /// A position whose workchain matches, with none before it, is the one
    /// `wc_index` names.
    proof fn lemma_wc_index_at(s: Seq<(i32, BinTree<ShardDescr>)>, wc: i32, i: int)
        requires
            0 <= i < s.len(),
            s[i].0 == wc,
            forall|j: int| 0 <= j < i ==> (#[trigger] s[j]).0 != wc,
        ensures
            wc_index(s, wc) == i,
        decreases s.len(),
    {
        if i > 0 {
            assert(s[0].0 != wc);
            assert forall|j: int| 0 <= j < i - 1 implies (#[trigger] s.skip(1)[j]).0 != wc by {
                assert(s.skip(1)[j] == s[j + 1]);
            };
            assert(s.skip(1)[i - 1] == s[i]);
            Self::lemma_wc_index_at(s.skip(1), wc, i - 1);
        }
    }

    /// Whether a workchain is registered.
    pub fn has_workchain(&self, workchain_id: i32) -> (r: Result<bool, BlockError>)
        ensures
            r == Result::<bool, BlockError>::Ok(self.tree_of(workchain_id) is Some),
    {
        proof {
            lemma_wc_index(self.entries_spec(), workchain_id);
        }
        match self.find_wc(workchain_id) {
            Some(_) => Ok(true),
            None => Ok(false),
        }
    }

    /// Registers a workchain as a single full-prefix shard with a fresh
    /// descriptor; fails exactly when the workchain is already present.
    pub fn add_workchain(
        &mut self,
        workchain_id: i32,
        reg_mc_seqno: u32,
        zerostate_root_hash: UInt256,
        zerostate_file_hash: UInt256,
        collators: Option<ShardCollators>,
    ) -> (r: Result<(), BlockError>)
        ensures
            match r {
                Ok(_) => {
                    &&& old(self).tree_of(workchain_id) is None
                    &&& final(self).entries_spec().len() == old(self).entries_spec().len() + 1
                    &&& forall|j: int|
                        0 <= j < old(self).entries_spec().len()
                            ==> #[trigger] final(self).entries_spec()[j] == old(self).entries_spec()[j]
                    &&& final(self).entries_spec().last().0 == workchain_id
                    &&& ({
                        let t = final(self).entries_spec().last().1;
                        &&& t.leaves().len() == 1
                        &&& t.leaves()[0].0 == Seq::<bool>::empty()
                        &&& t.leaves()[0].1@ == (ShardDescrV {
                            reg_mc_seqno,
                            root_hash: zerostate_root_hash,
                            file_hash: zerostate_file_hash,
                            next_validator_shard: SHARD_FULL,
                            collators: (match collators {
                                Some(c) => Some(c@),
                                None => None,
                            }),
                            ..ShardDescr::default_spec()
                        })
                    })
                },
                Err(e) => {
                    &&& e == BlockError::WorkchainAlreadyAdded { workchain_id }
                    &&& old(self).tree_of(workchain_id) is Some
                    &&& final(self).entries_spec() == old(self).entries_spec()
                },
            },
    {
        proof {
            lemma_wc_index(self.entries_spec(), workchain_id);
        }
        match self.find_wc(workchain_id) {
            Some(_) => Err(BlockError::WorkchainAlreadyAdded { workchain_id }),
            None => {
                let mut descr = ShardDescr::default();
                descr.reg_mc_seqno = reg_mc_seqno;
                descr.root_hash = zerostate_root_hash;
                descr.file_hash = zerostate_file_hash;
                descr.next_validator_shard = SHARD_FULL;
                descr.collators = collators;
                let ghost dv = descr@;
                let tree = BinTree::with_item(descr);
                self.entries.push((workchain_id, tree));
                proof {
                    assert(final(self).entries_spec().last().1.leaves()[0].1@ =~~= (ShardDescrV {
                        reg_mc_seqno,
                        root_hash: zerostate_root_hash,
                        file_hash: zerostate_file_hash,
                        next_validator_shard: SHARD_FULL,
                        collators: (match collators {
                            Some(c) => Some(c@),
                            None => None,
                        }),
                        ..ShardDescr::default_spec()
                    }));
                }
                Ok(())
            },
        }
    }

    /// Stores a workchain as a single full-prefix shard, replacing any
    /// trie already registered for it.
    pub fn put_workchain(&mut self, workchain_id: i32, descr: ShardDescr)
        ensures
            ({
                let i = wc_index(old(self).entries_spec(), workchain_id);
                let t = final(self).entries_spec()[(if i >= 0 {
                    i
                } else {
                    old(self).entries_spec().len() as int
                })];
                &&& t.0 == workchain_id
                &&& t.1.leaves().len() == 1
                &&& t.1.leaves()[0].0 == Seq::<bool>::empty()
                &&& t.1.leaves()[0].1 == descr
                &&& (if i >= 0 {
                    final(self).entries_spec().len() == old(self).entries_spec().len()
                } else {
                    final(self).entries_spec().len() == old(self).entries_spec().len() + 1
                })
                &&& forall|j: int|
                    0 <= j < old(self).entries_spec().len() && j != i
                        ==> #[trigger] final(self).entries_spec()[j] == old(self).entries_spec()[j]
            }),
    {
        let tree = BinTree::with_item(descr);
        match self.find_wc(workchain_id) {
            Some(i) => {
                self.entries.set(i, (workchain_id, tree));
            },
            None => {
                self.entries.push((workchain_id, tree));
            },
        }
    }

    /// Finds the shard whose prefix is the shortest one covering the given
    /// shard key: the shard itself or its ancestor in the trie.
    pub fn find_shard(&self, shard: &ShardIdent) -> (r: Result<Option<McShardRecord>, BlockError>)
        ensures
            match r {
                Ok(res) => match (res, self.tree_of(shard.wc_spec())) {
                    (Some(rec), Some(t)) => {
                        &&& t.find_spec(shard.key_bits()) matches Some((d, v))
                        &&& rec.descr@ == v@
                        &&& rec.block_id.shard_id.wc_spec() == shard.wc_spec()
                        &&& rec.block_id.shard_id.key_bits() == shard.key_bits().take(d)
                        &&& rec.block_id.seq_no == v.seq_no
                        &&& rec.block_id.root_hash == v.root_hash
                        &&& rec.block_id.file_hash == v.file_hash
                    },
                    (None, Some(t)) => t.find_spec(shard.key_bits()) is None,
                    (None, None) => true,
                    _ => false,
                },
                Err(_) => false,
            },
    {
        let key = shard.shard_key();
        let r = self.find_by_key(shard.workchain_id(), &key);
        proof {
            if r is Err {
                match self.tree_of(shard.wc_spec()) {
                    Some(t) => {
                        crate::bintree::lemma_find_spec_depth(t, key@);
                    },
                    None => {},
                }
                assert(false);
            }
        }
        r
    }

    /// Finds the shard covering a full 64-bit account address prefix.
    pub fn find_shard_by_prefix(&self, prefix: &AccountIdPrefixFull) -> (r: Result<
        Option<McShardRecord>,
        BlockError,
    >)
        ensures
            match r {
                Ok(res) => match (res, self.tree_of(prefix.workchain_id)) {
                    (Some(rec), Some(t)) => {
                        &&& t.find_spec(crate::shard::word_prefix(prefix.prefix, 64)) matches Some(
                            (d, v),
                        )
                        &&& rec.descr@ == v@
                        &&& rec.block_id.shard_id.wc_spec() == prefix.workchain_id
                        &&& rec.block_id.shard_id.key_bits() == crate::shard::word_prefix(
                            prefix.prefix,
                            64,
                        ).take(d)
                        &&& rec.block_id.seq_no == v.seq_no
                    },
                    (None, Some(t)) => t.find_spec(crate::shard::word_prefix(prefix.prefix, 64))
                        is None,
                    (None, None) => true,
                    _ => false,
                },
                Err(e) => e == BlockError::InvalidArg,
            },
    {
        let key = prefix.shard_key();
        self.find_by_key(prefix.workchain_id(), &key)
    }

    /// Descends the workchain's trie along a key and packs the found leaf.
    fn find_by_key(&self, workchain_id: i32, key: &Vec<bool>) -> (r: Result<
        Option<McShardRecord>,
        BlockError,
    >)
        ensures
            match r {
                Ok(res) => match (res, self.tree_of(workchain_id)) {
                    (Some(rec), Some(t)) => {
                        &&& t.find_spec(key@) matches Some((d, v))
                        &&& rec.descr@ == v@
                        &&& rec.block_id.shard_id.wc_spec() == workchain_id
                        &&& rec.block_id.shard_id.key_bits() == key@.take(d)
                        &&& rec.block_id.seq_no == v.seq_no
                        &&& rec.block_id.root_hash == v.root_hash
                        &&& rec.block_id.file_hash == v.file_hash
                    },
                    (None, Some(t)) => t.find_spec(key@) is None,
                    (None, None) => true,
                    _ => false,
                },
                Err(e) => e == BlockError::InvalidArg && (self.tree_of(workchain_id) matches Some(
                    t,
                ) && t.find_spec(key@) matches Some((d, v)) && d > MAX_SPLIT_DEPTH),
            },
    {
        let i = match self.find_wc(workchain_id) {
            Some(i) => i,
            None => {
                return Ok(None);
            },
        };
        let (_, tree) = &self.entries[i];
        match tree.find(key) {
            None => Ok(None),
            Some((prefix, descr)) => {
                let ident = match ShardIdent::with_prefix_bits(workchain_id, &prefix) {
                    Ok(ident) => ident,
                    Err(_) => {
                        return Err(BlockError::InvalidArg);
                    },
                };
                Ok(Some(McShardRecord::from_shard_descr(ident, descr.clone())))
            },
        }
    }

    /// Finds the shard stored exactly at the given prefix.
    pub fn get_shard(&self, shard: &ShardIdent) -> (r: Result<Option<McShardRecord>, BlockError>)
        ensures
            match r {
                Ok(res) => match (res, self.tree_of(shard.wc_spec())) {
                    (Some(rec), Some(t)) => {
                        &&& t.get_spec(shard.key_bits()) matches Some(v)
                        &&& rec.descr@ == v@
                        &&& rec.block_id.shard_id == *shard
                        &&& rec.block_id.seq_no == v.seq_no
                        &&& rec.block_id.root_hash == v.root_hash
                        &&& rec.block_id.file_hash == v.file_hash
                    },
                    (None, Some(t)) => t.get_spec(shard.key_bits()) is None,
                    (None, None) => true,
                    _ => false,
                },
                Err(_) => false,
            },
    {
        let i = match self.find_wc(shard.workchain_id()) {
            Some(i) => i,
            None => {
                return Ok(None);
            },
        };
        let key = shard.shard_key();
        let (_, tree) = &self.entries[i];
        match tree.get(&key) {
            None => Ok(None),
            Some(descr) => Ok(Some(McShardRecord::from_shard_descr(*shard, descr.clone()))),
        }
    }

    /// Replaces the leaf exactly at the given shard by a fork of the two
    /// given descriptors. Fails naming the workchain when it is missing and
    /// the shard when no leaf sits exactly there.
    pub fn split_shard(&mut self, splitted_shard: &ShardIdent, left: ShardDescr, right: ShardDescr)
        -> (r: Result<(), BlockError>)
        ensures
            ({
                let wc = splitted_shard.wc_spec();
                let i = wc_index(old(self).entries_spec(), wc);
                match r {
                    Ok(_) => {
                        &&& i >= 0
                        &&& old(self).entries_spec()[i].1.get_spec(splitted_shard.key_bits())
                            is Some
                        &&& final(self).entries_spec().len() == old(self).entries_spec().len()
                        &&& forall|j: int|
                            0 <= j < old(self).entries_spec().len() && j != i
                                ==> #[trigger] final(self).entries_spec()[j]
                                == old(self).entries_spec()[j]
                        &&& final(self).entries_spec()[i].0 == wc
                        &&& final(self).entries_spec()[i].1.leaves() == split_leaves(
                            old(self).entries_spec()[i].1.leaves(),
                            splitted_shard.key_bits(),
                            left,
                            right,
                        )
                        &&& final(self).entries_spec()[i].1.pair_at(splitted_shard.key_bits())
                            == Some((left, right))
                    },
                    Err(e) => {
                        &&& (if i < 0 {
                            e == (BlockError::WorkchainNotFound { workchain_id: wc })
                                && final(self).entries_spec() == old(self).entries_spec()
                        } else {
                            &&& e == (BlockError::ShardNotFound {
                                workchain_id: wc,
                                prefix: splitted_shard.tagged_spec(),
                            })
                            &&& old(self).entries_spec()[i].1.get_spec(splitted_shard.key_bits())
                                is None
                            &&& final(self).entries_spec().len() == old(self).entries_spec().len()
                            &&& forall|j: int|
                                0 <= j < old(self).entries_spec().len() && j != i
                                    ==> #[trigger] final(self).entries_spec()[j]
                                    == old(self).entries_spec()[j]
                            &&& final(self).entries_spec()[i].0 == wc
                            &&& final(self).entries_spec()[i].1.leaves()
                                == old(self).entries_spec()[i].1.leaves()
                        })
                    },
                }
            }),
    {
        let wc = splitted_shard.workchain_id();
        let i = match self.find_wc(wc) {
            Some(i) => i,
            None => {
                return Err(BlockError::WorkchainNotFound { workchain_id: wc });
            },
        };
        let key = splitted_shard.shard_key();
        let (_, tree) = self.entries.remove(i);
        let (tree2, ok) = tree.split(&key, left, right);
        self.entries.insert(i, (wc, tree2));
        proof {
            assert(final(self).entries_spec() =~= old(self).entries_spec().update(
                i as int,
                (wc, tree2),
            ));
        }
        if ok {
            Ok(())
        } else {
            Err(
                BlockError::ShardNotFound {
                    workchain_id: wc,
                    prefix: splitted_shard.shard_prefix_with_tag(),
                },
            )
        }
    }

    /// Replaces the fork of two leaves exactly at the given shard by one
    /// leaf holding the merged descriptor. Fails naming the workchain when
    /// it is missing and the shard when no such fork sits there.
    pub fn merge_shards(&mut self, new_shard: &ShardIdent, merged: ShardDescr) -> (r: Result<
        (),
        BlockError,
    >)
        ensures
            ({
                let wc = new_shard.wc_spec();
                let i = wc_index(old(self).entries_spec(), wc);
                match r {
                    Ok(_) => {
                        &&& i >= 0
                        &&& old(self).entries_spec()[i].1.pair_at(new_shard.key_bits()) is Some
                        &&& final(self).entries_spec().len() == old(self).entries_spec().len()
                        &&& forall|j: int|
                            0 <= j < old(self).entries_spec().len() && j != i
                                ==> #[trigger] final(self).entries_spec()[j]
                                == old(self).entries_spec()[j]
                        &&& final(self).entries_spec()[i].0 == wc
                        &&& final(self).entries_spec()[i].1.leaves() == merge_leaves(
                            old(self).entries_spec()[i].1.leaves(),
                            new_shard.key_bits(),
                            merged,
                        )
                    },
                    Err(e) => {
                        &&& (if i < 0 {
                            e == (BlockError::WorkchainNotFound { workchain_id: wc })
                                && final(self).entries_spec() == old(self).entries_spec()
                        } else {
                            &&& e == (BlockError::ShardNotFound {
                                workchain_id: wc,
                                prefix: new_shard.tagged_spec(),
                            })
                            &&& old(self).entries_spec()[i].1.pair_at(new_shard.key_bits())
                                is None
                            &&& final(self).entries_spec().len() == old(self).entries_spec().len()
                            &&& forall|j: int|
                                0 <= j < old(self).entries_spec().len() && j != i
                                    ==> #[trigger] final(self).entries_spec()[j]
                                    == old(self).entries_spec()[j]
                            &&& final(self).entries_spec()[i].0 == wc
                            &&& final(self).entries_spec()[i].1.leaves()
                                == old(self).entries_spec()[i].1.leaves()
                        })
                    },
                }
            }),
    {
        let wc = new_shard.workchain_id();
        let i = match self.find_wc(wc) {
            Some(i) => i,
            None => {
                return Err(BlockError::WorkchainNotFound { workchain_id: wc });
            },
        };
        let key = new_shard.shard_key();
        let (_, tree) = self.entries.remove(i);
        let (tree2, ok) = tree.merge(&key, merged);
        self.entries.insert(i, (wc, tree2));
        proof {
            assert(final(self).entries_spec() =~= old(self).entries_spec().update(
                i as int,
                (wc, tree2),
            ));
        }
        if ok {
            Ok(())
        } else {
            Err(
                BlockError::ShardNotFound {
                    workchain_id: wc,
                    prefix: new_shard.shard_prefix_with_tag(),
                },
            )
        }
    }

    /// Replaces the value of the leaf exactly at the given shard. Fails
    /// naming the workchain when it is missing and the shard when no leaf
    /// sits exactly there.
    pub fn update_shard(&mut self, shard: &ShardIdent, value: ShardDescr) -> (r: Result<
        (),
        BlockError,
    >)
        ensures
            ({
                let wc = shard.wc_spec();
                let i = wc_index(old(self).entries_spec(), wc);
                match r {
                    Ok(_) => {
                        &&& i >= 0
                        &&& old(self).entries_spec()[i].1.get_spec(shard.key_bits()) is Some
                        &&& final(self).entries_spec().len() == old(self).entries_spec().len()
                        &&& forall|j: int|
                            0 <= j < old(self).entries_spec().len() && j != i
                                ==> #[trigger] final(self).entries_spec()[j]
                                == old(self).entries_spec()[j]
                        &&& final(self).entries_spec()[i].0 == wc
                        &&& final(self).entries_spec()[i].1.leaves() == update_leaves(
                            old(self).entries_spec()[i].1.leaves(),
                            shard.key_bits(),
                            value,
                        )
                    },
                    Err(e) => {
                        &&& (if i < 0 {
                            e == (BlockError::WorkchainNotFound { workchain_id: wc })
                                && final(self).entries_spec() == old(self).entries_spec()
                        } else {
                            &&& e == (BlockError::ShardNotFound {
                                workchain_id: wc,
                                prefix: shard.tagged_spec(),
                            })
                            &&& old(self).entries_spec()[i].1.get_spec(shard.key_bits()) is None
                            &&& final(self).entries_spec().len() == old(self).entries_spec().len()
                            &&& forall|j: int|
                                0 <= j < old(self).entries_spec().len() && j != i
                                    ==> #[trigger] final(self).entries_spec()[j]
                                    == old(self).entries_spec()[j]
                            &&& final(self).entries_spec()[i].0 == wc
                            &&& final(self).entries_spec()[i].1.leaves()
                                == old(self).entries_spec()[i].1.leaves()
                        })
                    },
                }
            }),
    {
        let wc = shard.workchain_id();
        let i = match self.find_wc(wc) {
            Some(i) => i,
            None => {
                return Err(BlockError::WorkchainNotFound { workchain_id: wc });
            },
        };
        let key = shard.shard_key();
        let (_, tree) = self.entries.remove(i);
        let (tree2, ok) = tree.update(&key, value);
        self.entries.insert(i, (wc, tree2));
        proof {
            assert(final(self).entries_spec() =~= old(self).entries_spec().update(
                i as int,
                (wc, tree2),
            ));
        }
        if ok {
            Ok(())
        } else {
            Err(
                BlockError::ShardNotFound { workchain_id: wc, prefix: shard.shard_prefix_with_tag() },
            )
        }
    }
}

/// The topology flattened: every `(workchain, prefix, descriptor)` leaf,
/// per-workchain tries in registration order, leaves left before right.
pub open spec fn flat_spec(entries: Seq<(i32, BinTree<ShardDescr>)>) -> Seq<
    (i32, Seq<bool>, ShardDescr),
>
    decreases entries.len(),
{
    if entries.len() == 0 {
        Seq::<(i32, Seq<bool>, ShardDescr)>::empty()
    } else {
        flat_spec(entries.drop_last()) + entries.last().1.leaves().map_values(
            |e: (Seq<bool>, ShardDescr)| (entries.last().0, e.0, e.1),
        )
    }
}

/// Whether every trie of the topology stays within the deepest allowed
/// prefix, so that every leaf yields a well-formed shard identifier.
pub open spec fn keys_short(entries: Seq<(i32, BinTree<ShardDescr>)>) -> bool {
    forall|w: int|
        0 <= w < entries.len() ==> (#[trigger] entries[w]).1.height() <= MAX_SPLIT_DEPTH
}

/// Whether every split or merge intent of a flattened topology can be
/// acted on: a splitting leaf is above the deepest prefix, a merging leaf
/// is below the full one.
pub open spec fn intents_ok(flat: Seq<(i32, Seq<bool>, ShardDescr)>) -> bool {
    forall|i: int|
        0 <= i < flat.len() ==> ((#[trigger] flat[i]).2.before_split ==> flat[i].1.len()
            < MAX_SPLIT_DEPTH) && (flat[i].2.before_merge ==> flat[i].1.len() > 0)
}

/// Whether an item vector matches the flattened topology: same length, and
/// the identifier of each item carries the leaf's workchain and prefix.
pub open spec fn items_match(items: Seq<(ShardIdent, ShardDescr)>, flat: Seq<
    (i32, Seq<bool>, ShardDescr),
>) -> bool {
    &&& items.len() == flat.len()
    &&& forall|i: int|
        0 <= i < items.len() ==> (#[trigger] items[i]).0.wc_spec() == flat[i].0 && items[i].0.key_bits()
            == flat[i].1 && items[i].1@ == flat[i].2@
}

impl ShardHashes {
    /// Every shard of one workchain with its identifier, leaves in trie
    /// order.
    pub fn iterate_shards_for_workchain(&self, workchain_id: i32) -> (r: Result<
        Vec<(ShardIdent, ShardDescr)>,
        BlockError,
    >)
        ensures
            match r {
                Ok(items) => match self.tree_of(workchain_id) {
                    Some(t) => {
                        &&& items@.len() == t.leaves().len()
                        &&& forall|i: int|
                            0 <= i < items@.len() ==> (#[trigger] items@[i]).0.wc_spec()
                                == workchain_id && items@[i].0.key_bits() == t.leaves()[i].0
                                && items@[i].1@ == t.leaves()[i].1@
                    },
                    None => items@.len() == 0,
                },
                Err(e) => e == BlockError::InvalidArg && (self.tree_of(workchain_id) matches Some(
                    t,
                ) && t.height() > MAX_SPLIT_DEPTH),
            },
    {
        let i = match self.find_wc(workchain_id) {
            Some(i) => i,
            None => {
                return Ok(Vec::new());
            },
        };
        let (_, tree) = &self.entries[i];
        Self::tree_items(workchain_id, tree)
    }

    /// Packs one trie's leaves with their shard identifiers.
    fn tree_items(workchain_id: i32, tree: &BinTree<ShardDescr>) -> (r: Result<
        Vec<(ShardIdent, ShardDescr)>,
        BlockError,
    >)
        ensures
            match r {
                Ok(items) => {
                    &&& items@.len() == tree.leaves().len()
                    &&& forall|i: int|
                        0 <= i < items@.len() ==> (#[trigger] items@[i]).0.wc_spec()
                            == workchain_id && items@[i].0.key_bits() == tree.leaves()[i].0
                            && items@[i].1@ == tree.leaves()[i].1@
                },
                Err(e) => e == BlockError::InvalidArg && tree.height() > MAX_SPLIT_DEPTH,
            },
    {
        let pairs = tree.leaves_vec();
        let mut items: Vec<(ShardIdent, ShardDescr)> = Vec::new();
        let mut i: usize = 0;
        while i < pairs.len()
            invariant
                i <= pairs@.len(),
                pairs@.len() == tree.leaves().len(),
                forall|j: int|
                    0 <= j < pairs@.len() ==> (#[trigger] pairs@[j]).0@ == tree.leaves()[j].0
                        && *pairs@[j].1 == tree.leaves()[j].1,
                items@.len() == i,
                forall|j: int|
                    0 <= j < i ==> (#[trigger] items@[j]).0.wc_spec() == workchain_id
                        && items@[j].0.key_bits() == tree.leaves()[j].0
                        && items@[j].1@ == tree.leaves()[j].1@,
            decreases pairs@.len() - i,
        {
            let (prefix, descr) = &pairs[i];
            let ident = match ShardIdent::with_prefix_bits(workchain_id, prefix) {
                Ok(ident) => ident,
                Err(_) => {
                    proof {
                        crate::bintree::lemma_leaves_depth(*tree);
                    }
                    return Err(BlockError::InvalidArg);
                },
            };
            items.push((ident, (*descr).clone()));
            i = i + 1;
        }
        Ok(items)
    }

    /// Every shard of every workchain with its identifier: workchains in
    /// registration order, leaves in trie order.
    pub fn iterate_shards(&self) -> (r: Result<Vec<(ShardIdent, ShardDescr)>, BlockError>)
        ensures
            match r {
                Ok(items) => items_match(items@, flat_spec(self.entries_spec())),
                Err(e) => e == BlockError::InvalidArg && !keys_short(self.entries_spec()),
            },
    {
        let mut items: Vec<(ShardIdent, ShardDescr)> = Vec::new();
        let mut w: usize = 0;
        while w < self.entries.len()
            invariant
                w <= self.entries@.len(),
                items_match(items@, flat_spec(self.entries_spec().take(w as int))),
            decreases self.entries@.len() - w,
        {
            let (wc, tree) = &self.entries[w];
            let part = match Self::tree_items(*wc, tree) {
                Ok(part) => part,
                Err(e) => {
                    proof {
                        assert(!keys_short(self.entries_spec())) by {
                            assert(self.entries_spec()[w as int].1.height() > MAX_SPLIT_DEPTH);
                        };
                    }
                    return Err(e);
                },
            };
            let ghost items_before = items@;
            let ghost part_g = part@;
            let mut j: usize = 0;
            while j < part.len()
                invariant
                    j <= part@.len(),
                    part@ == part_g,
                    items@.len() == items_before.len() + j,
                    forall|k: int| 0 <= k < items_before.len() ==> #[trigger] items@[k]
                        == items_before[k],
                    forall|k: int|
                        0 <= k < j ==> (#[trigger] items@[items_before.len() + k]).0 == part_g[
                            k].0 && items@[items_before.len() + k].1@ == part_g[k].1@,
                decreases part@.len() - j,
            {
                let (ident, descr) = &part[j];
                items.push((*ident, descr.clone()));
                j = j + 1;
            }
            proof {
                let fl = flat_spec(self.entries_spec().take(w as int + 1));
                let fl0 = flat_spec(self.entries_spec().take(w as int));
                assert(self.entries_spec().take(w as int + 1).drop_last() =~= self.entries_spec().take(
                    w as int,
                ));
                assert(self.entries_spec().take(w as int + 1).last() == self.entries_spec()[w as int]);
                let leaves = self.entries_spec()[w as int].1.leaves();
                let mapped = leaves.map_values(
                    |e: (Seq<bool>, ShardDescr)| (self.entries_spec()[w as int].0, e.0, e.1),
                );
                assert(fl == fl0 + mapped);
                assert forall|i: int| 0 <= i < items@.len() implies (#[trigger] items@[i]).0.wc_spec()
                    == fl[i].0 && items@[i].0.key_bits() == fl[i].1 && items@[i].1@ == fl[i].2@ by {
                    if i < items_before.len() {
                        assert(fl[i] == fl0[i]);
                    } else {
                        let k = i - items_before.len();
                        assert(items@[items_before.len() + k].0 == part_g[k].0);
                        assert(fl[i] == mapped[k]);
                        assert(mapped[k] == (self.entries_spec()[w as int].0, leaves[k].0, leaves[k].1));
                    }
                };
            }
            w = w + 1;
        }
        proof {
            assert(self.entries_spec().take(self.entries_spec().len() as int) =~= self.entries_spec());
        }
        Ok(items)
    }
}

/// The first position of the accumulator keyed by the given shard, or `-1`.
pub open spec fn ident_index(acc: Seq<(ShardIdent, Seq<BlockIdExt>)>, key: ShardIdent) -> int
    decreases acc.len(),
{
    if acc.len() == 0 {
        -1
    } else if acc[0].0 == key {
        0
    } else {
        let sub = ident_index(acc.skip(1), key);
        if sub == -1 {
            -1
        } else {
            sub + 1
        }
    }
}

/// `ident_index` returns `-1` or the first position carrying the key.
pub proof fn lemma_ident_index(acc: Seq<(ShardIdent, Seq<BlockIdExt>)>, key: ShardIdent)
    ensures
        ident_index(acc, key) == -1 || (0 <= ident_index(acc, key) < acc.len() && acc[ident_index(
            acc,
            key,
        )].0 == key),
        forall|j: int| 0 <= j < ident_index(acc, key) ==> (#[trigger] acc[j]).0 != key,
        ident_index(acc, key) == -1 ==> forall|j: int|
            0 <= j < acc.len() ==> (#[trigger] acc[j]).0 != key,
    decreases acc.len(),
{
    if acc.len() > 0 && acc[0].0 != key {
        lemma_ident_index(acc.skip(1), key);
        assert forall|j: int| 0 <= j < ident_index(acc, key) implies (#[trigger] acc[j]).0
            != key by {
            if j > 0 {
                assert(acc.skip(1)[j - 1] == acc[j]);
            }
        };
        if ident_index(acc, key) == -1 {
            assert forall|j: int| 0 <= j < acc.len() implies (#[trigger] acc[j]).0 != key by {
                if j > 0 {
                    assert(acc.skip(1)[j - 1] == acc[j]);
                }
            };
        }
    }
}

/// Stores `[id]` under the key, replacing any block list already there.
pub open spec fn upsert_replace(
    acc: Seq<(ShardIdent, Seq<BlockIdExt>)>,
    key: ShardIdent,
    id: BlockIdExt,
) -> Seq<(ShardIdent, Seq<BlockIdExt>)> {
    let i = ident_index(acc, key);
    if i >= 0 {
        acc.update(i, (key, seq![id]))
    } else {
        acc.push((key, seq![id]))
    }
}

/// Appends `id` to the block list under the key, creating the entry when
/// absent.
pub open spec fn upsert_append(
    acc: Seq<(ShardIdent, Seq<BlockIdExt>)>,
    key: ShardIdent,
    id: BlockIdExt,
) -> Seq<(ShardIdent, Seq<BlockIdExt>)> {
    let i = ident_index(acc, key);
    if i >= 0 {
        acc.update(i, (key, acc[i].1.push(id)))
    } else {
        acc.push((key, seq![id]))
    }
}

/// The block identifier a shard item contributes.
pub open spec fn item_block_id(s: ShardIdent, d: ShardDescr) -> BlockIdExt {
    BlockIdExt { shard_id: s, seq_no: d.seq_no, root_hash: d.root_hash, file_hash: d.file_hash }
}

/// The next expected shard set, derived from the current one: a leaf about
/// to split contributes its two children, a leaf about to merge adds its
/// block to its parent's entry, and any other leaf contributes itself.
pub open spec fn new_shards_fold(items: Seq<(ShardIdent, ShardDescr)>) -> Seq<
    (ShardIdent, Seq<BlockIdExt>),
>
    decreases items.len(),
{
    if items.len() == 0 {
        Seq::<(ShardIdent, Seq<BlockIdExt>)>::empty()
    } else {
        let acc = new_shards_fold(items.drop_last());
        let (s, d) = items.last();
        let id = item_block_id(s, d);
        if d.before_split {
            upsert_replace(
                upsert_replace(acc, s.split_spec().0, id),
                s.split_spec().1,
                id,
            )
        } else if d.before_merge {
            upsert_append(acc, s.merge_spec(), id)
        } else {
            upsert_replace(acc, s, id)
        }
    }
}

/// The view of an accumulator vector.
pub open spec fn acc_view(s: Seq<(ShardIdent, Vec<BlockIdExt>)>) -> Seq<
    (ShardIdent, Seq<BlockIdExt>),
> {
    s.map_values(|e: (ShardIdent, Vec<BlockIdExt>)| (e.0, e.1@))
}

/// The items of the topology's neighbours of a shard, in iteration order.
pub open spec fn neighbours_of(items: Seq<(ShardIdent, ShardDescr)>, shard: ShardIdent) -> Seq<
    (ShardIdent, ShardDescr),
>
    decreases items.len(),
{
    if items.len() == 0 {
        Seq::<(ShardIdent, ShardDescr)>::empty()
    } else {
        let rest = neighbours_of(items.drop_last(), shard);
        if ShardIdent::is_neighbor_spec(shard, items.last().0) {
            rest.push(items.last())
        } else {
            rest
        }
    }
}

fn acc_upsert(
    out: &mut Vec<(ShardIdent, Vec<BlockIdExt>)>,
    key: ShardIdent,
    id: BlockIdExt,
    append: bool,
)
    ensures
        append ==> acc_view(final(out)@) == upsert_append(acc_view(old(out)@), key, id),
        !append ==> acc_view(final(out)@) == upsert_replace(acc_view(old(out)@), key, id),
{
    proof {
        lemma_ident_index(acc_view(out@), key);
    }
    let mut i: usize = 0;
    while i < out.len()
        invariant
            i <= out@.len(),
            out@ == old(out)@,
            forall|j: int| 0 <= j < i ==> (#[trigger] out@[j]).0 != key,
        decreases out@.len() - i,
    {
        let found = out[i].0 == key;
        if found {
            proof {
                assert forall|j: int| 0 <= j <= i implies (#[trigger] acc_view(out@)[j]).0
                    == out@[j].0 && acc_view(out@)[j].1 == out@[j].1@ by {}
                lemma_acc_index_at(acc_view(out@), key, i as int);
            }
            let ghost before = acc_view(out@);
            if append {
                let mut ids = crate::descr::copy_vec(&out[i].1);
                ids.push(id);
                out.set(i, (key, ids));
                proof {
                    assert forall|j: int| 0 <= j < out@.len() implies (#[trigger] acc_view(
                        out@,
                    )[j]) == (out@[j].0, out@[j].1@) by {}
                    assert(ids@ == before[i as int].1.push(id));
                    assert(acc_view(out@) =~~= upsert_append(before, key, id));
                }
            } else {
                let mut ids: Vec<BlockIdExt> = Vec::new();
                ids.push(id);
                out.set(i, (key, ids));
                proof {
                    assert forall|j: int| 0 <= j < out@.len() implies (#[trigger] acc_view(
                        out@,
                    )[j]) == (out@[j].0, out@[j].1@) by {}
                    assert(ids@ =~= seq![id]);
                    assert(acc_view(out@) =~~= upsert_replace(before, key, id));
                }
            }
            return ;
        }
        i = i + 1;
    }
    let ghost before = acc_view(out@);
    proof {
        assert forall|j: int| 0 <= j < before.len() implies (#[trigger] before[j]).0 != key by {
            assert(before[j].0 == out@[j].0);
        };
        lemma_ident_index(before, key);
        assert(ident_index(before, key) == -1);
    }
    let mut ids: Vec<BlockIdExt> = Vec::new();
    ids.push(id);
    out.push((key, ids));
    proof {
        assert(ids@ =~= seq![id]);
        assert forall|j: int| 0 <= j < out@.len() implies (#[trigger] acc_view(out@)[j]) == (
            out@[j].0,
            out@[j].1@,
        ) by {}
        if append {
            assert(acc_view(out@) =~~= upsert_append(before, key, id));
        } else {
            assert(acc_view(out@) =~~= upsert_replace(before, key, id));
        }
    }
}

/// A position whose key matches, with none before it, is the one
/// `ident_index` names.
proof fn lemma_acc_index_at(acc: Seq<(ShardIdent, Seq<BlockIdExt>)>, key: ShardIdent, i: int)
    requires
        0 <= i < acc.len(),
        acc[i].0 == key,
        forall|j: int| 0 <= j < i ==> (#[trigger] acc[j]).0 != key,
    ensures
        ident_index(acc, key) == i,
    decreases acc.len(),
{
    if i > 0 {
        assert(acc[0].0 != key);
        assert forall|j: int| 0 <= j < i - 1 implies (#[trigger] acc.skip(1)[j]).0 != key by {
            assert(acc.skip(1)[j] == acc[j + 1]);
        };
        assert(acc.skip(1)[i - 1] == acc[i]);
        lemma_acc_index_at(acc.skip(1), key, i - 1);
    }
}

impl ShardHashes {
    /// Derives the next expected shard set from the current split and merge
    /// intents: one full scan, as [`new_shards_fold`] describes.
    pub fn get_new_shards(&self) -> (r: Result<Vec<(ShardIdent, Vec<BlockIdExt>)>, BlockError>)
        ensures
            match r {
                Ok(out) => exists|its: Seq<(ShardIdent, ShardDescr)>|
                    #[trigger] items_match(its, flat_spec(self.entries_spec())) && acc_view(out@)
                        == new_shards_fold(its),
                Err(e) => e == BlockError::InvalidArg && !(keys_short(self.entries_spec())
                    && intents_ok(flat_spec(self.entries_spec()))),
            },
    {
        let items = self.iterate_shards()?;
        let ghost its = items@;
        let ghost fl = flat_spec(self.entries_spec());
        let mut out: Vec<(ShardIdent, Vec<BlockIdExt>)> = Vec::new();
        let mut i: usize = 0;
        proof {
            assert(acc_view(out@) =~~= new_shards_fold(its.take(0)));
        }
        while i < items.len()
            invariant
                i <= items@.len(),
                items@ == its,
                fl == flat_spec(self.entries_spec()),
                items_match(its, fl),
                acc_view(out@) == new_shards_fold(its.take(i as int)),
            decreases items@.len() - i,
        {
            let (s, d) = &items[i];
            let id = BlockIdExt::with_params(*s, d.seq_no, d.root_hash, d.file_hash);
            proof {
                assert(its.take(i as int + 1).drop_last() =~= its.take(i as int));
                assert(its.take(i as int + 1).last() == its[i as int]);
            }
            if d.before_split {
                let (l, rg) = match s.split() {
                    Ok(p) => p,
                    Err(e) => {
                        proof {
                            s.lemma_key_len();
                            assert(!intents_ok(fl)) by {
                                assert(fl[i as int].2.before_split && fl[i as int].1.len()
                                    >= MAX_SPLIT_DEPTH);
                            };
                        }
                        return Err(e);
                    },
                };
                acc_upsert(&mut out, l, id, false);
                acc_upsert(&mut out, rg, id, false);
            } else if d.before_merge {
                let p = match s.merge() {
                    Ok(p) => p,
                    Err(e) => {
                        proof {
                            s.lemma_key_len();
                            assert(!intents_ok(fl)) by {
                                assert(fl[i as int].2.before_merge && fl[i as int].1.len() == 0);
                            };
                        }
                        return Err(e);
                    },
                };
                acc_upsert(&mut out, p, id, true);
            } else {
                acc_upsert(&mut out, *s, id, false);
            }
            i = i + 1;
        }
        proof {
            assert(its.take(its.len() as int) =~= its);
            assert(items_match(its, flat_spec(self.entries_spec())) && acc_view(out@)
                == new_shards_fold(its));
        }
        Ok(out)
    }

    /// Every shard of the topology that neighbours the given shard, in
    /// iteration order, as [`neighbours_of`] describes.
    pub fn get_neighbours(&self, shard: &ShardIdent) -> (r: Result<Vec<McShardRecord>, BlockError>)
        ensures
            match r {
                Ok(out) => exists|its: Seq<(ShardIdent, ShardDescr)>|
                    {
                        let sel = neighbours_of(its, *shard);
                        &&& #[trigger] items_match(its, flat_spec(self.entries_spec()))
                        &&& out@.len() == sel.len()
                        &&& forall|k: int|
                            0 <= k < sel.len() ==> (#[trigger] out@[k]).block_id.shard_id == sel[
                                k].0 && out@[k].descr@ == sel[k].1@
                    },
                Err(e) => e == BlockError::InvalidArg && !keys_short(self.entries_spec()),
            },
    {
        let items = self.iterate_shards()?;
        let ghost its = items@;
        let mut out: Vec<McShardRecord> = Vec::new();
        let mut i: usize = 0;
        while i < items.len()
            invariant
                i <= items@.len(),
                items@ == its,
                out@.len() == neighbours_of(its.take(i as int), *shard).len(),
                forall|k: int|
                    0 <= k < out@.len() ==> (#[trigger] out@[k]).block_id.shard_id
                        == neighbours_of(its.take(i as int), *shard)[k].0 && out@[k].descr@
                        == neighbours_of(its.take(i as int), *shard)[k].1@,
            decreases items@.len() - i,
        {
            let (ident, descr) = &items[i];
            proof {
                assert(its.take(i as int + 1).drop_last() =~= its.take(i as int));
                assert(its.take(i as int + 1).last() == its[i as int]);
            }
            if shard.is_neighbor_for(ident) {
                out.push(McShardRecord::from_shard_descr(*ident, descr.clone()));
            }
            i = i + 1;
        }
        proof {
            assert(its.take(its.len() as int) =~= its);
        }
        Ok(out)
    }

    /// What computing a new shard's catchain sequence number returns: the
    /// single ancestor's number unchanged when one strictly contains the
    /// shard, else one past the larger of the two child shards' numbers;
    /// masterchain shards, unregistered workchains and missing shards fail.
    pub open spec fn calc_cc_spec(self, shard: ShardIdent) -> Result<u32, BlockError> {
        if shard.wc_spec() == MASTERCHAIN_ID {
            Err(BlockError::InvalidData)
        } else if shard.wc_spec() == INVALID_WORKCHAIN_ID {
            Err(BlockError::InvalidArg)
        } else if shard.len_spec() >= MAX_SPLIT_DEPTH {
            Err(BlockError::InvalidArg)
        } else {
            let nf = Err::<u32, BlockError>(
                BlockError::ShardNotFound {
                    workchain_id: shard.wc_spec(),
                    prefix: shard.tagged_spec(),
                },
            );
            match self.tree_of(shard.wc_spec()) {
                None => nf,
                Some(t) => match t.find_spec(shard.key_bits().push(false)) {
                    None => nf,
                    Some((d1, v1)) => if d1 <= shard.len_spec() {
                        Ok(v1.next_catchain_seqno)
                    } else {
                        match t.find_spec(shard.key_bits().push(true)) {
                            None => nf,
                            Some((d2, v2)) => if d2 <= shard.len_spec() {
                                Err(BlockError::InvalidData)
                            } else {
                                let m = if v1.next_catchain_seqno >= v2.next_catchain_seqno {
                                    v1.next_catchain_seqno
                                } else {
                                    v2.next_catchain_seqno
                                };
                                if m == u32::MAX {
                                    Err(BlockError::IntOverflow)
                                } else {
                                    Ok((m + 1) as u32)
                                }
                            },
                        }
                    },
                },
            }
        }
    }

    /// Computes the next catchain sequence number for a shard that resulted
    /// from a split or merge, per [`Self::calc_cc_spec`].
    #[verifier::rlimit(100)]
    #[verifier::spinoff_prover]
    pub fn calc_shard_cc_seqno(&self, shard: &ShardIdent) -> (r: Result<u32, BlockError>)
        ensures
            r == self.calc_cc_spec(*shard),
    {
        if shard.is_masterchain() {
            return Err(BlockError::InvalidData);
        }
        if let Err(e) = ShardIdent::check_workchain_id(shard.workchain_id()) {
            return Err(e);
        }
        let mask_l = match shard.left_ancestor_mask() {
            Ok(m) => m,
            Err(e) => {
                return Err(e);
            },
        };
        let mask_r = match shard.right_ancestor_mask() {
            Ok(m) => m,
            Err(e) => {
                return Err(e);
            },
        };
        let nf = BlockError::ShardNotFound {
            workchain_id: shard.workchain_id(),
            prefix: shard.shard_prefix_with_tag(),
        };
        let ghost key = shard.key_bits();
        let ghost kl = shard.key_bits().push(false);
        let ghost kr = shard.key_bits().push(true);
        proof {
            shard.lemma_key_len();
        }
        let shard1 = match self.find_shard(&mask_l) {
            Ok(Some(rec)) => rec,
            Ok(None) => {
                return Err(nf);
            },
            Err(_) => {
                proof {
                    assert(false);
                }
                return Err(nf);
            },
        };
        let ghost t = self.tree_of(shard.wc_spec()).unwrap();
        let ghost (d1, v1) = t.find_spec(kl).unwrap();
        proof {
            crate::bintree::lemma_find_spec_depth(t, kl);
            assert(0 <= d1 <= key.len() + 1);
            assert(shard1.descr@ == v1@);
            assert(shard1.block_id.shard_id.key_bits() == kl.take(d1));
            Self::lemma_child_take(key, false, d1);
            assert(shard1.block_id.shard_id.key_bits().len() == d1);
            assert(shard1.block_id.shard_id.wc_spec() == shard.wc_spec());
            if d1 <= key.len() {
                assert(shard1.block_id.shard_id.key_bits() == key.take(d1));
            }
        }
        if shard1.shard().is_ancestor_for(shard) {
            proof {
                assert(d1 <= shard.len_spec());
            }
            return Ok(shard1.descr.next_catchain_seqno);
        }
        proof {
            assert(d1 > shard.len_spec());
        }
        let shard2 = match self.find_shard(&mask_r) {
            Ok(Some(rec)) => rec,
            Ok(None) => {
                return Err(nf);
            },
            Err(_) => {
                proof {
                    assert(false);
                }
                return Err(nf);
            },
        };
        let ghost (d2, v2) = t.find_spec(kr).unwrap();
        proof {
            crate::bintree::lemma_find_spec_depth(t, kr);
            assert(0 <= d2 <= key.len() + 1);
            assert(shard2.descr@ == v2@);
            assert(shard2.block_id.shard_id.key_bits() == kr.take(d2));
            Self::lemma_child_take(key, true, d2);
            assert(shard2.block_id.shard_id.key_bits().len() == d2);
            assert(shard2.block_id.shard_id.wc_spec() == shard.wc_spec());
            if d2 == key.len() + 1 {
                assert(shard2.block_id.shard_id.key_bits() == kr);
                assert(kr.take(key.len() as int) =~= key);
            }
        }
        if !shard.is_parent_for(shard2.shard()) {
            proof {
                assert(d2 <= shard.len_spec());
            }
            return Err(BlockError::InvalidData);
        }
        proof {
            assert(d2 == shard.len_spec() + 1);
        }
        let a = shard1.descr.next_catchain_seqno;
        let b = shard2.descr.next_catchain_seqno;
        proof {
            assert(a == v1.next_catchain_seqno);
            assert(b == v2.next_catchain_seqno);
        }
        let m = if a >= b {
            a
        } else {
            b
        };
        if m == u32::MAX {
            return Err(BlockError::IntOverflow);
        }
        Ok(m + 1)
    }

    /// A prefix of a child key of length within the parent is the same
    /// prefix of the parent key.
    proof fn lemma_child_take(key: Seq<bool>, b: bool, d: int)
        requires
            0 <= d <= key.len() + 1,
        ensures
            d <= key.len() ==> key.push(b).take(d) == key.take(d),
            d == key.len() + 1 ==> key.push(b).take(d) == key.push(b),
    {
        if d <= key.len() {
            assert(key.push(b).take(d) =~= key.take(d));
        } else {
            assert(key.push(b).take(d) =~= key.push(b));
        }
    }
}

/// The root bits of a shard trie's wire form: a leaf bit and inline
/// descriptor, or a fork bit.
pub open spec fn shard_tree_bits(t: BinTree<ShardDescr>) -> Seq<bool> {
    match t {
        BinTree::Leaf(d) => seq![false] + d.enc_bits(),
        BinTree::Fork(_, _) => seq![true],
    }
}

/// The child cells of a shard trie's wire form: a leaf's descriptor
/// children, or one cell per subtree.
pub open spec fn shard_tree_refs(t: BinTree<ShardDescr>) -> Seq<CellData>
    decreases t,
{
    match t {
        BinTree::Leaf(d) => d.enc_refs(),
        BinTree::Fork(l, r) => seq![
            CellData { bits: shard_tree_bits(*l), refs: shard_tree_refs(*l) },
            CellData { bits: shard_tree_bits(*r), refs: shard_tree_refs(*r) },
        ],
    }
}

/// Whether every descriptor of a shard trie can be written.
pub open spec fn shard_tree_encodable(t: BinTree<ShardDescr>) -> bool
    decreases t,
{
    match t {
        BinTree::Leaf(d) => d.encodable_spec(),
        BinTree::Fork(l, r) => shard_tree_encodable(*l) && shard_tree_encodable(*r),
    }
}

/// Writes a shard trie; succeeds exactly when every descriptor is
/// encodable.
pub fn write_shard_tree(t: &BinTree<ShardDescr>, b: &mut crate::cells::BuilderData) -> (r: Result<
    (),
    BlockError,
>)
    ensures
        r.is_ok() <==> shard_tree_encodable(*t),
        r.is_ok() ==> final(b).bits_spec() == old(b).bits_spec() + shard_tree_bits(*t) && final(b).refs_spec() == old(b).refs_spec() + shard_tree_refs(*t),
    decreases *t,
{
    match t {
        BinTree::Leaf(d) => {
            b.append_bit(false);
            d.write_to(b)?;
            proof {
                assert(final(b).bits_spec() =~= old(b).bits_spec() + shard_tree_bits(*t));
            }
            Ok(())
        },
        BinTree::Fork(l, r) => {
            b.append_bit(true);
            let mut cl = crate::cells::BuilderData::new();
            write_shard_tree(&**l, &mut cl)?;
            let lcell = cl.into_cell();
            b.append_reference(lcell);
            let mut cr = crate::cells::BuilderData::new();
            write_shard_tree(&**r, &mut cr)?;
            let rcell = cr.into_cell();
            b.append_reference(rcell);
            proof {
                assert(lcell@ =~~= (CellData {
                    bits: shard_tree_bits(**l),
                    refs: shard_tree_refs(**l),
                }));
                assert(rcell@ =~~= (CellData {
                    bits: shard_tree_bits(**r),
                    refs: shard_tree_refs(**r),
                }));
                assert(final(b).bits_spec() =~= old(b).bits_spec() + shard_tree_bits(*t));
                assert(final(b).refs_spec() =~~= old(b).refs_spec() + shard_tree_refs(*t));
            }
            Ok(())
        },
    }
}

/// Reads a shard trie back, descending at most `fuel` levels; each
/// subtree's cell must be fully consumed.
pub fn read_shard_tree(s: &mut crate::cells::SliceData, fuel: u64) -> (r: Result<
    BinTree<ShardDescr>,
    BlockError,
>)
    ensures
        match r {
            Ok(t) => {
                &&& old(s).rem_bits() == shard_tree_bits(t) + final(s).rem_bits()
                &&& old(s).rem_refs() == shard_tree_refs(t) + final(s).rem_refs()
            },
            Err(e) => e == BlockError::CellUnderflow || e == BlockError::InvalidData || e
                == BlockError::TooManyMempoolNodes || e matches BlockError::InvalidConstructorTag {
                ..
            },
        },
    decreases fuel,
{
    let ghost rem0 = s.rem_bits();
    let is_fork = s.get_next_bit()?;
    if !is_fork {
        let d = ShardDescr::read_from(s)?;
        let t = BinTree::Leaf(d);
        proof {
            assert(rem0 =~= seq![false] + (d.enc_bits() + final(s).rem_bits()));
            assert(rem0 =~= shard_tree_bits(t) + final(s).rem_bits());
        }
        return Ok(t);
    }
    if fuel == 0 {
        return Err(BlockError::InvalidData);
    }
    let cl = s.checked_drain_reference()?;
    let ghost cld = cl@;
    let mut sl = crate::cells::SliceData::load_cell(cl);
    let l = read_shard_tree(&mut sl, fuel - 1)?;
    if sl.bits_remaining() != 0 || sl.refs_remaining() != 0 {
        return Err(BlockError::InvalidData);
    }
    let cr = s.checked_drain_reference()?;
    let ghost crd = cr@;
    let mut sr = crate::cells::SliceData::load_cell(cr);
    let r = read_shard_tree(&mut sr, fuel - 1)?;
    if sr.bits_remaining() != 0 || sr.refs_remaining() != 0 {
        return Err(BlockError::InvalidData);
    }
    let t = BinTree::Fork(Box::new(l), Box::new(r));
    proof {
        assert(cld.bits =~= shard_tree_bits(l));
        assert(cld.refs =~= shard_tree_refs(l));
        assert(crd.bits =~= shard_tree_bits(r));
        assert(crd.refs =~= shard_tree_refs(r));
        assert(cld =~~= (CellData { bits: shard_tree_bits(l), refs: shard_tree_refs(l) }));
        assert(crd =~~= (CellData { bits: shard_tree_bits(r), refs: shard_tree_refs(r) }));
        assert(rem0 =~= shard_tree_bits(t) + final(s).rem_bits());
        assert(old(s).rem_refs() =~~= shard_tree_refs(t) + final(s).rem_refs());
    }
    Ok(t)
}

/// The inline encodings of a topology's workchain list, in order.
pub open spec fn topology_entries_bits(s: Seq<(i32, BinTree<ShardDescr>)>) -> Seq<bool>
    decreases s.len(),
{
    if s.len() == 0 {
        Seq::<bool>::empty()
    } else {
        crate::cells::uint_bits(crate::descr::wc_word(s[0].0) as u64, 32) + topology_entries_bits(
            s.skip(1),
        )
    }
}

/// The child cells of a topology's workchain list: one trie cell per
/// workchain, in order.
pub open spec fn topology_entries_refs(s: Seq<(i32, BinTree<ShardDescr>)>) -> Seq<CellData>
    decreases s.len(),
{
    if s.len() == 0 {
        Seq::<CellData>::empty()
    } else {
        seq![
            CellData { bits: shard_tree_bits(s[0].1), refs: shard_tree_refs(s[0].1) },
        ] + topology_entries_refs(s.skip(1))
    }
}

proof fn lemma_topology_entries_push(
    s: Seq<(i32, BinTree<ShardDescr>)>,
    k: i32,
    t: BinTree<ShardDescr>,
)
    ensures
        topology_entries_bits(s.push((k, t))) == topology_entries_bits(s) + crate::cells::uint_bits(
            crate::descr::wc_word(k) as u64,
            32,
        ),
        topology_entries_refs(s.push((k, t))) == topology_entries_refs(s) + seq![
            CellData { bits: shard_tree_bits(t), refs: shard_tree_refs(t) },
        ],
    decreases s.len(),
{
    if s.len() == 0 {
        assert(topology_entries_bits(Seq::<(i32, BinTree<ShardDescr>)>::empty())
            == Seq::<bool>::empty());
        assert(topology_entries_refs(Seq::<(i32, BinTree<ShardDescr>)>::empty())
            == Seq::<CellData>::empty());
        assert(s.push((k, t))[0] == (k, t));
        assert(s.push((k, t)).skip(1) =~= Seq::<(i32, BinTree<ShardDescr>)>::empty());
        assert(topology_entries_bits(s.push((k, t))) =~= topology_entries_bits(s)
            + crate::cells::uint_bits(crate::descr::wc_word(k) as u64, 32));
        assert(topology_entries_refs(s.push((k, t))) =~~= topology_entries_refs(s) + seq![
            CellData { bits: shard_tree_bits(t), refs: shard_tree_refs(t) },
        ]);
    } else {
        lemma_topology_entries_push(s.skip(1), k, t);
        assert(s.push((k, t)).skip(1) =~= s.skip(1).push((k, t)));
        assert(s.push((k, t))[0] == s[0]);
        assert(topology_entries_bits(s.push((k, t))) =~= topology_entries_bits(s)
            + crate::cells::uint_bits(crate::descr::wc_word(k) as u64, 32));
        assert(topology_entries_refs(s.push((k, t))) =~~= topology_entries_refs(s) + seq![
            CellData { bits: shard_tree_bits(t), refs: shard_tree_refs(t) },
        ]);
    }
}

/// Whether every trie of a topology can be written.
pub open spec fn topology_encodable(s: Seq<(i32, BinTree<ShardDescr>)>) -> bool {
    forall|w: int| 0 <= w < s.len() ==> shard_tree_encodable((#[trigger] s[w]).1)
}

impl ShardHashes {
    /// The inline wire form: the workchain count, then each workchain id;
    /// the tries follow as child cells.
    pub open spec fn enc_bits(self) -> Seq<bool> {
        crate::cells::uint_bits(self.entries_spec().len() as u64, 16) + topology_entries_bits(
            self.entries_spec(),
        )
    }

    /// The child cells: one trie cell per workchain.
    pub open spec fn enc_refs(self) -> Seq<CellData> {
        topology_entries_refs(self.entries_spec())
    }

    /// Writes the topology; succeeds exactly when the workchain count fits
    /// its field and every descriptor is encodable.
    pub fn write_to(&self, b: &mut crate::cells::BuilderData) -> (r: Result<(), BlockError>)
        ensures
            r.is_ok() <==> (self.entries_spec().len() < 0x1_0000 && topology_encodable(
                self.entries_spec(),
            )),
            r.is_ok() ==> final(b).bits_spec() == old(b).bits_spec() + self.enc_bits() && final(b).refs_spec() == old(b).refs_spec() + self.enc_refs(),
    {
        proof {
            vstd::arithmetic::power2::lemma2_to64();
            vstd::arithmetic::power2::lemma2_to64_rest();
        }
        if (self.entries.len() as u64) >= 0x1_0000u64 {
            return Err(BlockError::IntOverflow);
        }
        b.append_bits(self.entries.len() as u64, 16);
        let ghost es = self.entries_spec();
        let mut i: usize = 0;
        while i < self.entries.len()
            invariant
                i <= es.len(),
                es == self.entries_spec(),
                es.len() < 0x1_0000,
                forall|w: int| 0 <= w < i ==> shard_tree_encodable((#[trigger] es[w]).1),
                b.bits_spec() =~= old(b).bits_spec() + crate::cells::uint_bits(es.len() as u64, 16)
                    + topology_entries_bits(es.take(i as int)),
                b.refs_spec() =~= old(b).refs_spec() + topology_entries_refs(es.take(i as int)),
            decreases es.len() - i,
        {
            let (wc, tree) = &self.entries[i];
            proof {
                vstd::arithmetic::power2::lemma2_to64();
                vstd::arithmetic::power2::lemma2_to64_rest();
            }
            b.append_bits(crate::descr::wc_word_exec(*wc) as u64, 32);
            let mut ct = crate::cells::BuilderData::new();
            write_shard_tree(tree, &mut ct)?;
            let cell = ct.into_cell();
            b.append_reference(cell);
            proof {
                assert(cell@ =~~= (CellData {
                    bits: shard_tree_bits(es[i as int].1),
                    refs: shard_tree_refs(es[i as int].1),
                }));
                lemma_topology_entries_push(es.take(i as int), *wc, es[i as int].1);
                assert(es.take(i as int).push((*wc, es[i as int].1)) =~= es.take(i as int + 1));
            }
            i = i + 1;
        }
        proof {
            assert(es.take(es.len() as int) =~= es);
            assert(final(b).bits_spec() =~= old(b).bits_spec() + self.enc_bits());
            assert(final(b).refs_spec() =~~= old(b).refs_spec() + self.enc_refs());
        }
        Ok(())
    }

    /// Reads a topology back: each workchain's trie from its own fully
    /// consumed child cell.
    pub fn read_from(s: &mut crate::cells::SliceData) -> (r: Result<ShardHashes, BlockError>)
        ensures
            match r {
                Ok(x) => {
                    &&& old(s).rem_bits() == x.enc_bits() + final(s).rem_bits()
                    &&& old(s).rem_refs() == x.enc_refs() + final(s).rem_refs()
                },
                Err(e) => e == BlockError::CellUnderflow || e == BlockError::InvalidData || e
                    == BlockError::TooManyMempoolNodes || e matches
                    BlockError::InvalidConstructorTag { .. },
            },
    {
        proof {
            vstd::arithmetic::power2::lemma2_to64();
            vstd::arithmetic::power2::lemma2_to64_rest();
        }
        let ghost rem0 = s.rem_bits();
        let ghost refs0 = s.rem_refs();
        let n = s.get_next_int(16)?;
        let ghost rem1 = s.rem_bits();
        let mut x = ShardHashes::new();
        let mut i: u64 = 0;
        while i < n
            invariant
                i <= n,
                n < 0x1_0000,
                x.entries_spec().len() == i,
                rem1 =~= topology_entries_bits(x.entries_spec()) + s.rem_bits(),
                refs0 =~= topology_entries_refs(x.entries_spec()) + s.rem_refs(),
                s.rem_bits().len() <= rem1.len(),
                s.rem_refs().len() <= refs0.len(),
            decreases n - i,
        {
            let ghost before = x.entries_spec();
            let ghost remk = s.rem_bits();
            proof {
                vstd::arithmetic::power2::lemma2_to64();
                vstd::arithmetic::power2::lemma2_to64_rest();
            }
            let ww = s.get_next_int(32)?;
            let wc = crate::descr::i32_of_word(ww as u32);
            let ct = match s.checked_drain_reference() {
                Ok(c) => c,
                Err(e) => {
                    return Err(e);
                },
            };
            let ghost ctd = ct@;
            let mut st = crate::cells::SliceData::load_cell(ct);
            let tree = read_shard_tree(&mut st, 64)?;
            if st.bits_remaining() != 0 || st.refs_remaining() != 0 {
                return Err(BlockError::InvalidData);
            }
            x.entries.push((wc, tree));
            proof {
                crate::cells::lemma_read_exact(remk, 32, ww);
                assert((ww as u32) as u64 == ww);
                assert(crate::descr::wc_word(wc) == ww as u32);
                assert(ctd.bits =~= shard_tree_bits(tree));
                assert(ctd.refs =~= shard_tree_refs(tree));
                assert(ctd =~~= (CellData {
                    bits: shard_tree_bits(tree),
                    refs: shard_tree_refs(tree),
                }));
                lemma_topology_entries_push(before, wc, tree);
                assert(remk =~= remk.take(32) + s.rem_bits());
                assert(remk == crate::cells::uint_bits(crate::descr::wc_word(wc) as u64, 32)
                    + s.rem_bits());
                assert(rem1 =~= topology_entries_bits(x.entries_spec()) + s.rem_bits());
                assert(refs0 =~~= topology_entries_refs(x.entries_spec()) + s.rem_refs());
            }
            i = i + 1;
        }
        proof {
            crate::cells::lemma_read_exact(rem0, 16, n);
            assert(rem0 =~= rem0.take(16) + rem1);
            assert(rem0 == rem0.take(16) + (topology_entries_bits(x.entries_spec()) + final(s).rem_bits()));
            assert(rem0 =~= x.enc_bits() + final(s).rem_bits());
        }
        Ok(x)
    }
}


/// A single leaf marked for splitting contributes exactly two entries to
/// the next shard set, keyed by its two children, each carrying the
/// original block id. With `get_new_shards`' contract this describes the
/// derived set of a topology whose one marked leaf is `s`.
pub proof fn lemma_new_shards_split(s: ShardIdent, d: ShardDescr)
    requires
        d.before_split,
        !d.before_merge,
        s.split_spec().0 != s.split_spec().1,
    ensures
        new_shards_fold(seq![(s, d)]) == seq![
            (s.split_spec().0, seq![item_block_id(s, d)]),
            (s.split_spec().1, seq![item_block_id(s, d)]),
        ],
{
    let items = seq![(s, d)];
    let id = item_block_id(s, d);
    assert(items.drop_last() =~= Seq::<(ShardIdent, ShardDescr)>::empty());
    assert(new_shards_fold(items.drop_last()) == Seq::<(ShardIdent, Seq<BlockIdExt>)>::empty());
    let acc0 = Seq::<(ShardIdent, Seq<BlockIdExt>)>::empty();
    let acc1 = upsert_replace(acc0, s.split_spec().0, id);
    assert(ident_index(acc0, s.split_spec().0) == -1);
    assert(acc1 == acc0.push((s.split_spec().0, seq![id])));
    assert(ident_index(acc1, s.split_spec().1) == -1) by {
        assert(acc1.len() == 1 && acc1[0].0 == s.split_spec().0);
        assert(acc1.skip(1) =~= Seq::<(ShardIdent, Seq<BlockIdExt>)>::empty());
        assert(ident_index(Seq::<(ShardIdent, Seq<BlockIdExt>)>::empty(), s.split_spec().1)
            == -1);
    };
    let acc2 = upsert_replace(acc1, s.split_spec().1, id);
    assert(acc2 == acc1.push((s.split_spec().1, seq![id])));
    assert(new_shards_fold(items) == acc2);
    assert(acc2 =~= seq![
        (s.split_spec().0, seq![id]),
        (s.split_spec().1, seq![id]),
    ]);
}

/// Two sibling leaves marked for merging contribute exactly one entry to
/// the next shard set, keyed by their parent and carrying both block ids
/// in order. With `get_new_shards`' contract this describes the derived
/// set of a topology whose two marked leaves are the siblings.
pub proof fn lemma_new_shards_merge(
    sl: ShardIdent,
    dl: ShardDescr,
    sr: ShardIdent,
    dr: ShardDescr,
)
    requires
        dl.before_merge,
        !dl.before_split,
        dr.before_merge,
        !dr.before_split,
        sl.merge_spec() == sr.merge_spec(),
    ensures
        new_shards_fold(seq![(sl, dl), (sr, dr)]) == seq![
            (sl.merge_spec(), seq![item_block_id(sl, dl), item_block_id(sr, dr)]),
        ],
{
    let items = seq![(sl, dl), (sr, dr)];
    let idl = item_block_id(sl, dl);
    let idr = item_block_id(sr, dr);
    let p = sl.merge_spec();
    assert(items.drop_last() =~= seq![(sl, dl)]);
    assert(seq![(sl, dl)].drop_last() =~= Seq::<(ShardIdent, ShardDescr)>::empty());
    assert(new_shards_fold(Seq::<(ShardIdent, ShardDescr)>::empty())
        == Seq::<(ShardIdent, Seq<BlockIdExt>)>::empty());
    let acc0 = Seq::<(ShardIdent, Seq<BlockIdExt>)>::empty();
    assert(ident_index(acc0, p) == -1);
    let acc1 = upsert_append(acc0, p, idl);
    assert(acc1 == acc0.push((p, seq![idl])));
    assert(new_shards_fold(seq![(sl, dl)]) == acc1);
    assert(ident_index(acc1, p) == 0) by {
        assert(acc1.len() == 1 && acc1[0].0 == p);
        assert(acc1.skip(1) =~= Seq::<(ShardIdent, Seq<BlockIdExt>)>::empty());
    };
    let acc2 = upsert_append(acc1, p, idr);
    assert(acc2 == acc1.update(0, (p, acc1[0].1.push(idr))));
    assert(new_shards_fold(items) == acc2);
    assert(seq![idl].push(idr) =~= seq![idl, idr]);
    assert(acc2 =~= seq![(p, seq![idl, idr])]);
}

/// A leaf marked for neither splitting nor merging contributes exactly
/// one entry to the next shard set, keyed by itself and carrying its own
/// block id. With `get_new_shards`' contract this describes the derived
/// set of a topology whose one unmarked leaf is `s`.
pub proof fn lemma_new_shards_keep(s: ShardIdent, d: ShardDescr)
    requires
        !d.before_split,
        !d.before_merge,
    ensures
        new_shards_fold(seq![(s, d)]) == seq![(s, seq![item_block_id(s, d)])],
{
    let items = seq![(s, d)];
    let id = item_block_id(s, d);
    assert(items.drop_last() =~= Seq::<(ShardIdent, ShardDescr)>::empty());
    assert(new_shards_fold(items.drop_last()) == Seq::<(ShardIdent, Seq<BlockIdExt>)>::empty());
    let acc0 = Seq::<(ShardIdent, Seq<BlockIdExt>)>::empty();
    assert(ident_index(acc0, s) == -1);
    let acc1 = upsert_replace(acc0, s, id);
    assert(acc1 == acc0.push((s, seq![id])));
    assert(new_shards_fold(items) == acc1);
    assert(acc1 =~= seq![(s, seq![id])]);
}

/// The topology flattened with siblings: every `(workchain, prefix, value,
/// left sibling)` leaf of every trie, in order.
pub open spec fn pairs_flat(entries: Seq<(i32, BinTree<ShardDescr>)>) -> Seq<
    (i32, Seq<bool>, ShardDescr, Option<ShardDescr>),
>
    decreases entries.len(),
{
    if entries.len() == 0 {
        Seq::<(i32, Seq<bool>, ShardDescr, Option<ShardDescr>)>::empty()
    } else {
        pairs_flat(entries.drop_last()) + crate::bintree::pairs_of(entries.last().1).map_values(
            |e: (Seq<bool>, ShardDescr, Option<ShardDescr>)| (entries.last().0, e.0, e.1, e.2),
        )
    }
}

impl ShardHashes {
    /// Every shard of every workchain with its identifier and, for a leaf
    /// that is the right child of a fork of two leaves, its left sibling's
    /// descriptor.
    pub fn iterate_shards_with_siblings(&self) -> (r: Result<
        Vec<(ShardIdent, ShardDescr, Option<ShardDescr>)>,
        BlockError,
    >)
        ensures
            match r {
                Ok(items) => {
                    &&& items@.len() == pairs_flat(self.entries_spec()).len()
                    &&& forall|i: int|
                        0 <= i < items@.len() ==> {
                            let f = pairs_flat(self.entries_spec())[i];
                            &&& (#[trigger] items@[i]).0.wc_spec() == f.0
                            &&& items@[i].0.key_bits() == f.1
                            &&& items@[i].1@ == f.2@
                            &&& (match (items@[i].2, f.3) {
                                (Some(a), Some(b)) => a@ == b@,
                                (None, None) => true,
                                _ => false,
                            })
                        }
                },
                Err(e) => e == BlockError::InvalidArg && !keys_short(self.entries_spec()),
            },
    {
        let mut items: Vec<(ShardIdent, ShardDescr, Option<ShardDescr>)> = Vec::new();
        let mut w: usize = 0;
        while w < self.entries.len()
            invariant
                w <= self.entries@.len(),
                items@.len() == pairs_flat(self.entries_spec().take(w as int)).len(),
                forall|i: int|
                    0 <= i < items@.len() ==> {
                        let f = pairs_flat(self.entries_spec().take(w as int))[i];
                        &&& (#[trigger] items@[i]).0.wc_spec() == f.0
                        &&& items@[i].0.key_bits() == f.1
                        &&& items@[i].1@ == f.2@
                        &&& (match (items@[i].2, f.3) {
                            (Some(a), Some(b)) => a@ == b@,
                            (None, None) => true,
                            _ => false,
                        })
                    },
            decreases self.entries@.len() - w,
        {
            let (wc, tree) = &self.entries[w];
            let triples = tree.pairs_vec();
            let ghost items_before = items@;
            let mut j: usize = 0;
            while j < triples.len()
                invariant
                    j <= triples@.len(),
                    w < self.entries@.len(),
                    wc == self.entries_spec()[w as int].0,
                    triples@.len() == crate::bintree::pairs_of(
                        self.entries_spec()[w as int].1,
                    ).len(),
                    forall|p: int|
                        0 <= p < triples@.len() ==> {
                            let pr = crate::bintree::pairs_of(self.entries_spec()[w as int].1)[p];
                            &&& (#[trigger] triples@[p]).0@ == pr.0
                            &&& *triples@[p].1 == pr.1
                            &&& (match (triples@[p].2, pr.2) {
                                (Some(a), Some(b)) => *a == b,
                                (None, None) => true,
                                _ => false,
                            })
                        },
                    items@.len() == items_before.len() + j,
                    forall|k: int| 0 <= k < items_before.len() ==> #[trigger] items@[k]
                        == items_before[k],
                    forall|p: int|
                        0 <= p < j ==> {
                            let pr = crate::bintree::pairs_of(self.entries_spec()[w as int].1)[p];
                            &&& (#[trigger] items@[items_before.len() + p]).0.wc_spec()
                                == self.entries_spec()[w as int].0
                            &&& items@[items_before.len() + p].0.key_bits() == pr.0
                            &&& items@[items_before.len() + p].1@ == pr.1@
                            &&& (match (items@[items_before.len() + p].2, pr.2) {
                                (Some(a), Some(b)) => a@ == b@,
                                (None, None) => true,
                                _ => false,
                            })
                        },
                decreases triples@.len() - j,
            {
                let (prefix, descr, sibling) = &triples[j];
                let ident = match ShardIdent::with_prefix_bits(*wc, prefix) {
                    Ok(ident) => ident,
                    Err(_) => {
                        proof {
                            crate::bintree::lemma_pairs_depth(self.entries_spec()[w as int].1);
                            assert(!keys_short(self.entries_spec())) by {
                                assert(self.entries_spec()[w as int].1.height() > MAX_SPLIT_DEPTH);
                            };
                        }
                        return Err(BlockError::InvalidArg);
                    },
                };
                let sib = match sibling {
                    Some(s) => Some((*s).clone()),
                    None => None,
                };
                items.push((ident, (*descr).clone(), sib));
                j = j + 1;
            }
            proof {
                let fl = pairs_flat(self.entries_spec().take(w as int + 1));
                let fl0 = pairs_flat(self.entries_spec().take(w as int));
                assert(self.entries_spec().take(w as int + 1).drop_last() =~= self.entries_spec().take(
                    w as int,
                ));
                assert(self.entries_spec().take(w as int + 1).last()
                    == self.entries_spec()[w as int]);
                let prs = crate::bintree::pairs_of(self.entries_spec()[w as int].1);
                let mapped = prs.map_values(
                    |e: (Seq<bool>, ShardDescr, Option<ShardDescr>)| (
                        self.entries_spec()[w as int].0,
                        e.0,
                        e.1,
                        e.2,
                    ),
                );
                assert(fl == fl0 + mapped);
                assert forall|i: int| 0 <= i < items@.len() implies {
                    let f = fl[i];
                    &&& (#[trigger] items@[i]).0.wc_spec() == f.0
                    &&& items@[i].0.key_bits() == f.1
                    &&& items@[i].1@ == f.2@
                    &&& (match (items@[i].2, f.3) {
                        (Some(a), Some(b)) => a@ == b@,
                        (None, None) => true,
                        _ => false,
                    })
                } by {
                    if i < items_before.len() {
                        assert(fl[i] == fl0[i]);
                    } else {
                        let p = i - items_before.len();
                        assert(items@[items_before.len() + p].0.key_bits() == prs[p].0);
                        assert(fl[i] == mapped[p]);
                        assert(mapped[p] == (self.entries_spec()[w as int].0, prs[p].0, prs[p].1, prs[
                            p].2));
                    }
                };
            }
            w = w + 1;
        }
        proof {
            assert(self.entries_spec().take(self.entries_spec().len() as int)
                =~= self.entries_spec());
        }
        Ok(items)
    }
}

} // verus!
