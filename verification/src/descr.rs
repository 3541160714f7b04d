//! Per-shard descriptors and their collator assignments: the state snapshot
//! kept for every shard chain, with its multi-generation wire format.

use vstd::prelude::*;
use vstd::arithmetic::power2::{pow2, lemma2_to64, lemma2_to64_rest};

use crate::cells::{bits_val, uint_bits, BuilderData, SliceData, Cell, CellData};
use crate::error::BlockError;
use crate::types::{CurrencyCollection, UInt256, var_uint_bits, write_var_uint, read_var_uint, min_bytes};

verus! {

broadcast use vstd::seq::group_seq_axioms;

/// No serialization options.
pub const SERDE_OPTS_EMPTY: u8 = 0;

/// Common-message encoding mode.
pub const SERDE_OPTS_COMMON_MESSAGE: u8 = 0x01;

/// Extended per-range mempool-node lists.
pub const SERDE_OPTS_MEMPOOL_NODES: u8 = 0x02;

/// The most mempool entries one collator range can carry on the wire.
pub const MEMPOOL_MAX_LEN: usize = 9;

/// Copies a vector of plain values.
pub fn copy_vec<T: Copy>(v: &Vec<T>) -> (r: Vec<T>)
    ensures
        r@ == v@,
{
    let mut r: Vec<T> = Vec::new();
    let mut i: usize = 0;
    while i < v.len()
        invariant
            i <= v@.len(),
            r@ =~= v@.take(i as int),
        decreases v@.len() - i,
    {
        r.push(v[i]);
        proof {
            assert(r@ =~= v@.take(i as int + 1));
        }
        i = i + 1;
    }
    proof {
        assert(v@.take(v@.len() as int) =~= v@);
    }
    r
}

/// A shard's scheduled future topology change, if any.
#[derive(Clone, Copy, Debug, Default, PartialEq, Eq, Structural, Hash)]
pub enum FutureSplitMerge {
    /// No change scheduled.
    #[default]
    Unset,
    /// A split is scheduled in the given time window.
    Split { split_utime: u32, interval: u32 },
    /// A merge is scheduled in the given time window.
    Merge { merge_utime: u32, interval: u32 },
}

impl FutureSplitMerge {
    /// The wire form: a presence bit, then a kind bit and the window.
    pub open spec fn enc_bits(self) -> Seq<bool> {
        match self {
            FutureSplitMerge::Unset => seq![false],
            FutureSplitMerge::Split { split_utime, interval } => seq![true, false] + uint_bits(
                split_utime as u64,
                32,
            ) + uint_bits(interval as u64, 32),
            FutureSplitMerge::Merge { merge_utime, interval } => seq![true, true] + uint_bits(
                merge_utime as u64,
                32,
            ) + uint_bits(interval as u64, 32),
        }
    }

    /// Writes the schedule.
    pub fn write_to(&self, b: &mut BuilderData) -> (r: Result<(), BlockError>)
        ensures
            r.is_ok(),
            final(b).bits_spec() == old(b).bits_spec() + self.enc_bits(),
            final(b).refs_spec() == old(b).refs_spec(),
    {
        proof {
            lemma2_to64();
        }
        match self {
            FutureSplitMerge::Unset => {
                b.append_bit(false);
                proof {
                    assert(final(b).bits_spec() =~= old(b).bits_spec() + self.enc_bits());
                }
            },
            FutureSplitMerge::Split { split_utime, interval } => {
                b.append_bit(true);
                b.append_bit(false);
                b.append_bits(*split_utime as u64, 32);
                b.append_bits(*interval as u64, 32);
                proof {
                    assert(final(b).bits_spec() =~= old(b).bits_spec() + self.enc_bits());
                }
            },
            FutureSplitMerge::Merge { merge_utime, interval } => {
                b.append_bit(true);
                b.append_bit(true);
                b.append_bits(*merge_utime as u64, 32);
                b.append_bits(*interval as u64, 32);
                proof {
                    assert(final(b).bits_spec() =~= old(b).bits_spec() + self.enc_bits());
                }
            },
        }
        Ok(())
    }

    /// Reads a schedule; consumes exactly its encoding on success, and a
    /// stream that begins with any schedule's encoding yields exactly that
    /// schedule.
    pub fn read_from(s: &mut SliceData) -> (r: Result<FutureSplitMerge, BlockError>)
        ensures
            match r {
                Ok(x) => {
                    &&& old(s).rem_bits() == x.enc_bits() + final(s).rem_bits()
                    &&& final(s).rem_refs() == old(s).rem_refs()
                },
                Err(e) => e == BlockError::CellUnderflow,
            },
            forall|v: FutureSplitMerge|
                (#[trigger] v.enc_bits()).is_prefix_of(old(s).rem_bits()) ==> r == Ok::<
                    FutureSplitMerge,
                    BlockError,
                >(v),
    {
        proof {
            lemma2_to64();
        }
        let ghost rem0 = s.rem_bits();
        let present = s.get_next_bit()?;
        if !present {
            let x = FutureSplitMerge::Unset;
            proof {
                assert(rem0 =~= x.enc_bits() + rem0.skip(1));
                assert forall|v: FutureSplitMerge|
                    (#[trigger] v.enc_bits()).is_prefix_of(rem0) implies v == x by {
                    assert(v.enc_bits()[0] == rem0[0]);
                };
            }
            return Ok(x);
        }
        let kind = match s.get_next_bit() {
            Ok(b) => b,
            Err(e) => {
                proof {
                    assert forall|v: FutureSplitMerge|
                        !(#[trigger] v.enc_bits()).is_prefix_of(rem0) by {
                        if v.enc_bits().is_prefix_of(rem0) {
                            match v {
                                FutureSplitMerge::Unset => {
                                    assert(v.enc_bits()[0] == rem0[0]);
                                },
                                FutureSplitMerge::Split { .. } => {
                                    assert(v.enc_bits().len() == 66);
                                },
                                FutureSplitMerge::Merge { .. } => {
                                    assert(v.enc_bits().len() == 66);
                                },
                            }
                        }
                    };
                }
                return Err(e);
            },
        };
        let ghost rem1 = s.rem_bits();
        let utime = match s.get_next_int(32) {
            Ok(u) => u,
            Err(e) => {
                proof {
                    assert forall|v: FutureSplitMerge|
                        !(#[trigger] v.enc_bits()).is_prefix_of(rem0) by {
                        if v.enc_bits().is_prefix_of(rem0) {
                            match v {
                                FutureSplitMerge::Unset => {
                                    assert(v.enc_bits()[0] == rem0[0]);
                                },
                                FutureSplitMerge::Split { .. } => {
                                    assert(v.enc_bits().len() == 66);
                                },
                                FutureSplitMerge::Merge { .. } => {
                                    assert(v.enc_bits().len() == 66);
                                },
                            }
                        }
                    };
                }
                return Err(e);
            },
        };
        let ghost rem2 = s.rem_bits();
        let interval = match s.get_next_int(32) {
            Ok(u) => u,
            Err(e) => {
                proof {
                    assert forall|v: FutureSplitMerge|
                        !(#[trigger] v.enc_bits()).is_prefix_of(rem0) by {
                        if v.enc_bits().is_prefix_of(rem0) {
                            match v {
                                FutureSplitMerge::Unset => {
                                    assert(v.enc_bits()[0] == rem0[0]);
                                },
                                FutureSplitMerge::Split { .. } => {
                                    assert(v.enc_bits().len() == 66);
                                },
                                FutureSplitMerge::Merge { .. } => {
                                    assert(v.enc_bits().len() == 66);
                                },
                            }
                        }
                    };
                }
                return Err(e);
            },
        };
        let x = if kind {
            FutureSplitMerge::Merge { merge_utime: utime as u32, interval: interval as u32 }
        } else {
            FutureSplitMerge::Split { split_utime: utime as u32, interval: interval as u32 }
        };
        proof {
            crate::cells::lemma_read_exact(rem1, 32, utime);
            crate::cells::lemma_read_exact(rem2, 32, interval);
            assert(rem0 =~= x.enc_bits() + rem2.skip(32));
            assert forall|v: FutureSplitMerge|
                (#[trigger] v.enc_bits()).is_prefix_of(rem0) implies v == x by {
                assert(v.enc_bits()[0] == rem0[0]);
                match v {
                    FutureSplitMerge::Unset => {},
                    FutureSplitMerge::Split { split_utime: vu, interval: vi } => {
                        assert(v.enc_bits()[1] == rem0[1]);
                        assert(!kind);
                        assert(uint_bits(vu as u64, 32).is_prefix_of(rem1)) by {
                            assert forall|q: int| 0 <= q < 32 implies uint_bits(vu as u64, 32)[q]
                                == rem1[q] by {
                                assert(v.enc_bits()[2 + q] == rem0[2 + q]);
                            };
                            assert(uint_bits(vu as u64, 32) =~= rem1.take(32));
                        };
                        crate::cells::lemma_uint_prefix(vu as u64, 32, rem1);
                        assert(uint_bits(vi as u64, 32).is_prefix_of(rem2)) by {
                            assert forall|q: int| 0 <= q < 32 implies uint_bits(vi as u64, 32)[q]
                                == rem2[q] by {
                                assert(v.enc_bits()[34 + q] == rem0[34 + q]);
                                assert(rem2[q] == rem0[34 + q]);
                            };
                            assert(uint_bits(vi as u64, 32) =~= rem2.take(32));
                        };
                        crate::cells::lemma_uint_prefix(vi as u64, 32, rem2);
                    },
                    FutureSplitMerge::Merge { merge_utime: vu, interval: vi } => {
                        assert(v.enc_bits()[1] == rem0[1]);
                        assert(kind);
                        assert(uint_bits(vu as u64, 32).is_prefix_of(rem1)) by {
                            assert forall|q: int| 0 <= q < 32 implies uint_bits(vu as u64, 32)[q]
                                == rem1[q] by {
                                assert(v.enc_bits()[2 + q] == rem0[2 + q]);
                            };
                            assert(uint_bits(vu as u64, 32) =~= rem1.take(32));
                        };
                        crate::cells::lemma_uint_prefix(vu as u64, 32, rem1);
                        assert(uint_bits(vi as u64, 32).is_prefix_of(rem2)) by {
                            assert forall|q: int| 0 <= q < 32 implies uint_bits(vi as u64, 32)[q]
                                == rem2[q] by {
                                assert(v.enc_bits()[34 + q] == rem0[34 + q]);
                                assert(rem2[q] == rem0[34 + q]);
                            };
                            assert(uint_bits(vi as u64, 32) =~= rem2.take(32));
                        };
                        crate::cells::lemma_uint_prefix(vi as u64, 32, rem2);
                    },
                }
            };
        }
        Ok(x)
    }
}

/// The mempool list of a collator range: a small vector of node indices
/// that spills to the heap only past its inline capacity. The vector type
/// and its operations come from the smallvec crate; Verus sees them only
/// through the contracts below.
#[verifier::external_body]
#[derive(Debug)]
pub struct Mempool {
    inner: smallvec::SmallVec<[u16; 9]>,
}

/// The elements a mempool vector holds, in order.
pub uninterp spec fn mempool_view(v: Mempool) -> Seq<u16>;

impl Mempool {
    /// Relies on smallvec::SmallVec::new: creates an empty vector.
    #[verifier::external_body]
    pub fn new() -> (r: Mempool)
        ensures
            mempool_view(r) == Seq::<u16>::empty(),
    {
        Mempool { inner: smallvec::SmallVec::new() }
    }

    /// Relies on smallvec::SmallVec::push: appends one element at the end.
    #[verifier::external_body]
    pub fn push(&mut self, x: u16)
        ensures
            mempool_view(*final(self)) == mempool_view(*old(self)).push(x),
    {
        self.inner.push(x)
    }

    /// Relies on smallvec::SmallVec::len: the number of elements held.
    #[verifier::external_body]
    pub fn len(&self) -> (r: usize)
        ensures
            r == mempool_view(*self).len(),
    {
        self.inner.len()
    }

    /// Relies on smallvec's Index impl: the element at a position.
    #[verifier::external_body]
    pub fn get(&self, i: usize) -> (r: u16)
        requires
            i < mempool_view(*self).len(),
        ensures
            r == mempool_view(*self)[i as int],
    {
        self.inner[i]
    }
}

impl Clone for Mempool {
    /// Relies on smallvec::SmallVec::clone: copies the elements in order.
    #[verifier::external_body]
    fn clone(&self) -> (r: Self)
        ensures
            mempool_view(r) == mempool_view(*self),
    {
        Mempool { inner: self.inner.clone() }
    }
}

/// The collation assignment of one block range: the collator, its mempool
/// nodes, and the first and last block numbers to collate.
#[derive(Debug)]
pub struct CollatorRange {
    pub collator: u16,
    pub mempool: Mempool,
    pub start: u32,
    pub finish: u32,
}

impl Clone for CollatorRange {
    /// A copy whose mempool holds the same elements.
    fn clone(&self) -> (r: Self)
        ensures
            r.collator == self.collator,
            r.start == self.start,
            r.finish == self.finish,
            mempool_view(r.mempool) == mempool_view(self.mempool),
    {
        CollatorRange {
            collator: self.collator,
            mempool: self.mempool.clone(),
            start: self.start,
            finish: self.finish,
        }
    }
}

impl Default for CollatorRange {
    /// The zero range with no mempool nodes.
    fn default() -> (r: Self)
        ensures
            r.collator == 0,
            r.start == 0,
            r.finish == 0,
            mempool_view(r.mempool) == Seq::<u16>::empty(),
    {
        CollatorRange { collator: 0, mempool: Mempool::new(), start: 0, finish: 0 }
    }
}

/// The 16-bit encodings of a list of mempool nodes, in order.
pub open spec fn mempool_bits(s: Seq<u16>) -> Seq<bool>
    decreases s.len(),
{
    if s.len() == 0 {
        Seq::<bool>::empty()
    } else {
        uint_bits(s[0] as u64, 16) + mempool_bits(s.skip(1))
    }
}

proof fn lemma_mempool_snoc(s: Seq<u16>, i: int)
    requires
        0 <= i < s.len(),
    ensures
        mempool_bits(s.take(i + 1)) == mempool_bits(s.take(i)) + uint_bits(s[i] as u64, 16),
    decreases i,
{
    if i == 0 {
        assert(mempool_bits(Seq::<u16>::empty()) == Seq::<bool>::empty());
        assert(s.take(1) =~= seq![s[0]]);
        assert(s.take(1).skip(1) =~= Seq::<u16>::empty());
        assert(s.take(0) =~= Seq::<u16>::empty());
        assert(mempool_bits(s.take(1)) =~= uint_bits(s.take(1)[0] as u64, 16) + mempool_bits(
            s.take(1).skip(1),
        ));
        assert(mempool_bits(s.take(1)) =~= uint_bits(s[0] as u64, 16));
        assert(mempool_bits(s.take(0)) + uint_bits(s[0] as u64, 16) =~= uint_bits(s[0] as u64, 16));
    } else {
        lemma_mempool_snoc(s.skip(1), i - 1);
        assert(s.take(i + 1).skip(1) =~= s.skip(1).take(i));
        assert(s.take(i).skip(1) =~= s.skip(1).take(i - 1));
        assert(s.take(i + 1)[0] == s[0]);
        assert(s.take(i)[0] == s[0]);
        assert(s.skip(1)[i - 1] == s[i]);
        assert(mempool_bits(s.take(i + 1)) =~= uint_bits(s[0] as u64, 16) + mempool_bits(
            s.skip(1).take(i),
        ));
        assert(mempool_bits(s.take(i)) + uint_bits(s[i] as u64, 16) =~= uint_bits(s[0] as u64, 16)
            + (mempool_bits(s.skip(1).take(i - 1)) + uint_bits(s.skip(1)[i - 1] as u64, 16)));
    }
}

impl CollatorRange {
    /// The block numbers this range covers.
    pub fn range(&self) -> (r: core::ops::Range<u32>)
        ensures
            r.start == self.start,
            r.end == self.finish,
    {
        self.start..self.finish
    }

    /// The mempool nodes as a plain vector.
    pub fn mempool_nodes(&self) -> (r: Vec<u16>)
        ensures
            r@ == mempool_view(self.mempool),
    {
        let n = self.mempool.len();
        let mut r: Vec<u16> = Vec::new();
        let mut i: usize = 0;
        while i < n
            invariant
                i <= n,
                n == mempool_view(self.mempool).len(),
                r@ =~= mempool_view(self.mempool).take(i as int),
            decreases n - i,
        {
            r.push(self.mempool.get(i));
            proof {
                assert(r@ =~= mempool_view(self.mempool).take(i as int + 1));
            }
            i = i + 1;
        }
        proof {
            assert(mempool_view(self.mempool).take(n as int) =~= mempool_view(self.mempool));
        }
        r
    }

    /// The wire form under the given options: collator, the mempool list
    /// when mempool nodes are enabled, and the block range.
    pub open spec fn enc_bits(self, opts: u8) -> Seq<bool> {
        let mp = mempool_view(self.mempool);
        uint_bits(self.collator as u64, 16) + (if opts & SERDE_OPTS_MEMPOOL_NODES != 0 {
            uint_bits(mp.len() as u64, 8) + mempool_bits(mp)
        } else {
            Seq::<bool>::empty()
        }) + uint_bits(self.start as u64, 32) + uint_bits(self.finish as u64, 32)
    }

    /// Writes the range; fails exactly when the mempool list is too long
    /// for the wire.
    pub fn write_with_opts(&self, b: &mut BuilderData, opts: u8) -> (r: Result<(), BlockError>)
        ensures
            match r {
                Ok(_) => {
                    &&& mempool_view(self.mempool).len() <= MEMPOOL_MAX_LEN
                    &&& final(b).bits_spec() == old(b).bits_spec() + self.enc_bits(opts)
                    &&& final(b).refs_spec() == old(b).refs_spec()
                },
                Err(e) => e == BlockError::TooManyMempoolNodes && mempool_view(
                    self.mempool,
                ).len() > MEMPOOL_MAX_LEN,
            },
    {
        proof {
            lemma2_to64();
        }
        let n = self.mempool.len();
        if n > MEMPOOL_MAX_LEN {
            return Err(BlockError::TooManyMempoolNodes);
        }
        b.append_bits(self.collator as u64, 16);
        if opts & SERDE_OPTS_MEMPOOL_NODES != 0 {
            b.append_bits(n as u64, 8);
            let ghost mp = mempool_view(self.mempool);
            let mut i: usize = 0;
            while i < n
                invariant
                    i <= n,
                    n == mp.len(),
                    mp == mempool_view(self.mempool),
                    self.collator == self.collator,
                    b.bits_spec() =~= old(b).bits_spec() + uint_bits(self.collator as u64, 16)
                        + uint_bits(mp.len() as u64, 8) + mempool_bits(mp.take(i as int)),
                    b.refs_spec() == old(b).refs_spec(),
                decreases n - i,
            {
                let x = self.mempool.get(i);
                proof {
                    lemma2_to64();
                }
                b.append_bits(x as u64, 16);
                proof {
                    lemma_mempool_snoc(mp, i as int);
                    assert(b.bits_spec() =~= old(b).bits_spec() + uint_bits(
                        self.collator as u64,
                        16,
                    ) + uint_bits(mp.len() as u64, 8) + mempool_bits(mp.take(i as int + 1)));
                }
                i = i + 1;
            }
            proof {
                assert(mp.take(n as int) =~= mp);
            }
        }
        b.append_bits(self.start as u64, 32);
        b.append_bits(self.finish as u64, 32);
        proof {
            assert(final(b).bits_spec() =~= old(b).bits_spec() + self.enc_bits(opts));
        }
        Ok(())
    }

    /// Writes the range in the plain mode.
    pub fn write_to(&self, b: &mut BuilderData) -> (r: Result<(), BlockError>)
        ensures
            match r {
                Ok(_) => {
                    &&& mempool_view(self.mempool).len() <= MEMPOOL_MAX_LEN
                    &&& final(b).bits_spec() == old(b).bits_spec() + self.enc_bits(0)
                    &&& final(b).refs_spec() == old(b).refs_spec()
                },
                Err(e) => e == BlockError::TooManyMempoolNodes && mempool_view(
                    self.mempool,
                ).len() > MEMPOOL_MAX_LEN,
            },
    {
        self.write_with_opts(b, 0)
    }

    /// Reads a range under the given options; consumes exactly the
    /// encoding of the result on success.
    #[verifier::rlimit(100)]
    pub fn construct_from_with_opts(s: &mut SliceData, opts: u8) -> (r: Result<
        CollatorRange,
        BlockError,
    >)
        ensures
            match r {
                Ok(x) => {
                    &&& old(s).rem_bits() == x.enc_bits(opts) + final(s).rem_bits()
                    &&& final(s).rem_refs() == old(s).rem_refs()
                    &&& mempool_view(x.mempool).len() <= MEMPOOL_MAX_LEN
                },
                Err(e) => e == BlockError::CellUnderflow || e == BlockError::TooManyMempoolNodes,
            },
            forall|col: u16, mp: Seq<u16>, st: u32, fi: u32|
                mp.len() <= MEMPOOL_MAX_LEN && (opts & SERDE_OPTS_MEMPOOL_NODES == 0 ==> mp.len()
                    == 0) && (#[trigger] collator_range_enc(col, mp, st, fi, opts)).is_prefix_of(
                    old(s).rem_bits(),
                ) ==> (r matches Ok(x2) && x2.collator == col && mempool_view(x2.mempool) == mp
                    && x2.start == st && x2.finish == fi),
    {
        proof {
            lemma2_to64();
        }
        let ghost rem0 = s.rem_bits();
        proof {
            assert forall|col: u16, mp: Seq<u16>, st: u32, fi: u32|
                mp.len() <= MEMPOOL_MAX_LEN && (#[trigger] collator_range_enc(
                    col,
                    mp,
                    st,
                    fi,
                    opts,
                )).is_prefix_of(rem0) implies {
                let memoff: int = if opts & SERDE_OPTS_MEMPOOL_NODES != 0 {
                    8 + 16 * mp.len() as int
                } else {
                    0
                };
                &&& rem0.len() >= 16
                &&& bits_val(rem0.take(16)) == col
                &&& (opts & SERDE_OPTS_MEMPOOL_NODES != 0 ==> rem0.skip(16).len() >= 8
                    && bits_val(rem0.skip(16).take(8)) == mp.len() && mempool_bits(
                    mp,
                ).is_prefix_of(rem0.skip(24)))
                &&& uint_bits(st as u64, 32).is_prefix_of(rem0.skip(16 + memoff))
                &&& uint_bits(fi as u64, 32).is_prefix_of(rem0.skip(48 + memoff))
            } by {
                lemma_collator_range_enc_parts(col, mp, st, fi, opts, rem0);
            };
        }
        let collator = s.get_next_int(16)?;
        let mut mempool = Mempool::new();
        let ghost rem_mp = s.rem_bits();
        if opts & SERDE_OPTS_MEMPOOL_NODES != 0 {
            let ghost rem1 = s.rem_bits();
            let n = s.get_next_int(8)?;
            if n > MEMPOOL_MAX_LEN as u64 {
                proof {
                    assert forall|col: u16, mp: Seq<u16>, st: u32, fi: u32|
                        !(mp.len() <= MEMPOOL_MAX_LEN && (#[trigger] collator_range_enc(
                            col,
                            mp,
                            st,
                            fi,
                            opts,
                        )).is_prefix_of(rem0)) by {
                        if mp.len() <= MEMPOOL_MAX_LEN && collator_range_enc(
                            col,
                            mp,
                            st,
                            fi,
                            opts,
                        ).is_prefix_of(rem0) {
                            assert(bits_val(rem0.skip(16).take(8)) == mp.len());
                            assert(rem1 == rem0.skip(16));
                        }
                    };
                }
                return Err(BlockError::TooManyMempoolNodes);
            }
            let n_us: usize = n as usize;
            let mut i: usize = 0;
            let ghost rem2 = s.rem_bits();
            proof {
                assert forall|col: u16, mp: Seq<u16>, st: u32, fi: u32|
                    mp.len() <= MEMPOOL_MAX_LEN && (#[trigger] collator_range_enc(
                        col,
                        mp,
                        st,
                        fi,
                        opts,
                    )).is_prefix_of(rem0) implies (mp.len() == n_us && mempool_view(mempool)
                    == mp.take(0) && mempool_bits(mp.skip(0)).is_prefix_of(rem2)
                    && rem2.len() >= 16 * mp.len()) by {
                    lemma2_to64();
                    lemma_collator_range_enc_parts(col, mp, st, fi, opts, rem0);
                    assert(rem1 == rem0.skip(16));
                    assert(rem2 =~= rem0.skip(24));
                    assert(mp.skip(0) =~= mp);
                    assert(mp.take(0) =~= Seq::<u16>::empty());
                    lemma_mempool_bits_len(mp);
                };
                assert(rem2 =~= rem0.skip(24));
            }
            while i < n_us
                invariant
                    i <= n_us,
                    n_us <= MEMPOOL_MAX_LEN,
                    opts & SERDE_OPTS_MEMPOOL_NODES != 0,
                    rem0 == old(s).rem_bits(),
                    rem1 == rem0.skip(16),
                    n_us as nat == bits_val(rem0.skip(16).take(8)),
                    mempool_view(mempool).len() == i,
                    rem2 == rem1.skip(8),
                    s.rem_bits().len() <= rem2.len(),
                    24 + 16 * (i as int) <= rem0.len(),
                    s.rem_bits() =~= rem0.skip(24 + 16 * (i as int)),
                    rem2 =~= mempool_bits(mempool_view(mempool)) + s.rem_bits(),
                    s.rem_refs() == old(s).rem_refs(),
                    forall|col: u16, mp: Seq<u16>, st: u32, fi: u32|
                        mp.len() <= MEMPOOL_MAX_LEN && (#[trigger] collator_range_enc(
                            col,
                            mp,
                            st,
                            fi,
                            opts,
                        )).is_prefix_of(rem0) ==> (mp.len() == n_us && i <= mp.len()
                            && mempool_view(mempool) == mp.take(i as int) && mempool_bits(
                            mp.skip(i as int),
                        ).is_prefix_of(s.rem_bits()) && s.rem_bits().len() >= 16 * (mp.len() - i)),
                decreases n_us - i,
            {
                let ghost before = s.rem_bits();
                let ghost mp_before = mempool_view(mempool);
                let x = s.get_next_int(16)?;
                mempool.push(x as u16);
                proof {
                    lemma2_to64();
                    crate::cells::lemma_read_exact(before, 16, x);
                    lemma_mempool_append(mp_before, x as u16);
                    assert(rem2 =~= mempool_bits(mempool_view(mempool)) + s.rem_bits());
                    assert(s.rem_bits() =~= before.skip(16));
                    assert(before.len() >= 16);
                    assert(before.len() == rem0.len() - (24 + 16 * (i as int)));
                    assert(24 + 16 * (i as int + 1) <= rem0.len());
                    assert(s.rem_bits() =~= rem0.skip(24 + 16 * (i as int)).skip(16));
                    assert(s.rem_bits() =~= rem0.skip(24 + 16 * (i as int + 1)));
                    assert forall|col: u16, mp: Seq<u16>, st: u32, fi: u32|
                        mp.len() <= MEMPOOL_MAX_LEN && (#[trigger] collator_range_enc(
                            col,
                            mp,
                            st,
                            fi,
                            opts,
                        )).is_prefix_of(rem0) implies (mp.len() == n_us && i + 1 <= mp.len()
                        && mempool_view(mempool) == mp.take(i as int + 1) && mempool_bits(
                        mp.skip(i as int + 1),
                    ).is_prefix_of(s.rem_bits()) && s.rem_bits().len() >= 16 * (mp.len() - (i
                        + 1))) by {
                        lemma2_to64();
                        lemma_collator_range_enc_parts(col, mp, st, fi, opts, rem0);
                        assert(bits_val(rem0.skip(16).take(8)) == mp.len());
                        assert(i < mp.len());
                        lemma_mempool_bits_len(mp.skip(i as int + 1));
                        let t = mp.skip(i as int);
                        assert(t[0] == mp[i as int]);
                        assert(t.skip(1) =~= mp.skip(i as int + 1));
                        assert(mempool_bits(t) =~= uint_bits(mp[i as int] as u64, 16)
                            + mempool_bits(mp.skip(i as int + 1)));
                        crate::cells::lemma_prefix_parts(
                            uint_bits(mp[i as int] as u64, 16),
                            mempool_bits(mp.skip(i as int + 1)),
                            before,
                        );
                        crate::cells::lemma_uint_prefix(mp[i as int] as u64, 16, before);
                        assert(x as u16 == mp[i as int]);
                        assert(mp_before.push(x as u16) =~= mp.take(i as int).push(mp[i as int]));
                        assert(mp.take(i as int).push(mp[i as int]) =~= mp.take(i as int + 1));
                        assert(before.skip(16) =~= s.rem_bits());
                    };
                }
                i = i + 1;
            }
            proof {
                crate::cells::lemma_read_exact(rem1, 8, n);
                assert(rem_mp == rem1);
                assert(uint_bits(n, 8) == rem1.take(8));
                assert(mempool_view(mempool).len() as u64 == n);
                assert(rem1 =~= rem1.take(8) + rem1.skip(8));
                assert(rem2 =~= mempool_bits(mempool_view(mempool)) + s.rem_bits());
                assert(rem_mp =~= uint_bits(mempool_view(mempool).len() as u64, 8) + mempool_bits(
                    mempool_view(mempool),
                ) + s.rem_bits());
            }
        }
        let ghost rem3 = s.rem_bits();
        proof {
            assert forall|col: u16, mp: Seq<u16>, st: u32, fi: u32|
                mp.len() <= MEMPOOL_MAX_LEN && (opts & SERDE_OPTS_MEMPOOL_NODES == 0 ==> mp.len()
                    == 0) && (#[trigger] collator_range_enc(col, mp, st, fi, opts)).is_prefix_of(
                    rem0,
                ) implies (rem3 =~= rem0.skip(
                16 + (if opts & SERDE_OPTS_MEMPOOL_NODES != 0 {
                    8 + 16 * mp.len() as int
                } else {
                    0
                }),
            )) && rem3.len() >= 64 by {
                lemma2_to64();
                lemma_collator_range_enc_parts(col, mp, st, fi, opts, rem0);
                if opts & SERDE_OPTS_MEMPOOL_NODES != 0 {
                    assert(mp.len() == bits_val(rem0.skip(16).take(8)));
                    assert(rem3 =~= rem0.skip(24 + 16 * mp.len() as int));
                    assert(rem3 =~= rem0.skip(16 + (8 + 16 * mp.len() as int)));
                } else {
                    assert(rem3 == rem_mp);
                    assert(rem3 =~= rem0.skip(16));
                }
                let memoff: int = if opts & SERDE_OPTS_MEMPOOL_NODES != 0 {
                    8 + 16 * mp.len() as int
                } else {
                    0
                };
                assert(uint_bits(fi as u64, 32).is_prefix_of(rem0.skip(48 + memoff)));
                assert(rem0.len() >= 80 + memoff);
            };
        }
        let start = s.get_next_int(32)?;
        let ghost rem4 = s.rem_bits();
        let finish = s.get_next_int(32)?;
        let x = CollatorRange {
            collator: collator as u16,
            mempool,
            start: start as u32,
            finish: finish as u32,
        };
        proof {
            crate::cells::lemma_read_exact(rem0, 16, collator);
            crate::cells::lemma_read_exact(rem3, 32, start);
            crate::cells::lemma_read_exact(rem4, 32, finish);
            let mv = mempool_view(x.mempool);
            assert(uint_bits(x.collator as u64, 16) == rem0.take(16));
            assert(uint_bits(x.start as u64, 32) == rem3.take(32));
            assert(uint_bits(x.finish as u64, 32) == rem4.take(32));
            assert(rem_mp == rem0.skip(16));
            assert(rem4 == rem3.skip(32));
            assert(rem3 =~= rem3.take(32) + (rem4.take(32) + rem4.skip(32)));
            assert(rem0 =~= rem0.take(16) + rem_mp);
            if opts & SERDE_OPTS_MEMPOOL_NODES != 0 {
                assert(rem_mp =~= uint_bits(mv.len() as u64, 8) + mempool_bits(mv) + rem3);
                assert(rem_mp =~= (uint_bits(mv.len() as u64, 8) + mempool_bits(mv)) + rem3);
            } else {
                assert(rem_mp == rem3);
                assert(mv =~= Seq::<u16>::empty());
                assert(mempool_bits(mv) == Seq::<bool>::empty());
                assert(rem_mp =~= Seq::<bool>::empty() + rem3);
            }
            let mid = if opts & SERDE_OPTS_MEMPOOL_NODES != 0 {
                uint_bits(mv.len() as u64, 8) + mempool_bits(mv)
            } else {
                Seq::<bool>::empty()
            };
            assert(rem0 == rem0.take(16) + (mid + rem3));
            assert(rem3 == rem3.take(32) + (rem4.take(32) + rem4.skip(32)));
            assert(rem0 == rem0.take(16) + (mid + (rem3.take(32) + (rem4.take(32) + rem4.skip(
                32,
            )))));
            assert(x.enc_bits(opts) == ((rem0.take(16) + mid) + rem3.take(32)) + rem4.take(32));
            assert(rem0 =~= x.enc_bits(opts) + final(s).rem_bits());
            assert forall|col: u16, mp: Seq<u16>, st: u32, fi: u32|
                mp.len() <= MEMPOOL_MAX_LEN && (opts & SERDE_OPTS_MEMPOOL_NODES == 0 ==> mp.len()
                    == 0) && (#[trigger] collator_range_enc(col, mp, st, fi, opts)).is_prefix_of(
                    rem0,
                ) implies (x.collator == col && mempool_view(x.mempool) == mp && x.start == st
                && x.finish == fi) by {
                lemma2_to64();
                lemma_collator_range_enc_parts(col, mp, st, fi, opts, rem0);
                let memoff: int = if opts & SERDE_OPTS_MEMPOOL_NODES != 0 {
                    8 + 16 * mp.len() as int
                } else {
                    0
                };
                if opts & SERDE_OPTS_MEMPOOL_NODES != 0 {
                    assert(bits_val(rem0.skip(16).take(8)) == mp.len());
                    assert(mempool_view(x.mempool).len() == mp.len());
                    assert(mempool_view(x.mempool) == mp.take(mp.len() as int));
                    assert(mp.take(mp.len() as int) =~= mp);
                } else {
                    assert(mempool_view(x.mempool) =~= Seq::<u16>::empty());
                    assert(mempool_view(x.mempool) =~= mp);
                }
                assert(rem3 =~= rem0.skip(16 + memoff));
                crate::cells::lemma_uint_prefix(st as u64, 32, rem3);
                assert(rem4 =~= rem3.skip(32));
                assert(rem4 =~= rem0.skip(16 + memoff).skip(32));
                assert(rem4 =~= rem0.skip(48 + memoff));
                crate::cells::lemma_uint_prefix(fi as u64, 32, rem4);
            };
        }
        Ok(x)
    }

    /// Reads a range in the plain mode.
    pub fn construct_from(s: &mut SliceData) -> (r: Result<CollatorRange, BlockError>)
        ensures
            match r {
                Ok(x) => {
                    &&& old(s).rem_bits() == x.enc_bits(0) + final(s).rem_bits()
                    &&& final(s).rem_refs() == old(s).rem_refs()
                    &&& mempool_view(x.mempool).len() <= MEMPOOL_MAX_LEN
                },
                Err(e) => e == BlockError::CellUnderflow || e == BlockError::TooManyMempoolNodes,
            },
            forall|col: u16, st: u32, fi: u32|
                (#[trigger] collator_range_enc(col, Seq::<u16>::empty(), st, fi, 0)).is_prefix_of(
                    old(s).rem_bits(),
                ) ==> (r matches Ok(x2) && x2.collator == col && mempool_view(x2.mempool)
                    == Seq::<u16>::empty() && x2.start == st && x2.finish == fi),
    {
        proof {
            assert(0u8 & SERDE_OPTS_MEMPOOL_NODES == 0) by (bit_vector);
        }
        Self::construct_from_with_opts(s, 0)
    }
}

/// The wire form of a collator range written out of its parts, under the
/// given options.
pub open spec fn collator_range_enc(col: u16, mp: Seq<u16>, st: u32, fi: u32, opts: u8) -> Seq<
    bool,
> {
    uint_bits(col as u64, 16) + (if opts & SERDE_OPTS_MEMPOOL_NODES != 0 {
        uint_bits(mp.len() as u64, 8) + mempool_bits(mp)
    } else {
        Seq::<bool>::empty()
    }) + uint_bits(st as u64, 32) + uint_bits(fi as u64, 32)
}

/// How a stream that begins with a written-out collator range splits into
/// its fields.
proof fn lemma_collator_range_enc_parts(
    col: u16,
    mp: Seq<u16>,
    st: u32,
    fi: u32,
    opts: u8,
    rem0: Seq<bool>,
)
    requires
        mp.len() <= MEMPOOL_MAX_LEN,
        collator_range_enc(col, mp, st, fi, opts).is_prefix_of(rem0),
    ensures
        rem0.len() >= 16,
        bits_val(rem0.take(16)) == col,
        opts & SERDE_OPTS_MEMPOOL_NODES != 0 ==> rem0.skip(16).len() >= 8 && bits_val(
            rem0.skip(16).take(8),
        ) == mp.len() && mempool_bits(mp).is_prefix_of(rem0.skip(24)),
        uint_bits(st as u64, 32).is_prefix_of(
            rem0.skip(
                16 + (if opts & SERDE_OPTS_MEMPOOL_NODES != 0 {
                    8 + 16 * mp.len() as int
                } else {
                    0
                }),
            ),
        ),
        uint_bits(fi as u64, 32).is_prefix_of(
            rem0.skip(
                48 + (if opts & SERDE_OPTS_MEMPOOL_NODES != 0 {
                    8 + 16 * mp.len() as int
                } else {
                    0
                }),
            ),
        ),
{
    lemma2_to64();
    let mid = (if opts & SERDE_OPTS_MEMPOOL_NODES != 0 {
        uint_bits(mp.len() as u64, 8) + mempool_bits(mp)
    } else {
        Seq::<bool>::empty()
    });
    assert(collator_range_enc(col, mp, st, fi, opts) =~= uint_bits(col as u64, 16) + (mid + (
    uint_bits(st as u64, 32) + uint_bits(fi as u64, 32))));
    crate::cells::lemma_prefix_parts(
        uint_bits(col as u64, 16),
        mid + (uint_bits(st as u64, 32) + uint_bits(fi as u64, 32)),
        rem0,
    );
    crate::cells::lemma_uint_prefix(col as u64, 16, rem0);
    crate::cells::lemma_prefix_parts(
        mid,
        uint_bits(st as u64, 32) + uint_bits(fi as u64, 32),
        rem0.skip(16),
    );
    let memoff: int = if opts & SERDE_OPTS_MEMPOOL_NODES != 0 {
        8 + 16 * mp.len() as int
    } else {
        0
    };
    assert(mempool_bits(mp).len() == 16 * mp.len()) by {
        lemma_mempool_bits_len(mp);
    };
    assert(mid.len() == memoff);
    assert(rem0.skip(16).skip(memoff) =~= rem0.skip(16 + memoff));
    crate::cells::lemma_prefix_parts(
        uint_bits(st as u64, 32),
        uint_bits(fi as u64, 32),
        rem0.skip(16 + memoff),
    );
    assert(rem0.skip(16 + memoff).skip(32) =~= rem0.skip(48 + memoff));
    if opts & SERDE_OPTS_MEMPOOL_NODES != 0 {
        crate::cells::lemma_prefix_parts(
            uint_bits(mp.len() as u64, 8),
            mempool_bits(mp),
            rem0.skip(16),
        );
        crate::cells::lemma_uint_prefix(mp.len() as u64, 8, rem0.skip(16));
        assert(rem0.skip(16).skip(8) =~= rem0.skip(24));
    }
}

/// A mempool list encodes to sixteen bits per element.
proof fn lemma_mempool_bits_len(s: Seq<u16>)
    ensures
        mempool_bits(s).len() == 16 * s.len(),
    decreases s.len(),
{
    if s.len() > 0 {
        lemma_mempool_bits_len(s.skip(1));
    }
}

proof fn lemma_mempool_append(s: Seq<u16>, x: u16)
    ensures
        mempool_bits(s.push(x)) == mempool_bits(s) + uint_bits(x as u64, 16),
    decreases s.len(),
{
    if s.len() == 0 {
        assert(mempool_bits(Seq::<u16>::empty()) == Seq::<bool>::empty());
        assert(s.push(x)[0] == x);
        assert(s.push(x).skip(1) =~= Seq::<u16>::empty());
        assert(mempool_bits(s.push(x)) =~= uint_bits(s.push(x)[0] as u64, 16) + mempool_bits(
            s.push(x).skip(1),
        ));
        assert(s =~= Seq::<u16>::empty());
        assert(mempool_bits(s.push(x)) =~= mempool_bits(s) + uint_bits(x as u64, 16));
    } else {
        lemma_mempool_append(s.skip(1), x);
        assert(s.push(x).skip(1) =~= s.skip(1).push(x));
        assert(s.push(x)[0] == s[0]);
        assert(mempool_bits(s.push(x)) =~= mempool_bits(s) + uint_bits(x as u64, 16));
    }
}


} // verus!

verus! {

/// A per-validator statistic record set, modelled as ordered
/// `(validator, count)` entries.
#[derive(Debug)]
pub struct ValidatorsStat {
    entries: Vec<(u16, u64)>,
}

impl View for ValidatorsStat {
    type V = Seq<(u16, u64)>;

    closed spec fn view(&self) -> Seq<(u16, u64)> {
        self.entries@
    }
}

impl Clone for ValidatorsStat {
    /// A copy with the same entries.
    fn clone(&self) -> (r: Self)
        ensures
            r@ == self@,
    {
        ValidatorsStat { entries: copy_vec(&self.entries) }
    }
}

impl Default for ValidatorsStat {
    /// The empty record set.
    fn default() -> (r: Self)
        ensures
            r@ == Seq::<(u16, u64)>::empty(),
    {
        ValidatorsStat { entries: Vec::new() }
    }
}

impl ValidatorsStat {
    /// Whether no record is held.
    pub fn is_empty(&self) -> (r: bool)
        ensures
            r == (self@.len() == 0),
    {
        self.entries.len() == 0
    }

    /// Appends one record.
    pub fn push(&mut self, validator: u16, count: u64)
        ensures
            final(self)@ == old(self)@.push((validator, count)),
    {
        self.entries.push((validator, count));
    }

    /// The records in order.
    pub fn entries(&self) -> (r: &Vec<(u16, u64)>)
        ensures
            r@ == self@,
    {
        &self.entries
    }
}

/// The mathematical content of a collator range.
#[verifier::ext_equal]
pub struct CollatorRangeV {
    pub collator: u16,
    pub mempool: Seq<u16>,
    pub start: u32,
    pub finish: u32,
}

impl View for CollatorRange {
    type V = CollatorRangeV;

    open spec fn view(&self) -> CollatorRangeV {
        CollatorRangeV {
            collator: self.collator,
            mempool: mempool_view(self.mempool),
            start: self.start,
            finish: self.finish,
        }
    }
}

/// The collator assignments of one shard: the previous, current and next
/// ranges (with optional second predecessors and successors), the time of
/// the last change, and per-validator statistics.
#[derive(Debug)]
pub struct ShardCollators {
    pub prev: CollatorRange,
    pub prev2: Option<CollatorRange>,
    pub current: CollatorRange,
    pub next: CollatorRange,
    pub next2: Option<CollatorRange>,
    pub updated_at: u32,
    pub stat: ValidatorsStat,
}

/// The mathematical content of a shard's collator assignments.
#[verifier::ext_equal]
pub struct ShardCollatorsV {
    pub prev: CollatorRangeV,
    pub prev2: Option<CollatorRangeV>,
    pub current: CollatorRangeV,
    pub next: CollatorRangeV,
    pub next2: Option<CollatorRangeV>,
    pub updated_at: u32,
    pub stat: Seq<(u16, u64)>,
}

/// The view of an optional collator range.
pub open spec fn opt_range_view(o: Option<CollatorRange>) -> Option<CollatorRangeV> {
    match o {
        Some(c) => Some(c@),
        None => None,
    }
}

impl View for ShardCollators {
    type V = ShardCollatorsV;

    open spec fn view(&self) -> ShardCollatorsV {
        ShardCollatorsV {
            prev: self.prev@,
            prev2: opt_range_view(self.prev2),
            current: self.current@,
            next: self.next@,
            next2: opt_range_view(self.next2),
            updated_at: self.updated_at,
            stat: self.stat@,
        }
    }
}

fn clone_opt_range(o: &Option<CollatorRange>) -> (r: Option<CollatorRange>)
    ensures
        opt_range_view(r) == opt_range_view(*o),
{
    match o {
        Some(c) => Some(c.clone()),
        None => None,
    }
}

impl Clone for ShardCollators {
    /// A copy with the same content.
    fn clone(&self) -> (r: Self)
        ensures
            r@ == self@,
    {
        let r = ShardCollators {
            prev: self.prev.clone(),
            prev2: clone_opt_range(&self.prev2),
            current: self.current.clone(),
            next: self.next.clone(),
            next2: clone_opt_range(&self.next2),
            updated_at: self.updated_at,
            stat: self.stat.clone(),
        };
        proof {
            assert(r@ =~~= self@);
        }
        r
    }
}

impl Default for ShardCollators {
    /// Zero ranges and no statistics.
    fn default() -> (r: Self)
        ensures
            r@.prev.mempool == Seq::<u16>::empty(),
            r@.prev2 is None,
            r@.current.mempool == Seq::<u16>::empty(),
            r@.next.mempool == Seq::<u16>::empty(),
            r@.next2 is None,
            r@.updated_at == 0,
            r@.stat == Seq::<(u16, u64)>::empty(),
    {
        ShardCollators {
            prev: CollatorRange::default(),
            prev2: None,
            current: CollatorRange::default(),
            next: CollatorRange::default(),
            next2: None,
            updated_at: 0,
            stat: ValidatorsStat::default(),
        }
    }
}

/// An old-to-new pair of state hashes.
#[derive(Clone, Copy, Debug, Default, PartialEq, Eq, Structural, Hash)]
pub struct HashUpdate {
    pub old_hash: UInt256,
    pub new_hash: UInt256,
}

/// The outbound message-queue summary towards one connected network.
#[derive(Clone, Copy, Debug, Default, PartialEq, Eq, Structural, Hash)]
pub struct ConnectedNwOutDescr {
    pub out_queue_update: HashUpdate,
    pub exported: u64,
}

/// The latest known block of one connected network.
#[derive(Clone, Copy, Debug, Default, PartialEq, Eq, Structural, Hash)]
pub struct ConnectedNwDescr {
    pub seq_no: u32,
    pub root_hash: UInt256,
    pub file_hash: UInt256,
    pub imported: u64,
    pub gen_utime: u32,
}

/// A connected network's queue summary plus its optional block descriptor.
#[derive(Clone, Copy, Debug, Default, PartialEq, Eq, Structural, Hash)]
pub struct ConnectedNwDescrExt {
    pub queue_descr: ConnectedNwOutDescr,
    pub descr: Option<ConnectedNwDescr>,
}

/// Outbound queue summaries per connected network id.
#[derive(Debug)]
pub struct MeshOutDescr {
    entries: Vec<(i32, ConnectedNwOutDescr)>,
}

impl View for MeshOutDescr {
    type V = Seq<(i32, ConnectedNwOutDescr)>;

    closed spec fn view(&self) -> Seq<(i32, ConnectedNwOutDescr)> {
        self.entries@
    }
}

impl Clone for MeshOutDescr {
    /// A copy with the same entries.
    fn clone(&self) -> (r: Self)
        ensures
            r@ == self@,
    {
        MeshOutDescr { entries: copy_vec(&self.entries) }
    }
}

impl Default for MeshOutDescr {
    /// No connected networks.
    fn default() -> (r: Self)
        ensures
            r@ == Seq::<(i32, ConnectedNwOutDescr)>::empty(),
    {
        MeshOutDescr { entries: Vec::new() }
    }
}

impl MeshOutDescr {
    /// Whether no network is listed.
    pub fn is_empty(&self) -> (r: bool)
        ensures
            r == (self@.len() == 0),
    {
        self.entries.len() == 0
    }

    /// Appends one network's summary.
    pub fn push(&mut self, network_id: i32, descr: ConnectedNwOutDescr)
        ensures
            final(self)@ == old(self)@.push((network_id, descr)),
    {
        self.entries.push((network_id, descr));
    }

    /// The summaries in order.
    pub fn entries(&self) -> (r: &Vec<(i32, ConnectedNwOutDescr)>)
        ensures
            r@ == self@,
    {
        &self.entries
    }
}

/// The identifier of a message pack.
#[derive(Clone, Copy, Debug, Default, PartialEq, Eq, Structural, Hash)]
pub struct MsgPackId {
    pub workchain_id: i32,
    pub seq_no: u32,
    pub hash: UInt256,
}

/// How far a message pack has been processed: the consensus round, the
/// last pack, and the last partially included message, if any.
#[derive(Clone, Copy, Debug, Default, PartialEq, Eq, Structural, Hash)]
pub struct MsgPackProcessingInfo {
    pub round: u64,
    pub last_id: MsgPackId,
    pub last_partially_included: Option<UInt256>,
}

/// Accumulated copyleft rewards per account, modelled as ordered
/// `(account, grams)` entries.
#[derive(Debug)]
pub struct CopyleftRewards {
    entries: Vec<(UInt256, u64)>,
}

impl View for CopyleftRewards {
    type V = Seq<(UInt256, u64)>;

    closed spec fn view(&self) -> Seq<(UInt256, u64)> {
        self.entries@
    }
}

impl Clone for CopyleftRewards {
    /// A copy with the same entries.
    fn clone(&self) -> (r: Self)
        ensures
            r@ == self@,
    {
        CopyleftRewards { entries: copy_vec(&self.entries) }
    }
}

impl Default for CopyleftRewards {
    /// No rewards.
    fn default() -> (r: Self)
        ensures
            r@ == Seq::<(UInt256, u64)>::empty(),
    {
        CopyleftRewards { entries: Vec::new() }
    }
}

impl CopyleftRewards {
    /// Whether no reward is recorded.
    pub fn is_empty(&self) -> (r: bool)
        ensures
            r == (self@.len() == 0),
    {
        self.entries.len() == 0
    }

    /// Appends one account's reward.
    pub fn push(&mut self, account: UInt256, grams: u64)
        ensures
            final(self)@ == old(self)@.push((account, grams)),
    {
        self.entries.push((account, grams));
    }

    /// The rewards in order.
    pub fn entries(&self) -> (r: &Vec<(UInt256, u64)>)
        ensures
            r@ == self@,
    {
        &self.entries
    }

    /// Whether two reward sets hold the same entries in the same order.
    pub fn same_entries(&self, other: &CopyleftRewards) -> (r: bool)
        ensures
            r == (self@ == other@),
    {
        if self.entries.len() != other.entries.len() {
            proof {
                assert(self@.len() != other@.len());
            }
            return false;
        }
        let n = self.entries.len();
        let mut i: usize = 0;
        while i < n
            invariant
                i <= n,
                n == self@.len() == other@.len(),
                forall|j: int| 0 <= j < i ==> #[trigger] self@[j] == other@[j],
            decreases n - i,
        {
            let (ka, va) = self.entries[i];
            let (kb, vb) = other.entries[i];
            if ka != kb || va != vb {
                return false;
            }
            i = i + 1;
        }
        proof {
            assert(self@ =~= other@);
        }
        true
    }
}

/// A chain of proof cells carried next to a shard descriptor.
#[derive(Debug)]
pub struct ProofChain {
    cells: Vec<Cell>,
}

impl View for ProofChain {
    type V = Seq<CellData>;

    closed spec fn view(&self) -> Seq<CellData> {
        Seq::new(self.cells@.len(), |i: int| self.cells@[i]@)
    }
}

impl Clone for ProofChain {
    /// A copy with the same cell contents.
    fn clone(&self) -> (r: Self)
        ensures
            r@ == self@,
    {
        let mut cells: Vec<Cell> = Vec::new();
        let mut i: usize = 0;
        while i < self.cells.len()
            invariant
                i <= self.cells@.len(),
                cells@.len() == i,
                forall|j: int| 0 <= j < i ==> (#[trigger] cells@[j])@ == self.cells@[j]@,
            decreases self.cells@.len() - i,
        {
            cells.push(self.cells[i].clone());
            i = i + 1;
        }
        let r = ProofChain { cells };
        proof {
            assert(r@ =~= self@);
        }
        r
    }
}

impl ProofChain {
    /// A chain of the given cells.
    pub fn with_cells(cells: Vec<Cell>) -> (r: ProofChain)
        ensures
            r@.len() == cells@.len(),
            forall|i: int| 0 <= i < cells@.len() ==> r@[i] == (#[trigger] cells@[i])@,
    {
        let r = ProofChain { cells };
        r
    }

    /// How many cells the chain holds.
    pub fn len(&self) -> (r: usize)
        ensures
            r == self@.len(),
    {
        self.cells.len()
    }
}

fn clone_opt_collators(o: &Option<ShardCollators>) -> (r: Option<ShardCollators>)
    ensures
        match (r, o) {
            (Some(a), Some(b)) => a@ == b@,
            (None, None) => true,
            _ => false,
        },
{
    match o {
        Some(c) => Some(c.clone()),
        None => None,
    }
}

fn clone_opt_proof_chain(o: &Option<ProofChain>) -> (r: Option<ProofChain>)
    ensures
        match (r, o) {
            (Some(a), Some(b)) => a@ == b@,
            (None, None) => true,
            _ => false,
        },
{
    match o {
        Some(c) => Some(c.clone()),
        None => None,
    }
}

/// One shard chain's state snapshot: its latest block, logical-time range,
/// split and merge intents, consensus epoch, fee totals, and the optional
/// collator, proof-chain, queue and pack attachments.
#[derive(Debug)]
pub struct ShardDescr {
    pub seq_no: u32,
    pub reg_mc_seqno: u32,
    pub start_lt: u64,
    pub end_lt: u64,
    pub root_hash: UInt256,
    pub file_hash: UInt256,
    pub before_split: bool,
    pub before_merge: bool,
    pub want_split: bool,
    pub want_merge: bool,
    pub nx_cc_updated: bool,
    pub flags: u8,
    pub next_catchain_seqno: u32,
    pub next_validator_shard: u64,
    pub min_ref_mc_seqno: u32,
    pub gen_utime: u32,
    pub split_merge_at: FutureSplitMerge,
    pub fees_collected: CurrencyCollection,
    pub funds_created: CurrencyCollection,
    pub copyleft_rewards: CopyleftRewards,
    pub proof_chain: Option<ProofChain>,
    pub collators: Option<ShardCollators>,
    pub mesh_msg_queues: MeshOutDescr,
    pub pack_info: Option<MsgPackProcessingInfo>,
}

/// The mathematical content of a shard descriptor.
#[verifier::ext_equal]
pub struct ShardDescrV {
    pub seq_no: u32,
    pub reg_mc_seqno: u32,
    pub start_lt: u64,
    pub end_lt: u64,
    pub root_hash: UInt256,
    pub file_hash: UInt256,
    pub before_split: bool,
    pub before_merge: bool,
    pub want_split: bool,
    pub want_merge: bool,
    pub nx_cc_updated: bool,
    pub flags: u8,
    pub next_catchain_seqno: u32,
    pub next_validator_shard: u64,
    pub min_ref_mc_seqno: u32,
    pub gen_utime: u32,
    pub split_merge_at: FutureSplitMerge,
    pub fees_collected: CurrencyCollection,
    pub funds_created: CurrencyCollection,
    pub copyleft_rewards: Seq<(UInt256, u64)>,
    pub proof_chain: Option<Seq<CellData>>,
    pub collators: Option<ShardCollatorsV>,
    pub mesh_msg_queues: Seq<(i32, ConnectedNwOutDescr)>,
    pub pack_info: Option<MsgPackProcessingInfo>,
}

impl View for ShardDescr {
    type V = ShardDescrV;

    open spec fn view(&self) -> ShardDescrV {
        ShardDescrV {
            seq_no: self.seq_no,
            reg_mc_seqno: self.reg_mc_seqno,
            start_lt: self.start_lt,
            end_lt: self.end_lt,
            root_hash: self.root_hash,
            file_hash: self.file_hash,
            before_split: self.before_split,
            before_merge: self.before_merge,
            want_split: self.want_split,
            want_merge: self.want_merge,
            nx_cc_updated: self.nx_cc_updated,
            flags: self.flags,
            next_catchain_seqno: self.next_catchain_seqno,
            next_validator_shard: self.next_validator_shard,
            min_ref_mc_seqno: self.min_ref_mc_seqno,
            gen_utime: self.gen_utime,
            split_merge_at: self.split_merge_at,
            fees_collected: self.fees_collected,
            funds_created: self.funds_created,
            copyleft_rewards: self.copyleft_rewards@,
            proof_chain: match self.proof_chain {
                Some(p) => Some(p@),
                None => None,
            },
            collators: match self.collators {
                Some(c) => Some(c@),
                None => None,
            },
            mesh_msg_queues: self.mesh_msg_queues@,
            pack_info: self.pack_info,
        }
    }
}

impl Clone for ShardDescr {
    /// A copy with the same content.
    fn clone(&self) -> (r: Self)
        ensures
            r@ == self@,
    {
        let r = ShardDescr {
            seq_no: self.seq_no,
            reg_mc_seqno: self.reg_mc_seqno,
            start_lt: self.start_lt,
            end_lt: self.end_lt,
            root_hash: self.root_hash,
            file_hash: self.file_hash,
            before_split: self.before_split,
            before_merge: self.before_merge,
            want_split: self.want_split,
            want_merge: self.want_merge,
            nx_cc_updated: self.nx_cc_updated,
            flags: self.flags,
            next_catchain_seqno: self.next_catchain_seqno,
            next_validator_shard: self.next_validator_shard,
            min_ref_mc_seqno: self.min_ref_mc_seqno,
            gen_utime: self.gen_utime,
            split_merge_at: self.split_merge_at,
            fees_collected: self.fees_collected,
            funds_created: self.funds_created,
            copyleft_rewards: self.copyleft_rewards.clone(),
            proof_chain: clone_opt_proof_chain(&self.proof_chain),
            collators: clone_opt_collators(&self.collators),
            mesh_msg_queues: self.mesh_msg_queues.clone(),
            pack_info: self.pack_info,
        };
        proof {
            assert(r@ =~~= self@);
        }
        r
    }
}

impl Default for ShardDescr {
    /// The zero descriptor.
    fn default() -> (r: Self)
        ensures
            r@ == ShardDescr::default_spec(),
    {
        let r = ShardDescr {
            seq_no: 0,
            reg_mc_seqno: 0,
            start_lt: 0,
            end_lt: 0,
            root_hash: UInt256 { w0: 0, w1: 0, w2: 0, w3: 0 },
            file_hash: UInt256 { w0: 0, w1: 0, w2: 0, w3: 0 },
            before_split: false,
            before_merge: false,
            want_split: false,
            want_merge: false,
            nx_cc_updated: false,
            flags: 0,
            next_catchain_seqno: 0,
            next_validator_shard: 0,
            min_ref_mc_seqno: 0,
            gen_utime: 0,
            split_merge_at: FutureSplitMerge::Unset,
            fees_collected: CurrencyCollection { grams: 0 },
            funds_created: CurrencyCollection { grams: 0 },
            copyleft_rewards: CopyleftRewards::default(),
            proof_chain: None,
            collators: None,
            mesh_msg_queues: MeshOutDescr::default(),
            pack_info: None,
        };
        proof {
            assert(r@ =~~= ShardDescr::default_spec());
        }
        r
    }
}

impl ShardDescr {
    /// The content of the zero descriptor.
    pub open spec fn default_spec() -> ShardDescrV {
        ShardDescrV {
            seq_no: 0,
            reg_mc_seqno: 0,
            start_lt: 0,
            end_lt: 0,
            root_hash: UInt256 { w0: 0, w1: 0, w2: 0, w3: 0 },
            file_hash: UInt256 { w0: 0, w1: 0, w2: 0, w3: 0 },
            before_split: false,
            before_merge: false,
            want_split: false,
            want_merge: false,
            nx_cc_updated: false,
            flags: 0,
            next_catchain_seqno: 0,
            next_validator_shard: 0,
            min_ref_mc_seqno: 0,
            gen_utime: 0,
            split_merge_at: FutureSplitMerge::Unset,
            fees_collected: CurrencyCollection { grams: 0 },
            funds_created: CurrencyCollection { grams: 0 },
            copyleft_rewards: Seq::<(UInt256, u64)>::empty(),
            proof_chain: None,
            collators: None,
            mesh_msg_queues: Seq::<(i32, ConnectedNwOutDescr)>::empty(),
            pack_info: None,
        }
    }

    /// A descriptor of a fresh block snapshot: the given sequence number,
    /// logical-time range, root hash and schedule, everything else zeroed.
    pub fn with_params(
        seq_no: u32,
        start_lt: u64,
        end_lt: u64,
        root_hash: UInt256,
        split_merge_at: FutureSplitMerge,
    ) -> (r: ShardDescr)
        ensures
            r@ == (ShardDescrV {
                seq_no,
                start_lt,
                end_lt,
                root_hash,
                split_merge_at,
                ..ShardDescr::default_spec()
            }),
    {
        let mut r = ShardDescr::default();
        r.seq_no = seq_no;
        r.start_lt = start_lt;
        r.end_lt = end_lt;
        r.root_hash = root_hash;
        r.split_merge_at = split_merge_at;
        proof {
            assert(r@ =~~= (ShardDescrV {
                seq_no,
                start_lt,
                end_lt,
                root_hash,
                split_merge_at,
                ..ShardDescr::default_spec()
            }));
        }
        r
    }

    /// Whether the scheduled change equals another descriptor's.
    pub fn fsm_equal(&self, other: &ShardDescr) -> (r: bool)
        ensures
            r == (self.split_merge_at == other.split_merge_at),
    {
        self.split_merge_at == other.split_merge_at
    }

    /// Whether a merge is scheduled.
    pub fn is_fsm_merge(&self) -> (r: bool)
        ensures
            r == (self.split_merge_at matches FutureSplitMerge::Merge { .. }),
    {
        (matches!(self.split_merge_at, FutureSplitMerge::Merge { .. }))
    }

    /// Whether a split is scheduled.
    pub fn is_fsm_split(&self) -> (r: bool)
        ensures
            r == (self.split_merge_at matches FutureSplitMerge::Split { .. }),
    {
        (matches!(self.split_merge_at, FutureSplitMerge::Split { .. }))
    }

    /// Whether nothing is scheduled.
    pub fn is_fsm_none(&self) -> (r: bool)
        ensures
            r == (self.split_merge_at matches FutureSplitMerge::Unset),
    {
        (matches!(self.split_merge_at, FutureSplitMerge::Unset))
    }

    /// The start of the scheduled window, or zero.
    pub fn fsm_utime(&self) -> (r: u32)
        ensures
            r == (match self.split_merge_at {
                FutureSplitMerge::Split { split_utime, .. } => split_utime,
                FutureSplitMerge::Merge { merge_utime, .. } => merge_utime,
                FutureSplitMerge::Unset => 0,
            }),
    {
        match self.split_merge_at {
            FutureSplitMerge::Split { split_utime, interval: _ } => split_utime,
            FutureSplitMerge::Merge { merge_utime, interval: _ } => merge_utime,
            FutureSplitMerge::Unset => 0,
        }
    }

    /// The end of the scheduled window, or zero; the window never wraps.
    pub fn fsm_utime_end(&self) -> (r: Result<u32, BlockError>)
        ensures
            match r {
                Ok(v) => v == (match self.split_merge_at {
                    FutureSplitMerge::Split { split_utime, interval } => split_utime + interval,
                    FutureSplitMerge::Merge { merge_utime, interval } => merge_utime + interval,
                    FutureSplitMerge::Unset => 0,
                }),
                Err(e) => e == BlockError::IntOverflow && (match self.split_merge_at {
                    FutureSplitMerge::Split { split_utime, interval } => split_utime + interval
                        > u32::MAX,
                    FutureSplitMerge::Merge { merge_utime, interval } => merge_utime + interval
                        > u32::MAX,
                    FutureSplitMerge::Unset => false,
                }),
            },
    {
        match self.split_merge_at {
            FutureSplitMerge::Split { split_utime, interval } => {
                if split_utime > u32::MAX - interval {
                    Err(BlockError::IntOverflow)
                } else {
                    Ok(split_utime + interval)
                }
            },
            FutureSplitMerge::Merge { merge_utime, interval } => {
                if merge_utime > u32::MAX - interval {
                    Err(BlockError::IntOverflow)
                } else {
                    Ok(merge_utime + interval)
                }
            },
            FutureSplitMerge::Unset => Ok(0),
        }
    }

    /// The scheduled window length, or zero.
    pub fn fsm_interval(&self) -> (r: u32)
        ensures
            r == (match self.split_merge_at {
                FutureSplitMerge::Split { interval, .. } => interval,
                FutureSplitMerge::Merge { interval, .. } => interval,
                FutureSplitMerge::Unset => 0,
            }),
    {
        match self.split_merge_at {
            FutureSplitMerge::Split { split_utime: _, interval } => interval,
            FutureSplitMerge::Merge { merge_utime: _, interval } => interval,
            FutureSplitMerge::Unset => 0,
        }
    }

    /// The collator assignments; fails exactly when none are attached.
    pub fn collators(&self) -> (r: Result<&ShardCollators, BlockError>)
        ensures
            match r {
                Ok(c) => self.collators matches Some(cc) && c == cc,
                Err(e) => e == BlockError::MissingField && self.collators is None,
            },
    {
        match &self.collators {
            Some(c) => Ok(c),
            None => Err(BlockError::MissingField),
        }
    }

    /// The collator assignments for change; fails exactly when none are
    /// attached.
    pub fn collators_mut(&mut self) -> (r: Result<&mut ShardCollators, BlockError>)
        ensures
            match r {
                Ok(c) => {
                    &&& old(self).collators matches Some(cc) && *c == cc
                    &&& final(self)@ == ShardDescrV { collators: Some(final(c)@), ..old(self)@ }
                },
                Err(e) => {
                    &&& e == BlockError::MissingField
                    &&& old(self).collators is None
                    &&& final(self)@ == old(self)@
                },
            },
    {
        match &mut self.collators {
            Some(c) => Ok(c),
            None => Err(BlockError::MissingField),
        }
    }
}

} // verus!

verus! {

/// The 32-bit word a workchain id is carried as on the wire: its two's
/// complement bits.
pub open spec fn wc_word(x: i32) -> u32 {
    if x >= 0 {
        x as u32
    } else {
        (x + 0x1_0000_0000) as u32
    }
}

/// The workchain id carried by a 32-bit word.
pub open spec fn word_wc(w: u32) -> i32 {
    if w < 0x8000_0000 {
        w as i32
    } else {
        (w - 0x1_0000_0000) as i32
    }
}

/// Packs a workchain id into its wire word.
pub fn wc_word_exec(x: i32) -> (r: u32)
    ensures
        r == wc_word(x),
        word_wc(r) == x,
{
    proof {
        lemma_wc_word_roundtrip(x);
    }
    x as u32
}

/// Unpacks a workchain id from its wire word.
pub fn i32_of_word(w: u32) -> (r: i32)
    ensures
        r == word_wc(w),
        wc_word(r) == w,
{
    proof {
        lemma_word_wc_roundtrip(w);
    }
    w as i32
}

proof fn lemma_wc_word_roundtrip(x: i32)
    by (bit_vector)
    ensures
        x as u32 == (if x >= 0 {
            x as u32
        } else {
            (x + 0x1_0000_0000) as u32
        }),
        (if (x as u32) < 0x8000_0000u32 {
            (x as u32) as i32
        } else {
            ((x as u32) - 0x1_0000_0000) as i32
        }) == x,
{
}

proof fn lemma_word_wc_roundtrip(w: u32)
    by (bit_vector)
    ensures
        w as i32 == (if w < 0x8000_0000u32 {
            w as i32
        } else {
            (w - 0x1_0000_0000) as i32
        }),
        (if (w as i32) >= 0 {
            (w as i32) as u32
        } else {
            ((w as i32) + 0x1_0000_0000) as u32
        }) == w,
{
}

impl HashUpdate {
    /// The 520-bit wire form: tag, old hash, new hash.
    pub open spec fn enc_bits(self) -> Seq<bool> {
        uint_bits(0x72, 8) + self.old_hash.enc_bits() + self.new_hash.enc_bits()
    }

    /// Equal encodings come from equal updates.
    pub proof fn lemma_enc_injective(a: HashUpdate, b: HashUpdate)
        requires
            a.enc_bits() == b.enc_bits(),
        ensures
            a == b,
    {
        assert(a.old_hash.enc_bits() =~= a.enc_bits().skip(8).take(256));
        assert(b.old_hash.enc_bits() =~= b.enc_bits().skip(8).take(256));
        crate::types::UInt256::lemma_enc_injective(a.old_hash, b.old_hash);
        assert(a.new_hash.enc_bits() =~= a.enc_bits().skip(264));
        assert(b.new_hash.enc_bits() =~= b.enc_bits().skip(264));
        crate::types::UInt256::lemma_enc_injective(a.new_hash, b.new_hash);
    }

    /// Writes the update.
    pub fn write_to(&self, b: &mut BuilderData) -> (r: Result<(), BlockError>)
        ensures
            r.is_ok(),
            final(b).bits_spec() == old(b).bits_spec() + self.enc_bits(),
            final(b).refs_spec() == old(b).refs_spec(),
    {
        proof {
            lemma2_to64();
        }
        b.append_bits(0x72, 8);
        self.old_hash.write_to(b)?;
        self.new_hash.write_to(b)?;
        proof {
            assert(final(b).bits_spec() =~= old(b).bits_spec() + self.enc_bits());
        }
        Ok(())
    }

    /// Reads an update; consumes exactly its encoding on success.
    pub fn read_from(s: &mut SliceData) -> (r: Result<HashUpdate, BlockError>)
        ensures
            old(s).rem_bits().len() >= 520 && bits_val(old(s).rem_bits().take(8)) == 0x72
                ==> r.is_ok(),
            old(s).rem_bits().len() < 8 ==> r == Err::<Self, BlockError>(
                BlockError::CellUnderflow,
            ),
            old(s).rem_bits().len() >= 8 && !(bits_val(old(s).rem_bits().take(8)) == 0x72) ==> (r matches Err(e2) && e2 == (
            BlockError::InvalidConstructorTag { t: (bits_val(old(s).rem_bits().take(8)) as u64) })),
            match r {
                Ok(x) => {
                    &&& old(s).rem_bits() == x.enc_bits() + final(s).rem_bits()
                    &&& final(s).rem_refs() == old(s).rem_refs()
                },
                Err(e) => e == BlockError::CellUnderflow || e matches
                    BlockError::InvalidConstructorTag { .. },
            },
    {
        proof {
            lemma2_to64();
        }
        let ghost rem0 = s.rem_bits();
        let tag = s.get_next_int(8)?;
        if tag != 0x72 {
            return Err(BlockError::InvalidConstructorTag { t: tag });
        }
        let ghost rem1 = s.rem_bits();
        let old_hash = UInt256::read_from(s)?;
        let ghost rem2 = s.rem_bits();
        let new_hash = UInt256::read_from(s)?;
        let x = HashUpdate { old_hash, new_hash };
        proof {
            crate::cells::lemma_read_exact(rem0, 8, tag);
            assert(rem0 =~= rem0.take(8) + (rem1.take(256) + (rem2.take(256) + final(s).rem_bits())));
            assert(rem0 =~= x.enc_bits() + final(s).rem_bits());
        }
        Ok(x)
    }
}

impl ConnectedNwOutDescr {
    /// The inline wire form: tag and exported total; the hash update goes
    /// into a child cell.
    pub open spec fn enc_bits(self) -> Seq<bool> {
        uint_bits(1, 4) + var_uint_bits(self.exported, 5)
    }

    /// The single child cell: the queue's hash update.
    pub open spec fn enc_refs(self) -> Seq<CellData> {
        seq![
            CellData {
                bits: self.out_queue_update.enc_bits(),
                refs: Seq::<CellData>::empty(),
            },
        ]
    }

    /// Writes the summary: inline bits plus the hash-update child.
    pub fn write_to(&self, b: &mut BuilderData) -> (r: Result<(), BlockError>)
        ensures
            r.is_ok(),
            final(b).bits_spec() == old(b).bits_spec() + self.enc_bits(),
            final(b).refs_spec() == old(b).refs_spec() + self.enc_refs(),
    {
        proof {
            lemma2_to64();
        }
        b.append_bits(1, 4);
        write_var_uint(b, self.exported, 5)?;
        let mut child = BuilderData::new();
        self.out_queue_update.write_to(&mut child)?;
        let cell = child.into_cell();
        b.append_reference(cell);
        proof {
            assert(cell@.bits =~= self.out_queue_update.enc_bits());
            assert(cell@.refs =~= Seq::<CellData>::empty());
            assert(cell@ =~~= self.enc_refs()[0]);
            assert(final(b).bits_spec() =~= old(b).bits_spec() + self.enc_bits());
            assert(final(b).refs_spec() =~= old(b).refs_spec() + self.enc_refs());
        }
        Ok(())
    }

    /// Reads a summary; consumes exactly its bits and its child cell on
    /// success.
    pub fn read_from(s: &mut SliceData) -> (r: Result<ConnectedNwOutDescr, BlockError>)
        ensures
            forall|v: ConnectedNwOutDescr|
                (#[trigger] v.enc_bits()).is_prefix_of(old(s).rem_bits())
                    && v.enc_refs().is_prefix_of(old(s).rem_refs()) ==> r == Ok::<
                    ConnectedNwOutDescr,
                    BlockError,
                >(v),
            old(s).rem_bits().len() < 4 ==> r == Err::<Self, BlockError>(
                BlockError::CellUnderflow,
            ),
            old(s).rem_bits().len() >= 4 && !(bits_val(old(s).rem_bits().take(4)) == 1) ==> (r matches Err(e2) && e2 == (
            BlockError::InvalidConstructorTag { t: (bits_val(old(s).rem_bits().take(4)) as u64) })),
            match r {
                Ok(x) => {
                    &&& old(s).rem_bits() == x.enc_bits() + final(s).rem_bits()
                    &&& old(s).rem_refs() == x.enc_refs() + final(s).rem_refs()
                },
                Err(e) => e == BlockError::CellUnderflow || e == BlockError::InvalidData || e
                    matches BlockError::InvalidConstructorTag { .. },
            },
    {
        proof {
            lemma2_to64();
        }
        let ghost rem0 = s.rem_bits();
        let ghost refs0 = s.rem_refs();
        proof {
            assert forall|v: ConnectedNwOutDescr| #[trigger] v.enc_bits().is_prefix_of(rem0)
                implies rem0.len() >= 4 && bits_val(rem0.take(4)) == 1 && var_uint_bits(
                v.exported,
                5,
            ).is_prefix_of(rem0.skip(4)) by {
                assert(v.enc_bits() =~= uint_bits(1, 4) + var_uint_bits(v.exported, 5));
                crate::cells::lemma_prefix_parts(
                    uint_bits(1, 4),
                    var_uint_bits(v.exported, 5),
                    rem0,
                );
                crate::cells::lemma_uint_prefix(1, 4, rem0);
            };
        }
        let tag = s.get_next_int(4)?;
        if tag != 1 {
            return Err(BlockError::InvalidConstructorTag { t: tag });
        }
        let ghost rem1 = s.rem_bits();
        let exported = read_var_uint(s, 5)?;
        let cell = match s.checked_drain_reference() {
            Ok(c) => c,
            Err(e) => {
                proof {
                    assert forall|v: ConnectedNwOutDescr|
                        !((#[trigger] v.enc_bits()).is_prefix_of(rem0)
                            && v.enc_refs().is_prefix_of(refs0)) by {
                        if v.enc_refs().is_prefix_of(refs0) {
                            assert(v.enc_refs().len() == 1);
                        }
                    };
                }
                return Err(e);
            },
        };
        let ghost cd = cell@;
        proof {
            assert forall|v: ConnectedNwOutDescr|
                (#[trigger] v.enc_bits()).is_prefix_of(rem0) && v.enc_refs().is_prefix_of(refs0)
                implies cd == v.enc_refs()[0] && v.exported == exported by {
                assert(v.enc_refs().len() == 1);
                assert(v.enc_refs() =~= refs0.take(1));
            };
        }
        let mut cs = SliceData::load_cell(cell);
        let out_queue_update = match HashUpdate::read_from(&mut cs) {
            Ok(u) => u,
            Err(e) => {
                proof {
                    assert forall|v: ConnectedNwOutDescr|
                        !((#[trigger] v.enc_bits()).is_prefix_of(rem0)
                            && v.enc_refs().is_prefix_of(refs0)) by {
                        if v.enc_bits().is_prefix_of(rem0) && v.enc_refs().is_prefix_of(refs0) {
                            assert(cd.bits == v.out_queue_update.enc_bits());
                            assert(v.out_queue_update.enc_bits().len() == 520);
                            crate::cells::lemma_uint_prefix(0x72, 8, cd.bits);
                            assert(uint_bits(0x72, 8).is_prefix_of(cd.bits)) by {
                                assert(uint_bits(0x72, 8) =~= v.out_queue_update.enc_bits().take(
                                    8,
                                ));
                            };
                        }
                    };
                }
                return Err(e);
            },
        };
        if cs.bits_remaining() != 0 || cs.refs_remaining() != 0 {
            proof {
                assert forall|v: ConnectedNwOutDescr|
                    !((#[trigger] v.enc_bits()).is_prefix_of(rem0) && v.enc_refs().is_prefix_of(
                        refs0,
                    )) by {
                    if v.enc_bits().is_prefix_of(rem0) && v.enc_refs().is_prefix_of(refs0) {
                        assert(cd.bits == v.out_queue_update.enc_bits());
                        assert(out_queue_update.enc_bits() =~= cd.bits.take(520));
                        assert(cd.bits.len() == 520);
                        assert(cs.rem_bits() =~= Seq::<bool>::empty());
                        assert(cd.refs =~= Seq::<CellData>::empty());
                        assert(cs.rem_refs() =~= Seq::<CellData>::empty());
                    }
                };
            }
            return Err(BlockError::InvalidData);
        }
        let x = ConnectedNwOutDescr { out_queue_update, exported };
        proof {
            crate::cells::lemma_read_exact(rem0, 4, tag);
            assert(cd.bits =~= out_queue_update.enc_bits());
            assert(cd.refs =~= Seq::<CellData>::empty());
            assert(cd =~~= x.enc_refs()[0]);
            assert(old(s).rem_refs() =~= x.enc_refs() + final(s).rem_refs());
            assert(rem0 =~= rem0.take(4) + (var_uint_bits(exported, 5) + final(s).rem_bits()));
            assert(rem0 =~= x.enc_bits() + final(s).rem_bits());
            assert forall|v: ConnectedNwOutDescr|
                (#[trigger] v.enc_bits()).is_prefix_of(rem0) && v.enc_refs().is_prefix_of(refs0)
                implies v == x by {
                assert(cd.bits == v.out_queue_update.enc_bits());
                assert(out_queue_update.enc_bits() =~= cd.bits.take(520));
                assert(v.out_queue_update.enc_bits() =~= cd.bits.take(520));
                HashUpdate::lemma_enc_injective(v.out_queue_update, out_queue_update);
            };
        }
        Ok(x)
    }
}

impl ConnectedNwDescr {
    /// The wire form: tag, block numbers and hashes, imported total, time.
    pub open spec fn enc_bits(self) -> Seq<bool> {
        uint_bits(1, 8) + uint_bits(self.seq_no as u64, 32) + self.root_hash.enc_bits()
            + self.file_hash.enc_bits() + var_uint_bits(self.imported, 5) + uint_bits(
            self.gen_utime as u64,
            32,
        )
    }

    /// Writes the descriptor.
    pub fn write_to(&self, b: &mut BuilderData) -> (r: Result<(), BlockError>)
        ensures
            r.is_ok(),
            final(b).bits_spec() == old(b).bits_spec() + self.enc_bits(),
            final(b).refs_spec() == old(b).refs_spec(),
    {
        proof {
            lemma2_to64();
        }
        b.append_bits(1, 8);
        b.append_bits(self.seq_no as u64, 32);
        self.root_hash.write_to(b)?;
        self.file_hash.write_to(b)?;
        write_var_uint(b, self.imported, 5)?;
        b.append_bits(self.gen_utime as u64, 32);
        proof {
            assert(final(b).bits_spec() =~= old(b).bits_spec() + self.enc_bits());
        }
        Ok(())
    }

    /// Reads a descriptor; consumes exactly its encoding on success.
    #[verifier::rlimit(100)]
    pub fn read_from(s: &mut SliceData) -> (r: Result<ConnectedNwDescr, BlockError>)
        ensures
            old(s).rem_bits().len() < 8 ==> r == Err::<Self, BlockError>(
                BlockError::CellUnderflow,
            ),
            old(s).rem_bits().len() >= 8 && !(bits_val(old(s).rem_bits().take(8)) == 1) ==> (r matches Err(e2) && e2 == (
            BlockError::InvalidConstructorTag { t: (bits_val(old(s).rem_bits().take(8)) as u64) })),
            match r {
                Ok(x) => {
                    &&& old(s).rem_bits() == x.enc_bits() + final(s).rem_bits()
                    &&& final(s).rem_refs() == old(s).rem_refs()
                },
                Err(e) => e == BlockError::CellUnderflow || e == BlockError::InvalidData || e
                    matches BlockError::InvalidConstructorTag { .. },
            },
            forall|v: ConnectedNwDescr|
                (#[trigger] v.enc_bits()).is_prefix_of(old(s).rem_bits()) ==> r == Ok::<
                    ConnectedNwDescr,
                    BlockError,
                >(v),
    {
        proof {
            lemma2_to64();
        }
        let ghost rem0 = s.rem_bits();
        let ghost head = |v: ConnectedNwDescr|
            uint_bits(1, 8) + (uint_bits(v.seq_no as u64, 32) + (v.root_hash.enc_bits()
                + v.file_hash.enc_bits()));
        proof {
            assert forall|v: ConnectedNwDescr| #[trigger] v.enc_bits().is_prefix_of(rem0)
                implies head(v).is_prefix_of(rem0) && rem0.len() >= 8 && bits_val(rem0.take(8))
                == 1 && var_uint_bits(v.imported, 5).is_prefix_of(rem0.skip(552)) && uint_bits(
                v.gen_utime as u64,
                32,
            ).is_prefix_of(rem0.skip(552 + (5 + 8 * min_bytes(v.imported)) as int)) by {
                assert(v.enc_bits() =~= head(v) + (var_uint_bits(v.imported, 5) + uint_bits(
                    v.gen_utime as u64,
                    32,
                )));
                crate::cells::lemma_prefix_parts(
                    head(v),
                    var_uint_bits(v.imported, 5) + uint_bits(v.gen_utime as u64, 32),
                    rem0,
                );
                crate::cells::lemma_prefix_parts(
                    uint_bits(1, 8),
                    uint_bits(v.seq_no as u64, 32) + (v.root_hash.enc_bits()
                        + v.file_hash.enc_bits()),
                    rem0,
                );
                crate::cells::lemma_uint_prefix(1, 8, rem0);
                crate::cells::lemma_prefix_parts(
                    var_uint_bits(v.imported, 5),
                    uint_bits(v.gen_utime as u64, 32),
                    rem0.skip(552),
                );
                assert(rem0.skip(552).skip((5 + 8 * min_bytes(v.imported)) as int) =~= rem0.skip(
                    552 + (5 + 8 * min_bytes(v.imported)) as int,
                ));
            };
        }
        let tag = s.get_next_int(8)?;
        if tag != 1 {
            return Err(BlockError::InvalidConstructorTag { t: tag });
        }
        let ghost rem1 = s.rem_bits();
        let seq_no = s.get_next_int(32)?;
        let ghost rem2 = s.rem_bits();
        let root_hash = UInt256::read_from(s)?;
        let ghost rem3 = s.rem_bits();
        let file_hash = UInt256::read_from(s)?;
        let ghost rem4 = s.rem_bits();
        proof {
            assert forall|v: ConnectedNwDescr| #[trigger] v.enc_bits().is_prefix_of(rem0)
                implies var_uint_bits(v.imported, 5).is_prefix_of(rem4) by {
                assert(rem4 == rem0.skip(552));
            };
        }
        let imported = read_var_uint(s, 5)?;
        let ghost rem5 = s.rem_bits();
        proof {
            assert forall|v: ConnectedNwDescr| #[trigger] v.enc_bits().is_prefix_of(rem0)
                implies v.imported == imported && uint_bits(v.gen_utime as u64, 32).is_prefix_of(
                rem5,
            ) by {
                assert(rem5 == rem4.skip((5 + 8 * min_bytes(imported)) as int));
            };
        }
        let gen_utime = s.get_next_int(32)?;
        let x = ConnectedNwDescr {
            seq_no: seq_no as u32,
            root_hash,
            file_hash,
            imported,
            gen_utime: gen_utime as u32,
        };
        proof {
            crate::cells::lemma_read_exact(rem0, 8, tag);
            crate::cells::lemma_read_exact(rem1, 32, seq_no);
            crate::cells::lemma_read_exact(rem5, 32, gen_utime);
            assert(rem4 =~= var_uint_bits(imported, 5) + rem5);
            assert(rem0 =~= rem0.take(8) + (rem1.take(32) + (rem2.take(256) + (rem3.take(256) + (
            var_uint_bits(imported, 5) + (rem5.take(32) + final(s).rem_bits()))))));
            assert(rem0 =~= x.enc_bits() + final(s).rem_bits());
            assert forall|v: ConnectedNwDescr| (#[trigger] v.enc_bits()).is_prefix_of(rem0)
                implies v == x by {
                assert(uint_bits(v.seq_no as u64, 32).is_prefix_of(rem1)) by {
                    crate::cells::lemma_prefix_parts(
                        uint_bits(1, 8),
                        uint_bits(v.seq_no as u64, 32) + (v.root_hash.enc_bits()
                            + v.file_hash.enc_bits()),
                        rem0,
                    );
                    crate::cells::lemma_prefix_parts(
                        uint_bits(v.seq_no as u64, 32),
                        v.root_hash.enc_bits() + v.file_hash.enc_bits(),
                        rem0.skip(8),
                    );
                };
                crate::cells::lemma_uint_prefix(v.seq_no as u64, 32, rem1);
                assert(v.root_hash.enc_bits().is_prefix_of(rem2)
                    && v.file_hash.enc_bits().is_prefix_of(rem3)) by {
                    crate::cells::lemma_prefix_parts(
                        uint_bits(1, 8),
                        uint_bits(v.seq_no as u64, 32) + (v.root_hash.enc_bits()
                            + v.file_hash.enc_bits()),
                        rem0,
                    );
                    crate::cells::lemma_prefix_parts(
                        uint_bits(v.seq_no as u64, 32),
                        v.root_hash.enc_bits() + v.file_hash.enc_bits(),
                        rem0.skip(8),
                    );
                    crate::cells::lemma_prefix_parts(
                        v.root_hash.enc_bits(),
                        v.file_hash.enc_bits(),
                        rem0.skip(40),
                    );
                    assert(rem2 == rem0.skip(40));
                    assert(rem3 =~= rem0.skip(40).skip(256));
                };
                assert(v.root_hash.enc_bits() =~= rem2.take(256));
                UInt256::lemma_enc_injective(v.root_hash, x.root_hash);
                assert(v.file_hash.enc_bits() =~= rem3.take(256));
                UInt256::lemma_enc_injective(v.file_hash, x.file_hash);
                crate::cells::lemma_uint_prefix(v.gen_utime as u64, 32, rem5);
            };
        }
        Ok(x)
    }
}

/// How a stream that begins with an extended descriptor's encoding splits
/// into its fields.
proof fn lemma_cnw_ext_enc_parts(v: ConnectedNwDescrExt, rem0: Seq<bool>)
    requires
        v.enc_bits().is_prefix_of(rem0),
    ensures
        rem0.len() >= 4,
        bits_val(rem0.take(4)) == 1,
        v.queue_descr.enc_bits().is_prefix_of(rem0.skip(4)),
        (match v.descr {
            Some(d) => {
                &&& rem0.skip(4 + v.queue_descr.enc_bits().len() as int)[0] == true
                &&& d.enc_bits().is_prefix_of(rem0.skip(5 + v.queue_descr.enc_bits().len() as int))
            },
            None => rem0.skip(4 + v.queue_descr.enc_bits().len() as int)[0] == false,
        }),
{
    lemma2_to64();
    let tail = (match v.descr {
        Some(d) => seq![true] + d.enc_bits(),
        None => seq![false],
    });
    assert(v.enc_bits() =~= uint_bits(1, 4) + (v.queue_descr.enc_bits() + tail));
    crate::cells::lemma_prefix_parts(uint_bits(1, 4), v.queue_descr.enc_bits() + tail, rem0);
    crate::cells::lemma_uint_prefix(1, 4, rem0);
    crate::cells::lemma_prefix_parts(v.queue_descr.enc_bits(), tail, rem0.skip(4));
    let qlen = v.queue_descr.enc_bits().len() as int;
    assert(rem0.skip(4).skip(qlen) =~= rem0.skip(4 + qlen));
    match v.descr {
        Some(d) => {
            crate::cells::lemma_prefix_parts(seq![true], d.enc_bits(), rem0.skip(4 + qlen));
            assert(rem0.skip(4 + qlen).skip(1) =~= rem0.skip(5 + qlen));
            assert(rem0.skip(4 + qlen)[0] == seq![true][0]);
        },
        None => {
            assert(rem0.skip(4 + qlen)[0] == seq![false][0]);
        },
    }
}

impl ConnectedNwDescrExt {
    /// The wire form: tag, the queue summary, then the optional block
    /// descriptor behind a presence bit.
    pub open spec fn enc_bits(self) -> Seq<bool> {
        uint_bits(1, 4) + self.queue_descr.enc_bits() + (match self.descr {
            Some(d) => seq![true] + d.enc_bits(),
            None => seq![false],
        })
    }

    /// The child cells: the queue summary's hash update.
    pub open spec fn enc_refs(self) -> Seq<CellData> {
        self.queue_descr.enc_refs()
    }

    /// Writes the extended descriptor.
    pub fn write_to(&self, b: &mut BuilderData) -> (r: Result<(), BlockError>)
        ensures
            r.is_ok(),
            final(b).bits_spec() == old(b).bits_spec() + self.enc_bits(),
            final(b).refs_spec() == old(b).refs_spec() + self.enc_refs(),
    {
        proof {
            lemma2_to64();
        }
        b.append_bits(1, 4);
        self.queue_descr.write_to(b)?;
        match &self.descr {
            Some(d) => {
                b.append_bit(true);
                d.write_to(b)?;
            },
            None => {
                b.append_bit(false);
            },
        }
        proof {
            assert(final(b).bits_spec() =~= old(b).bits_spec() + self.enc_bits());
            assert(final(b).refs_spec() =~= old(b).refs_spec() + self.enc_refs());
        }
        Ok(())
    }

    /// Reads an extended descriptor; consumes exactly its bits and child
    /// cell on success.
    #[verifier::rlimit(100)]
    pub fn read_from(s: &mut SliceData) -> (r: Result<ConnectedNwDescrExt, BlockError>)
        ensures
            forall|v: ConnectedNwDescrExt|
                (#[trigger] v.enc_bits()).is_prefix_of(old(s).rem_bits())
                    && v.enc_refs().is_prefix_of(old(s).rem_refs()) ==> r == Ok::<
                    ConnectedNwDescrExt,
                    BlockError,
                >(v),
            old(s).rem_bits().len() < 4 ==> r == Err::<Self, BlockError>(
                BlockError::CellUnderflow,
            ),
            old(s).rem_bits().len() >= 4 && !(bits_val(old(s).rem_bits().take(4)) == 1) ==> (r matches Err(e2) && e2 == (
            BlockError::InvalidConstructorTag { t: (bits_val(old(s).rem_bits().take(4)) as u64) })),
            match r {
                Ok(x) => {
                    &&& old(s).rem_bits() == x.enc_bits() + final(s).rem_bits()
                    &&& old(s).rem_refs() == x.enc_refs() + final(s).rem_refs()
                },
                Err(e) => e == BlockError::CellUnderflow || e == BlockError::InvalidData || e
                    matches BlockError::InvalidConstructorTag { .. },
            },
    {
        proof {
            lemma2_to64();
        }
        let ghost rem0 = s.rem_bits();
        let ghost refs0 = s.rem_refs();
        proof {
            assert forall|v: ConnectedNwDescrExt| #[trigger] v.enc_bits().is_prefix_of(rem0)
                && v.enc_refs().is_prefix_of(refs0) implies rem0.len() >= 4 && bits_val(
                rem0.take(4),
            ) == 1 && v.queue_descr.enc_bits().is_prefix_of(rem0.skip(4))
                && v.queue_descr.enc_refs().is_prefix_of(refs0) && (
            match v.descr {
                Some(d) => {
                    &&& rem0.skip(4 + v.queue_descr.enc_bits().len() as int)[0] == true
                    &&& d.enc_bits().is_prefix_of(
                        rem0.skip(5 + v.queue_descr.enc_bits().len() as int),
                    )
                },
                None => rem0.skip(4 + v.queue_descr.enc_bits().len() as int)[0] == false,
            }) by {
                lemma_cnw_ext_enc_parts(v, rem0);
            };
        }
        let tag = s.get_next_int(4)?;
        if tag != 1 {
            return Err(BlockError::InvalidConstructorTag { t: tag });
        }
        let ghost remq = s.rem_bits();
        let queue_descr = ConnectedNwOutDescr::read_from(s)?;
        let ghost remb = s.rem_bits();
        proof {
            assert forall|v: ConnectedNwDescrExt| (#[trigger] v.enc_bits()).is_prefix_of(rem0)
                && v.enc_refs().is_prefix_of(refs0) implies v.queue_descr == queue_descr && (
            remb =~= rem0.skip(4 + queue_descr.enc_bits().len() as int)) by {
                assert(remq == rem0.skip(4));
                assert(remb =~= remq.skip(queue_descr.enc_bits().len() as int));
                assert(remb =~= rem0.skip(4).skip(queue_descr.enc_bits().len() as int));
            };
        }
        let present = s.get_next_bit()?;
        let ghost remd = s.rem_bits();
        let descr = if present {
            Some(
                match ConnectedNwDescr::read_from(s) {
                    Ok(d) => d,
                    Err(e) => {
                        proof {
                            assert forall|v: ConnectedNwDescrExt|
                                !((#[trigger] v.enc_bits()).is_prefix_of(rem0)
                                    && v.enc_refs().is_prefix_of(refs0)) by {
                                if v.enc_bits().is_prefix_of(rem0) && v.enc_refs().is_prefix_of(
                                    refs0,
                                ) {
                                    let qlen = queue_descr.enc_bits().len() as int;
                                    assert(remd =~= remb.skip(1));
                                    assert(remd =~= rem0.skip(4 + qlen).skip(1));
                                    assert(remd =~= rem0.skip(5 + qlen));
                                    match v.descr {
                                        Some(d) => {
                                            assert(d.enc_bits().is_prefix_of(remd));
                                        },
                                        None => {
                                            assert(remb[0] == rem0.skip(4 + qlen)[0]);
                                        },
                                    }
                                }
                            };
                        }
                        return Err(e);
                    },
                },
            )
        } else {
            None
        };
        let x = ConnectedNwDescrExt { queue_descr, descr };
        proof {
            crate::cells::lemma_read_exact(rem0, 4, tag);
            assert(remq == queue_descr.enc_bits() + remb);
            assert(remb =~= seq![remb[0]] + remd);
            match descr {
                Some(d) => {
                    assert(remd == d.enc_bits() + final(s).rem_bits());
                    assert(remb =~= (seq![true] + d.enc_bits()) + final(s).rem_bits());
                },
                None => {
                    assert(remb =~= seq![false] + final(s).rem_bits());
                },
            }
            assert(rem0 =~= rem0.take(4) + (queue_descr.enc_bits() + (remb)));
            assert(rem0 =~= x.enc_bits() + final(s).rem_bits());
            assert(old(s).rem_refs() =~= x.enc_refs() + final(s).rem_refs());
            assert forall|v: ConnectedNwDescrExt| (#[trigger] v.enc_bits()).is_prefix_of(rem0)
                && v.enc_refs().is_prefix_of(refs0) implies v == x by {
                let qlen = queue_descr.enc_bits().len() as int;
                assert(remd =~= remb.skip(1));
                assert(remd =~= rem0.skip(4 + qlen).skip(1));
                assert(remd =~= rem0.skip(5 + qlen));
                match v.descr {
                    Some(d) => {
                        assert(present);
                        assert(d.enc_bits().is_prefix_of(remd));
                    },
                    None => {
                        assert(remb[0] == rem0.skip(4 + qlen)[0]);
                        assert(!present);
                    },
                }
            };
        }
        Ok(x)
    }
}

impl MsgPackId {
    /// The 320-bit wire form: workchain, sequence number, hash.
    pub open spec fn enc_bits(self) -> Seq<bool> {
        uint_bits(wc_word(self.workchain_id) as u64, 32) + uint_bits(self.seq_no as u64, 32)
            + self.hash.enc_bits()
    }

    /// Equal encodings come from equal identifiers.
    pub proof fn lemma_enc_injective(a: MsgPackId, b: MsgPackId)
        requires
            a.enc_bits() == b.enc_bits(),
        ensures
            a == b,
    {
        lemma2_to64();
        lemma2_to64_rest();
        assert(uint_bits(wc_word(a.workchain_id) as u64, 32) =~= a.enc_bits().take(32));
        assert(uint_bits(wc_word(b.workchain_id) as u64, 32) =~= b.enc_bits().take(32));
        crate::cells::lemma_uint_bits_val(wc_word(a.workchain_id) as u64, 32);
        crate::cells::lemma_uint_bits_val(wc_word(b.workchain_id) as u64, 32);
        lemma_wc_word_roundtrip(a.workchain_id);
        lemma_wc_word_roundtrip(b.workchain_id);
        assert(uint_bits(a.seq_no as u64, 32) =~= a.enc_bits().skip(32).take(32));
        assert(uint_bits(b.seq_no as u64, 32) =~= b.enc_bits().skip(32).take(32));
        crate::cells::lemma_uint_bits_val(a.seq_no as u64, 32);
        crate::cells::lemma_uint_bits_val(b.seq_no as u64, 32);
        assert(a.hash.enc_bits() =~= a.enc_bits().skip(64));
        assert(b.hash.enc_bits() =~= b.enc_bits().skip(64));
        crate::types::UInt256::lemma_enc_injective(a.hash, b.hash);
    }

    /// Writes the identifier.
    pub fn write_to(&self, b: &mut BuilderData) -> (r: Result<(), BlockError>)
        ensures
            r.is_ok(),
            final(b).bits_spec() == old(b).bits_spec() + self.enc_bits(),
            final(b).refs_spec() == old(b).refs_spec(),
    {
        proof {
            lemma2_to64();
        }
        b.append_bits(wc_word_exec(self.workchain_id) as u64, 32);
        b.append_bits(self.seq_no as u64, 32);
        self.hash.write_to(b)?;
        proof {
            assert(final(b).bits_spec() =~= old(b).bits_spec() + self.enc_bits());
        }
        Ok(())
    }

    /// Reads an identifier; consumes exactly its encoding on success.
    pub fn read_from(s: &mut SliceData) -> (r: Result<MsgPackId, BlockError>)
        ensures
            old(s).rem_bits().len() >= 320 ==> r.is_ok(),
            match r {
                Ok(x) => {
                    &&& old(s).rem_bits() == x.enc_bits() + final(s).rem_bits()
                    &&& final(s).rem_refs() == old(s).rem_refs()
                },
                Err(e) => e == BlockError::CellUnderflow,
            },
    {
        proof {
            lemma2_to64();
        }
        let ghost rem0 = s.rem_bits();
        let wc = s.get_next_int(32)?;
        let ghost rem1 = s.rem_bits();
        let seq_no = s.get_next_int(32)?;
        let ghost rem2 = s.rem_bits();
        let hash = UInt256::read_from(s)?;
        let x = MsgPackId { workchain_id: i32_of_word(wc as u32), seq_no: seq_no as u32, hash };
        proof {
            crate::cells::lemma_read_exact(rem0, 32, wc);
            crate::cells::lemma_read_exact(rem1, 32, seq_no);
            assert(rem0 =~= rem0.take(32) + (rem1.take(32) + (rem2.take(256) + final(s).rem_bits())));
            assert(rem0 =~= x.enc_bits() + final(s).rem_bits());
        }
        Ok(x)
    }
}

impl MsgPackProcessingInfo {
    /// The wire form: tag, round, pack identifier, then the optional last
    /// included hash behind a presence bit.
    pub open spec fn enc_bits(self) -> Seq<bool> {
        uint_bits(1, 4) + uint_bits(self.round, 64) + self.last_id.enc_bits() + (
        match self.last_partially_included {
            Some(h) => seq![true] + h.enc_bits(),
            None => seq![false],
        })
    }

    /// Writes the processing info.
    pub fn write_to(&self, b: &mut BuilderData) -> (r: Result<(), BlockError>)
        ensures
            r.is_ok(),
            final(b).bits_spec() == old(b).bits_spec() + self.enc_bits(),
            final(b).refs_spec() == old(b).refs_spec(),
    {
        proof {
            lemma2_to64();
            lemma2_to64_rest();
        }
        b.append_bits(1, 4);
        b.append_bits(self.round, 64);
        self.last_id.write_to(b)?;
        match &self.last_partially_included {
            Some(h) => {
                b.append_bit(true);
                h.write_to(b)?;
            },
            None => {
                b.append_bit(false);
            },
        }
        proof {
            assert(final(b).bits_spec() =~= old(b).bits_spec() + self.enc_bits());
        }
        Ok(())
    }

    /// Reads processing info; consumes exactly its encoding on success.
    pub fn read_from(s: &mut SliceData) -> (r: Result<MsgPackProcessingInfo, BlockError>)
        ensures
            forall|v: MsgPackProcessingInfo|
                (#[trigger] v.enc_bits()).is_prefix_of(old(s).rem_bits()) ==> r == Ok::<
                    MsgPackProcessingInfo,
                    BlockError,
                >(v),
            old(s).rem_bits().len() < 4 ==> r == Err::<Self, BlockError>(
                BlockError::CellUnderflow,
            ),
            old(s).rem_bits().len() >= 4 && !(bits_val(old(s).rem_bits().take(4)) == 1) ==> (r matches Err(e2) && e2 == (
            BlockError::InvalidConstructorTag { t: (bits_val(old(s).rem_bits().take(4)) as u64) })),
            match r {
                Ok(x) => {
                    &&& old(s).rem_bits() == x.enc_bits() + final(s).rem_bits()
                    &&& final(s).rem_refs() == old(s).rem_refs()
                },
                Err(e) => e == BlockError::CellUnderflow || e matches
                    BlockError::InvalidConstructorTag { .. },
            },
    {
        proof {
            lemma2_to64();
            lemma2_to64_rest();
        }
        let ghost rem0 = s.rem_bits();
        proof {
            assert forall|v: MsgPackProcessingInfo| #[trigger] v.enc_bits().is_prefix_of(rem0)
                implies rem0.len() >= 389 && bits_val(rem0.take(4)) == 1 && uint_bits(
                v.round,
                64,
            ).is_prefix_of(rem0.skip(4)) && v.last_id.enc_bits().is_prefix_of(rem0.skip(68)) && (
            match v.last_partially_included {
                Some(h) => rem0[388] == true && h.enc_bits().is_prefix_of(rem0.skip(389)),
                None => rem0[388] == false,
            }) by {
                let tail = (match v.last_partially_included {
                    Some(h) => seq![true] + h.enc_bits(),
                    None => seq![false],
                });
                assert(v.enc_bits() =~= uint_bits(1, 4) + (uint_bits(v.round, 64) + (
                v.last_id.enc_bits() + tail)));
                crate::cells::lemma_prefix_parts(
                    uint_bits(1, 4),
                    uint_bits(v.round, 64) + (v.last_id.enc_bits() + tail),
                    rem0,
                );
                crate::cells::lemma_uint_prefix(1, 4, rem0);
                crate::cells::lemma_prefix_parts(
                    uint_bits(v.round, 64),
                    v.last_id.enc_bits() + tail,
                    rem0.skip(4),
                );
                assert(rem0.skip(4).skip(64) =~= rem0.skip(68));
                crate::cells::lemma_prefix_parts(v.last_id.enc_bits(), tail, rem0.skip(68));
                assert(rem0.skip(68).skip(320) =~= rem0.skip(388));
                match v.last_partially_included {
                    Some(h) => {
                        crate::cells::lemma_prefix_parts(seq![true], h.enc_bits(), rem0.skip(388));
                        assert(rem0.skip(388).skip(1) =~= rem0.skip(389));
                        assert(rem0.skip(388)[0] == seq![true][0]);
                    },
                    None => {
                        assert(rem0.skip(388)[0] == seq![false][0]);
                    },
                }
            };
        }
        let tag = s.get_next_int(4)?;
        if tag != 1 {
            return Err(BlockError::InvalidConstructorTag { t: tag });
        }
        let ghost rem1 = s.rem_bits();
        let round = s.get_next_int(64)?;
        let ghost remli = s.rem_bits();
        let last_id = MsgPackId::read_from(s)?;
        let ghost remb = s.rem_bits();
        let present = s.get_next_bit()?;
        let ghost remh = s.rem_bits();
        let last_partially_included = if present {
            Some(
                match UInt256::read_from(s) {
                    Ok(h) => h,
                    Err(e) => {
                        proof {
                            assert forall|v: MsgPackProcessingInfo|
                                !(#[trigger] v.enc_bits()).is_prefix_of(rem0) by {
                                if v.enc_bits().is_prefix_of(rem0) {
                                    assert(remli =~= rem0.skip(68));
                                    assert(remb =~= remli.skip(320));
                                    assert(remb =~= rem0.skip(68).skip(320));
                                    assert(remb =~= rem0.skip(388));
                                    assert(remh =~= remb.skip(1));
                                    assert(remh =~= rem0.skip(388).skip(1));
                                    assert(remh =~= rem0.skip(389));
                                    match v.last_partially_included {
                                        Some(h) => {
                                            assert(h.enc_bits().is_prefix_of(rem0.skip(389)));
                                        },
                                        None => {
                                            assert(rem0[388] == false);
                                            assert(remb[0] == rem0.skip(388)[0]);
                                        },
                                    }
                                }
                            };
                        }
                        return Err(e);
                    },
                },
            )
        } else {
            None
        };
        let x = MsgPackProcessingInfo { round, last_id, last_partially_included };
        proof {
            crate::cells::lemma_read_exact(rem0, 4, tag);
            crate::cells::lemma_read_exact(rem1, 64, round);
            assert(remli == last_id.enc_bits() + remb);
            assert(remb =~= seq![remb[0]] + remh);
            match last_partially_included {
                Some(h) => {
                    assert(remh =~= h.enc_bits().take(256) + final(s).rem_bits());
                    assert(remb =~= (seq![true] + h.enc_bits()) + final(s).rem_bits());
                },
                None => {
                    assert(remb =~= seq![false] + final(s).rem_bits());
                },
            }
            assert(rem1 =~= rem1.take(64) + remli);
            assert(rem0 =~= rem0.take(4) + rem1);
            assert(rem0 == rem0.take(4) + (rem1.take(64) + (last_id.enc_bits() + remb)));
            assert(rem0 =~= x.enc_bits() + final(s).rem_bits());
            assert forall|v: MsgPackProcessingInfo| (#[trigger] v.enc_bits()).is_prefix_of(rem0)
                implies v == x by {
                crate::cells::lemma_uint_prefix(v.round, 64, rem1);
                assert(remli =~= rem0.skip(68));
                assert(v.last_id.enc_bits() =~= remli.take(320));
                assert(last_id.enc_bits() =~= remli.take(320));
                MsgPackId::lemma_enc_injective(v.last_id, last_id);
                assert(remb =~= remli.skip(320));
                assert(remb =~= rem0.skip(68).skip(320));
                assert(remb =~= rem0.skip(388));
                assert(remh =~= remb.skip(1));
                assert(remh =~= rem0.skip(388).skip(1));
                assert(remh =~= rem0.skip(389));
                match v.last_partially_included {
                    Some(h) => {
                        assert(present);
                        assert(h.enc_bits() =~= remh.take(256));
                        match x.last_partially_included {
                            Some(h2) => {
                                assert(h2.enc_bits() =~= remh.take(256));
                                crate::types::UInt256::lemma_enc_injective(h, h2);
                            },
                            None => {},
                        }
                    },
                    None => {
                        assert(!present);
                    },
                }
            };
        }
        Ok(x)
    }
}

} // verus!

verus! {

/// The encodings of a validator-statistics list, in order.
pub open spec fn vstat_entries_bits(s: Seq<(u16, u64)>) -> Seq<bool>
    decreases s.len(),
{
    if s.len() == 0 {
        Seq::<bool>::empty()
    } else {
        uint_bits(s[0].0 as u64, 16) + uint_bits(s[0].1, 64) + vstat_entries_bits(s.skip(1))
    }
}

proof fn lemma_vstat_push(s: Seq<(u16, u64)>, k: u16, v: u64)
    ensures
        vstat_entries_bits(s.push((k, v))) == vstat_entries_bits(s) + uint_bits(k as u64, 16)
            + uint_bits(v, 64),
    decreases s.len(),
{
    if s.len() == 0 {
        assert(vstat_entries_bits(Seq::<(u16, u64)>::empty()) == Seq::<bool>::empty());
        assert(s.push((k, v))[0] == (k, v));
        assert(s.push((k, v)).skip(1) =~= Seq::<(u16, u64)>::empty());
        assert(vstat_entries_bits(s.push((k, v))) =~= vstat_entries_bits(s) + uint_bits(
            k as u64,
            16,
        ) + uint_bits(v, 64));
    } else {
        lemma_vstat_push(s.skip(1), k, v);
        assert(s.push((k, v)).skip(1) =~= s.skip(1).push((k, v)));
        assert(s.push((k, v))[0] == s[0]);
        assert(vstat_entries_bits(s.push((k, v))) =~= vstat_entries_bits(s) + uint_bits(
            k as u64,
            16,
        ) + uint_bits(v, 64));
    }
}

impl ValidatorsStat {
    /// The wire form: entry count, then each validator and count.
    pub open spec fn enc_bits(self) -> Seq<bool> {
        uint_bits(self@.len() as u64, 16) + vstat_entries_bits(self@)
    }

    /// Writes the record set; fails exactly when the count does not fit.
    pub fn write_to(&self, b: &mut BuilderData) -> (r: Result<(), BlockError>)
        ensures
            match r {
                Ok(_) => {
                    &&& self@.len() < 0x1_0000
                    &&& final(b).bits_spec() == old(b).bits_spec() + self.enc_bits()
                    &&& final(b).refs_spec() == old(b).refs_spec()
                },
                Err(e) => e == BlockError::IntOverflow && self@.len() >= 0x1_0000,
            },
    {
        proof {
            lemma2_to64();
            lemma2_to64_rest();
        }
        let entries = self.entries();
        if (entries.len() as u64) >= 0x1_0000u64 {
            return Err(BlockError::IntOverflow);
        }
        b.append_bits(entries.len() as u64, 16);
        let ghost es = self@;
        let mut i: usize = 0;
        while i < entries.len()
            invariant
                i <= es.len(),
                entries@ == es,
                es.len() < 0x1_0000,
                b.bits_spec() =~= old(b).bits_spec() + uint_bits(es.len() as u64, 16)
                    + vstat_entries_bits(es.take(i as int)),
                b.refs_spec() == old(b).refs_spec(),
            decreases es.len() - i,
        {
            let (k, v) = entries[i];
            proof {
                lemma2_to64();
                lemma2_to64_rest();
            }
            b.append_bits(k as u64, 16);
            b.append_bits(v, 64);
            proof {
                lemma_vstat_push(es.take(i as int), k, v);
                assert(es.take(i as int).push((k, v)) =~= es.take(i as int + 1));
            }
            i = i + 1;
        }
        proof {
            assert(es.take(es.len() as int) =~= es);
            assert(final(b).bits_spec() =~= old(b).bits_spec() + self.enc_bits());
        }
        Ok(())
    }

    /// Reads a record set; consumes exactly the encoding of the result.
    pub fn read_from(s: &mut SliceData) -> (r: Result<ValidatorsStat, BlockError>)
        ensures
            old(s).rem_bits().len() >= 16 + 80 * (bits_val(old(s).rem_bits().take(16)) as int)
                ==> r.is_ok(),
            match r {
                Ok(x) => {
                    &&& old(s).rem_bits() == x.enc_bits() + final(s).rem_bits()
                    &&& final(s).rem_refs() == old(s).rem_refs()
                },
                Err(e) => e == BlockError::CellUnderflow,
            },
    {
        proof {
            lemma2_to64();
            lemma2_to64_rest();
        }
        let ghost rem0 = s.rem_bits();
        let n = s.get_next_int(16)?;
        let ghost rem1 = s.rem_bits();
        let mut x = ValidatorsStat::default();
        let mut i: u64 = 0;
        while i < n
            invariant
                i <= n,
                n < 0x1_0000,
                n as nat == bits_val(old(s).rem_bits().take(16)),
                x@.len() == i,
                rem1 =~= vstat_entries_bits(x@) + s.rem_bits(),
                s.rem_bits().len() <= rem1.len(),
                s.rem_refs() == old(s).rem_refs(),
                old(s).rem_bits().len() >= 16 + 80 * (n as int) ==> s.rem_bits().len() >= 80 * ((
                n - i) as int),
            decreases n - i,
        {
            let ghost before = x@;
            let ghost remk = s.rem_bits();
            let k = s.get_next_int(16)?;
            let ghost remv = s.rem_bits();
            let v = s.get_next_int(64)?;
            x.push(k as u16, v);
            proof {
                lemma2_to64();
                lemma2_to64_rest();
                crate::cells::lemma_read_exact(remk, 16, k);
                crate::cells::lemma_read_exact(remv, 64, v);
                lemma_vstat_push(before, k as u16, v);
                assert(rem1 =~= vstat_entries_bits(x@) + s.rem_bits());
            }
            i = i + 1;
        }
        proof {
            crate::cells::lemma_read_exact(rem0, 16, n);
            assert(rem0 =~= rem0.take(16) + rem1);
            assert(rem0 == rem0.take(16) + (vstat_entries_bits(x@) + final(s).rem_bits()));
            assert(rem0 =~= x.enc_bits() + final(s).rem_bits());
        }
        Ok(x)
    }
}

/// The encodings of a copyleft-reward list, in order.
pub open spec fn copyleft_entries_bits(s: Seq<(UInt256, u64)>) -> Seq<bool>
    decreases s.len(),
{
    if s.len() == 0 {
        Seq::<bool>::empty()
    } else {
        s[0].0.enc_bits() + var_uint_bits(s[0].1, 4) + copyleft_entries_bits(s.skip(1))
    }
}

proof fn lemma_copyleft_push(s: Seq<(UInt256, u64)>, k: UInt256, v: u64)
    ensures
        copyleft_entries_bits(s.push((k, v))) == copyleft_entries_bits(s) + k.enc_bits()
            + var_uint_bits(v, 4),
    decreases s.len(),
{
    if s.len() == 0 {
        assert(copyleft_entries_bits(Seq::<(UInt256, u64)>::empty()) == Seq::<bool>::empty());
        assert(s.push((k, v))[0] == (k, v));
        assert(s.push((k, v)).skip(1) =~= Seq::<(UInt256, u64)>::empty());
        assert(copyleft_entries_bits(s.push((k, v))) =~= copyleft_entries_bits(s) + k.enc_bits()
            + var_uint_bits(v, 4));
    } else {
        lemma_copyleft_push(s.skip(1), k, v);
        assert(s.push((k, v)).skip(1) =~= s.skip(1).push((k, v)));
        assert(s.push((k, v))[0] == s[0]);
        assert(copyleft_entries_bits(s.push((k, v))) =~= copyleft_entries_bits(s) + k.enc_bits()
            + var_uint_bits(v, 4));
    }
}

impl CopyleftRewards {
    /// The wire form: entry count, then each account and reward.
    pub open spec fn enc_bits(self) -> Seq<bool> {
        uint_bits(self@.len() as u64, 16) + copyleft_entries_bits(self@)
    }

    /// Writes the reward set; fails exactly when the count does not fit.
    pub fn write_to(&self, b: &mut BuilderData) -> (r: Result<(), BlockError>)
        ensures
            match r {
                Ok(_) => {
                    &&& self@.len() < 0x1_0000
                    &&& final(b).bits_spec() == old(b).bits_spec() + self.enc_bits()
                    &&& final(b).refs_spec() == old(b).refs_spec()
                },
                Err(e) => e == BlockError::IntOverflow && self@.len() >= 0x1_0000,
            },
    {
        proof {
            lemma2_to64();
            lemma2_to64_rest();
        }
        let entries = self.entries();
        if (entries.len() as u64) >= 0x1_0000u64 {
            return Err(BlockError::IntOverflow);
        }
        b.append_bits(entries.len() as u64, 16);
        let ghost es = self@;
        let mut i: usize = 0;
        while i < entries.len()
            invariant
                i <= es.len(),
                entries@ == es,
                es.len() < 0x1_0000,
                b.bits_spec() =~= old(b).bits_spec() + uint_bits(es.len() as u64, 16)
                    + copyleft_entries_bits(es.take(i as int)),
                b.refs_spec() == old(b).refs_spec(),
            decreases es.len() - i,
        {
            let (k, v) = entries[i];
            let _ = k.write_to(b);
            let _ = write_var_uint(b, v, 4);
            proof {
                lemma_copyleft_push(es.take(i as int), k, v);
                assert(es.take(i as int).push((k, v)) =~= es.take(i as int + 1));
            }
            i = i + 1;
        }
        proof {
            assert(es.take(es.len() as int) =~= es);
            assert(final(b).bits_spec() =~= old(b).bits_spec() + self.enc_bits());
        }
        Ok(())
    }

    /// Reads a reward set; consumes exactly the encoding of the result.
    #[verifier::rlimit(100)]
    pub fn read_from(s: &mut SliceData) -> (r: Result<CopyleftRewards, BlockError>)
        ensures
            match r {
                Ok(x) => {
                    &&& old(s).rem_bits() == x.enc_bits() + final(s).rem_bits()
                    &&& final(s).rem_refs() == old(s).rem_refs()
                },
                Err(e) => e == BlockError::CellUnderflow || e == BlockError::InvalidData,
            },
            forall|v: Seq<(UInt256, u64)>|
                v.len() < 0x1_0000 && (#[trigger] (uint_bits(v.len() as u64, 16)
                    + copyleft_entries_bits(v))).is_prefix_of(old(s).rem_bits()) ==> (r matches Ok(
                    x2,
                ) && x2@ == v),
    {
        proof {
            lemma2_to64();
            lemma2_to64_rest();
        }
        let ghost rem0 = s.rem_bits();
        proof {
            assert forall|v: Seq<(UInt256, u64)>|
                v.len() < 0x1_0000 && (#[trigger] (uint_bits(v.len() as u64, 16)
                    + copyleft_entries_bits(v))).is_prefix_of(rem0) implies rem0.len() >= 16
                && bits_val(rem0.take(16)) == v.len() && copyleft_entries_bits(v).is_prefix_of(
                rem0.skip(16),
            ) by {
                crate::cells::lemma_prefix_parts(
                    uint_bits(v.len() as u64, 16),
                    copyleft_entries_bits(v),
                    rem0,
                );
                crate::cells::lemma_uint_prefix(v.len() as u64, 16, rem0);
            };
        }
        let n = s.get_next_int(16)?;
        let ghost rem1 = s.rem_bits();
        let mut x = CopyleftRewards::default();
        proof {
            assert forall|v: Seq<(UInt256, u64)>|
                v.len() < 0x1_0000 && (#[trigger] (uint_bits(v.len() as u64, 16)
                    + copyleft_entries_bits(v))).is_prefix_of(rem0) implies x@ == v.take(0)
                && copyleft_entries_bits(v.skip(0)).is_prefix_of(rem1) by {
                assert(v.skip(0) =~= v);
                assert(v.take(0) =~= Seq::<(UInt256, u64)>::empty());
            };
        }
        let mut i: u64 = 0;
        while i < n
            invariant
                i <= n,
                n < 0x1_0000,
                rem0 == old(s).rem_bits(),
                rem1 == rem0.skip(16),
                n as nat == bits_val(rem0.take(16)),
                x@.len() == i,
                rem1 =~= copyleft_entries_bits(x@) + s.rem_bits(),
                s.rem_bits().len() <= rem1.len(),
                s.rem_refs() == old(s).rem_refs(),
                forall|v: Seq<(UInt256, u64)>|
                    v.len() < 0x1_0000 && (#[trigger] (uint_bits(v.len() as u64, 16)
                        + copyleft_entries_bits(v))).is_prefix_of(rem0) ==> (i <= v.len() && x@
                        == v.take(i as int) && copyleft_entries_bits(v.skip(i as int)).is_prefix_of(
                        s.rem_bits(),
                    )),
            decreases n - i,
        {
            let ghost before = x@;
            let ghost cur = s.rem_bits();
            proof {
                assert forall|v: Seq<(UInt256, u64)>|
                    v.len() < 0x1_0000 && (#[trigger] (uint_bits(v.len() as u64, 16)
                        + copyleft_entries_bits(v))).is_prefix_of(rem0) implies v[i as int].0.enc_bits().is_prefix_of(
                    cur,
                ) && var_uint_bits(v[i as int].1, 4).is_prefix_of(cur.skip(256)) by {
                    lemma2_to64();
                    lemma2_to64_rest();
                    crate::cells::lemma_uint_prefix(v.len() as u64, 16, rem0);
                    assert(i < v.len());
                    let t = v.skip(i as int);
                    assert(t[0] == v[i as int]);
                    assert(t.skip(1) =~= v.skip(i as int + 1));
                    assert(copyleft_entries_bits(t) == v[i as int].0.enc_bits() + var_uint_bits(
                        v[i as int].1,
                        4,
                    ) + copyleft_entries_bits(v.skip(i as int + 1)));
                    assert(copyleft_entries_bits(t) =~= v[i as int].0.enc_bits() + (var_uint_bits(
                        v[i as int].1,
                        4,
                    ) + copyleft_entries_bits(v.skip(i as int + 1))));
                    crate::cells::lemma_prefix_parts(
                        v[i as int].0.enc_bits(),
                        var_uint_bits(v[i as int].1, 4) + copyleft_entries_bits(
                            v.skip(i as int + 1),
                        ),
                        cur,
                    );
                    crate::cells::lemma_prefix_parts(
                        var_uint_bits(v[i as int].1, 4),
                        copyleft_entries_bits(v.skip(i as int + 1)),
                        cur.skip(256),
                    );
                };
            }
            let k = UInt256::read_from(s)?;
            let ghost remv = s.rem_bits();
            let v = read_var_uint(s, 4)?;
            x.push(k, v);
            proof {
                lemma_copyleft_push(before, k, v);
                assert(rem1 =~= copyleft_entries_bits(x@) + s.rem_bits());
                assert forall|vv: Seq<(UInt256, u64)>|
                    vv.len() < 0x1_0000 && (#[trigger] (uint_bits(vv.len() as u64, 16)
                        + copyleft_entries_bits(vv))).is_prefix_of(rem0) implies (i + 1 <= vv.len()
                    && x@ == vv.take(i as int + 1) && copyleft_entries_bits(
                    vv.skip(i as int + 1),
                ).is_prefix_of(s.rem_bits())) by {
                    lemma2_to64();
                    lemma2_to64_rest();
                    crate::cells::lemma_uint_prefix(vv.len() as u64, 16, rem0);
                    assert(i < vv.len());
                    assert(vv[i as int].0.enc_bits() =~= cur.take(256));
                    assert(k.enc_bits() =~= cur.take(256));
                    UInt256::lemma_enc_injective(vv[i as int].0, k);
                    assert(remv =~= cur.skip(256));
                    assert(vv[i as int].1 == v);
                    assert(before.push((k, v)) =~= vv.take(i as int).push(vv[i as int]));
                    assert(vv.take(i as int).push(vv[i as int]) =~= vv.take(i as int + 1));
                    let t = vv.skip(i as int);
                    assert(t[0] == vv[i as int]);
                    assert(t.skip(1) =~= vv.skip(i as int + 1));
                    assert(copyleft_entries_bits(t) =~= vv[i as int].0.enc_bits() + (var_uint_bits(
                        vv[i as int].1,
                        4,
                    ) + copyleft_entries_bits(vv.skip(i as int + 1))));
                    assert(copyleft_entries_bits(t).is_prefix_of(cur));
                    crate::cells::lemma_prefix_parts(
                        vv[i as int].0.enc_bits(),
                        var_uint_bits(vv[i as int].1, 4) + copyleft_entries_bits(
                            vv.skip(i as int + 1),
                        ),
                        cur,
                    );
                    crate::cells::lemma_prefix_parts(
                        var_uint_bits(vv[i as int].1, 4),
                        copyleft_entries_bits(vv.skip(i as int + 1)),
                        cur.skip(256),
                    );
                    assert(s.rem_bits() =~= remv.skip(
                        (4 + 8 * crate::types::min_bytes(v)) as int,
                    ));
                    assert(copyleft_entries_bits(vv.skip(i as int + 1)).is_prefix_of(
                        cur.skip(256).skip((4 + 8 * crate::types::min_bytes(v)) as int),
                    ));
                    assert(cur.skip(256).skip((4 + 8 * crate::types::min_bytes(v)) as int)
                        =~= s.rem_bits());
                };
            }
            i = i + 1;
        }
        proof {
            assert forall|v: Seq<(UInt256, u64)>|
                v.len() < 0x1_0000 && (#[trigger] (uint_bits(v.len() as u64, 16)
                    + copyleft_entries_bits(v))).is_prefix_of(rem0) implies x@ == v by {
                lemma2_to64();
                lemma2_to64_rest();
                crate::cells::lemma_uint_prefix(v.len() as u64, 16, rem0);
                assert(v.take(v.len() as int) =~= v);
            };
        }
        proof {
            crate::cells::lemma_read_exact(rem0, 16, n);
            assert(rem0 =~= rem0.take(16) + rem1);
            assert(rem0 == rem0.take(16) + (copyleft_entries_bits(x@) + final(s).rem_bits()));
            assert(rem0 =~= x.enc_bits() + final(s).rem_bits());
        }
        Ok(x)
    }
}

/// The inline encodings of a connected-network summary list, in order.
pub open spec fn mesh_entries_bits(s: Seq<(i32, ConnectedNwOutDescr)>) -> Seq<bool>
    decreases s.len(),
{
    if s.len() == 0 {
        Seq::<bool>::empty()
    } else {
        uint_bits(wc_word(s[0].0) as u64, 32) + s[0].1.enc_bits() + mesh_entries_bits(s.skip(1))
    }
}

/// The child cells of a connected-network summary list, in order.
pub open spec fn mesh_entries_refs(s: Seq<(i32, ConnectedNwOutDescr)>) -> Seq<CellData>
    decreases s.len(),
{
    if s.len() == 0 {
        Seq::<CellData>::empty()
    } else {
        s[0].1.enc_refs() + mesh_entries_refs(s.skip(1))
    }
}

proof fn lemma_mesh_push(s: Seq<(i32, ConnectedNwOutDescr)>, k: i32, v: ConnectedNwOutDescr)
    ensures
        mesh_entries_bits(s.push((k, v))) == mesh_entries_bits(s) + uint_bits(wc_word(k) as u64, 32)
            + v.enc_bits(),
        mesh_entries_refs(s.push((k, v))) == mesh_entries_refs(s) + v.enc_refs(),
    decreases s.len(),
{
    if s.len() == 0 {
        assert(mesh_entries_bits(Seq::<(i32, ConnectedNwOutDescr)>::empty())
            == Seq::<bool>::empty());
        assert(mesh_entries_refs(Seq::<(i32, ConnectedNwOutDescr)>::empty())
            == Seq::<CellData>::empty());
        assert(s.push((k, v))[0] == (k, v));
        assert(s.push((k, v)).skip(1) =~= Seq::<(i32, ConnectedNwOutDescr)>::empty());
        assert(mesh_entries_bits(s.push((k, v))) =~= mesh_entries_bits(s) + uint_bits(
            wc_word(k) as u64,
            32,
        ) + v.enc_bits());
        assert(mesh_entries_refs(s.push((k, v))) =~~= mesh_entries_refs(s) + v.enc_refs());
    } else {
        lemma_mesh_push(s.skip(1), k, v);
        assert(s.push((k, v)).skip(1) =~= s.skip(1).push((k, v)));
        assert(s.push((k, v))[0] == s[0]);
        assert(mesh_entries_bits(s.push((k, v))) =~= mesh_entries_bits(s) + uint_bits(
            wc_word(k) as u64,
            32,
        ) + v.enc_bits());
        assert(mesh_entries_refs(s.push((k, v))) =~~= mesh_entries_refs(s) + v.enc_refs());
    }
}

impl MeshOutDescr {
    /// The inline wire form: entry count, then each network id and summary.
    pub open spec fn enc_bits(self) -> Seq<bool> {
        uint_bits(self@.len() as u64, 16) + mesh_entries_bits(self@)
    }

    /// The child cells: one hash update per listed network.
    pub open spec fn enc_refs(self) -> Seq<CellData> {
        mesh_entries_refs(self@)
    }

    /// Writes the summaries; fails exactly when the count does not fit.
    pub fn write_to(&self, b: &mut BuilderData) -> (r: Result<(), BlockError>)
        ensures
            match r {
                Ok(_) => {
                    &&& self@.len() < 0x1_0000
                    &&& final(b).bits_spec() == old(b).bits_spec() + self.enc_bits()
                    &&& final(b).refs_spec() == old(b).refs_spec() + self.enc_refs()
                },
                Err(e) => e == BlockError::IntOverflow && self@.len() >= 0x1_0000,
            },
    {
        proof {
            lemma2_to64();
            lemma2_to64_rest();
        }
        let entries = self.entries();
        if (entries.len() as u64) >= 0x1_0000u64 {
            return Err(BlockError::IntOverflow);
        }
        b.append_bits(entries.len() as u64, 16);
        let ghost es = self@;
        let mut i: usize = 0;
        while i < entries.len()
            invariant
                i <= es.len(),
                entries@ == es,
                es.len() < 0x1_0000,
                b.bits_spec() =~= old(b).bits_spec() + uint_bits(es.len() as u64, 16)
                    + mesh_entries_bits(es.take(i as int)),
                b.refs_spec() =~= old(b).refs_spec() + mesh_entries_refs(es.take(i as int)),
            decreases es.len() - i,
        {
            let (k, v) = entries[i];
            let kw = wc_word_exec(k);
            proof {
                lemma2_to64();
                lemma2_to64_rest();
            }
            b.append_bits(kw as u64, 32);
            let _ = v.write_to(b);
            proof {
                lemma_mesh_push(es.take(i as int), k, v);
                assert(es.take(i as int).push((k, v)) =~= es.take(i as int + 1));
            }
            i = i + 1;
        }
        proof {
            assert(es.take(es.len() as int) =~= es);
            assert(final(b).bits_spec() =~= old(b).bits_spec() + self.enc_bits());
            assert(final(b).refs_spec() =~= old(b).refs_spec() + self.enc_refs());
        }
        Ok(())
    }

    /// Reads summaries; consumes exactly the encoding of the result.
    #[verifier::rlimit(100)]
    pub fn read_from(s: &mut SliceData) -> (r: Result<MeshOutDescr, BlockError>)
        ensures
            match r {
                Ok(x) => {
                    &&& old(s).rem_bits() == x.enc_bits() + final(s).rem_bits()
                    &&& old(s).rem_refs() == x.enc_refs() + final(s).rem_refs()
                },
                Err(e) => e == BlockError::CellUnderflow || e == BlockError::InvalidData || e
                    matches BlockError::InvalidConstructorTag { .. },
            },
            forall|v: Seq<(i32, ConnectedNwOutDescr)>|
                v.len() < 0x1_0000 && (#[trigger] (uint_bits(v.len() as u64, 16)
                    + mesh_entries_bits(v))).is_prefix_of(old(s).rem_bits())
                    && mesh_entries_refs(v).is_prefix_of(old(s).rem_refs()) ==> (r matches Ok(x2)
                    && x2@ == v),
    {
        proof {
            lemma2_to64();
            lemma2_to64_rest();
        }
        let ghost rem0 = s.rem_bits();
        let ghost refs0 = s.rem_refs();
        proof {
            assert forall|v: Seq<(i32, ConnectedNwOutDescr)>|
                v.len() < 0x1_0000 && (#[trigger] (uint_bits(v.len() as u64, 16)
                    + mesh_entries_bits(v))).is_prefix_of(rem0) implies rem0.len() >= 16
                && bits_val(rem0.take(16)) == v.len() && mesh_entries_bits(v).is_prefix_of(
                rem0.skip(16),
            ) by {
                crate::cells::lemma_prefix_parts(
                    uint_bits(v.len() as u64, 16),
                    mesh_entries_bits(v),
                    rem0,
                );
                crate::cells::lemma_uint_prefix(v.len() as u64, 16, rem0);
            };
        }
        let n = s.get_next_int(16)?;
        let ghost rem1 = s.rem_bits();
        let mut x = MeshOutDescr::default();
        proof {
            assert forall|v: Seq<(i32, ConnectedNwOutDescr)>|
                v.len() < 0x1_0000 && (#[trigger] (uint_bits(v.len() as u64, 16)
                    + mesh_entries_bits(v))).is_prefix_of(rem0) implies x@ == v.take(0)
                && mesh_entries_bits(v.skip(0)).is_prefix_of(rem1) && mesh_entries_refs(
                v.skip(0),
            ) == mesh_entries_refs(v) by {
                assert(v.skip(0) =~= v);
                assert(v.take(0) =~= Seq::<(i32, ConnectedNwOutDescr)>::empty());
            };
        }
        let mut i: u64 = 0;
        while i < n
            invariant
                i <= n,
                n < 0x1_0000,
                rem0 == old(s).rem_bits(),
                refs0 == old(s).rem_refs(),
                rem1 == rem0.skip(16),
                n as nat == bits_val(rem0.take(16)),
                x@.len() == i,
                rem1 =~= mesh_entries_bits(x@) + s.rem_bits(),
                refs0 =~= mesh_entries_refs(x@) + s.rem_refs(),
                s.rem_bits().len() <= rem1.len(),
                s.rem_refs().len() <= refs0.len(),
                forall|v: Seq<(i32, ConnectedNwOutDescr)>|
                    v.len() < 0x1_0000 && (#[trigger] (uint_bits(v.len() as u64, 16)
                        + mesh_entries_bits(v))).is_prefix_of(rem0) && mesh_entries_refs(
                        v,
                    ).is_prefix_of(refs0) ==> (i <= v.len() && x@ == v.take(i as int)
                        && mesh_entries_bits(v.skip(i as int)).is_prefix_of(s.rem_bits())
                        && mesh_entries_refs(v.skip(i as int)).is_prefix_of(s.rem_refs())),
            decreases n - i,
        {
            let ghost before = x@;
            let ghost remk = s.rem_bits();
            let ghost refsk = s.rem_refs();
            proof {
                assert forall|v: Seq<(i32, ConnectedNwOutDescr)>|
                    v.len() < 0x1_0000 && (#[trigger] (uint_bits(v.len() as u64, 16)
                        + mesh_entries_bits(v))).is_prefix_of(rem0) && mesh_entries_refs(
                        v,
                    ).is_prefix_of(refs0) implies remk.len() >= 32 && bits_val(remk.take(32))
                    == wc_word(v[i as int].0) && v[i as int].1.enc_bits().is_prefix_of(
                    remk.skip(32),
                ) && v[i as int].1.enc_refs().is_prefix_of(refsk) by {
                    lemma2_to64();
                    lemma2_to64_rest();
                    crate::cells::lemma_uint_prefix(v.len() as u64, 16, rem0);
                    assert(i < v.len());
                    let t = v.skip(i as int);
                    assert(t[0] == v[i as int]);
                    assert(t.skip(1) =~= v.skip(i as int + 1));
                    assert(mesh_entries_bits(t) =~= uint_bits(wc_word(v[i as int].0) as u64, 32)
                        + (v[i as int].1.enc_bits() + mesh_entries_bits(v.skip(i as int + 1))));
                    crate::cells::lemma_prefix_parts(
                        uint_bits(wc_word(v[i as int].0) as u64, 32),
                        v[i as int].1.enc_bits() + mesh_entries_bits(v.skip(i as int + 1)),
                        remk,
                    );
                    crate::cells::lemma_uint_prefix(wc_word(v[i as int].0) as u64, 32, remk);
                    crate::cells::lemma_prefix_parts(
                        v[i as int].1.enc_bits(),
                        mesh_entries_bits(v.skip(i as int + 1)),
                        remk.skip(32),
                    );
                    assert(mesh_entries_refs(t) =~= v[i as int].1.enc_refs() + mesh_entries_refs(
                        v.skip(i as int + 1),
                    ));
                    assert(v[i as int].1.enc_refs().is_prefix_of(refsk)) by {
                        assert(mesh_entries_refs(t).is_prefix_of(refsk));
                        assert(v[i as int].1.enc_refs() =~= mesh_entries_refs(t).take(
                            v[i as int].1.enc_refs().len() as int,
                        ));
                        assert(v[i as int].1.enc_refs() =~= refsk.take(
                            v[i as int].1.enc_refs().len() as int,
                        ));
                    };
                };
            }
            let kw = s.get_next_int(32)?;
            let k = i32_of_word(kw as u32);
            let v = ConnectedNwOutDescr::read_from(s)?;
            x.push(k, v);
            proof {
                lemma2_to64();
                lemma2_to64_rest();
                crate::cells::lemma_read_exact(remk, 32, kw);
                assert((kw as u32) as u64 == kw);
                assert(wc_word(k) == kw as u32);
                assert(remk =~= remk.take(32) + (v.enc_bits() + s.rem_bits()));
                assert(remk == uint_bits(wc_word(k) as u64, 32) + (v.enc_bits() + s.rem_bits()));
                lemma_mesh_push(before, k, v);
                assert(rem1 =~= mesh_entries_bits(x@) + s.rem_bits());
                assert(refs0 =~~= mesh_entries_refs(x@) + s.rem_refs());
                assert forall|vv: Seq<(i32, ConnectedNwOutDescr)>|
                    vv.len() < 0x1_0000 && (#[trigger] (uint_bits(vv.len() as u64, 16)
                        + mesh_entries_bits(vv))).is_prefix_of(rem0) && mesh_entries_refs(
                        vv,
                    ).is_prefix_of(refs0) implies (i + 1 <= vv.len() && x@ == vv.take(i as int + 1)
                    && mesh_entries_bits(vv.skip(i as int + 1)).is_prefix_of(s.rem_bits())
                    && mesh_entries_refs(vv.skip(i as int + 1)).is_prefix_of(s.rem_refs())) by {
                    crate::cells::lemma_uint_prefix(vv.len() as u64, 16, rem0);
                    assert(i < vv.len());
                    assert(vv[i as int].1 == v);
                    assert(bits_val(remk.take(32)) == wc_word(vv[i as int].0));
                    assert(wc_word(k) == kw as u32);
                    assert(wc_word(vv[i as int].0) == wc_word(k));
                    lemma_word_wc_roundtrip(wc_word(vv[i as int].0));
                    lemma_word_wc_roundtrip(wc_word(k));
                    assert(vv[i as int].0 == k);
                    assert(before.push((k, v)) =~= vv.take(i as int).push(vv[i as int]));
                    assert(vv.take(i as int).push(vv[i as int]) =~= vv.take(i as int + 1));
                    let t = vv.skip(i as int);
                    assert(t[0] == vv[i as int]);
                    assert(t.skip(1) =~= vv.skip(i as int + 1));
                    assert(mesh_entries_bits(t) =~= uint_bits(wc_word(vv[i as int].0) as u64, 32)
                        + (vv[i as int].1.enc_bits() + mesh_entries_bits(vv.skip(i as int + 1))));
                    crate::cells::lemma_prefix_parts(
                        uint_bits(wc_word(vv[i as int].0) as u64, 32),
                        vv[i as int].1.enc_bits() + mesh_entries_bits(vv.skip(i as int + 1)),
                        remk,
                    );
                    crate::cells::lemma_prefix_parts(
                        vv[i as int].1.enc_bits(),
                        mesh_entries_bits(vv.skip(i as int + 1)),
                        remk.skip(32),
                    );
                    assert(remk.skip(32).skip(v.enc_bits().len() as int) =~= s.rem_bits());
                    assert(mesh_entries_refs(t) =~= vv[i as int].1.enc_refs() + mesh_entries_refs(
                        vv.skip(i as int + 1),
                    ));
                    crate::cells::lemma_prefix_parts(
                        vv[i as int].1.enc_refs(),
                        mesh_entries_refs(vv.skip(i as int + 1)),
                        refsk,
                    );
                    assert(refsk.skip(v.enc_refs().len() as int) =~= s.rem_refs());
                };
            }
            i = i + 1;
        }
        proof {
            crate::cells::lemma_read_exact(rem0, 16, n);
            assert(rem0 =~= rem0.take(16) + rem1);
            assert(rem0 == rem0.take(16) + (mesh_entries_bits(x@) + final(s).rem_bits()));
            assert(rem0 =~= x.enc_bits() + final(s).rem_bits());
            assert(refs0 =~~= x.enc_refs() + final(s).rem_refs());
            assert forall|v: Seq<(i32, ConnectedNwOutDescr)>|
                v.len() < 0x1_0000 && (#[trigger] (uint_bits(v.len() as u64, 16)
                    + mesh_entries_bits(v))).is_prefix_of(rem0) && mesh_entries_refs(
                    v,
                ).is_prefix_of(refs0) implies x@ == v by {
                crate::cells::lemma_uint_prefix(v.len() as u64, 16, rem0);
                assert(v.take(v.len() as int) =~= v);
            };
        }
        Ok(x)
    }
}

} // verus!

verus! {

impl ProofChain {
    /// The inline wire form: the number of proof cells.
    pub open spec fn enc_bits(self) -> Seq<bool> {
        uint_bits(self@.len() as u64, 8)
    }

    /// The child cells: the proof cells in order.
    pub open spec fn enc_refs(self) -> Seq<CellData> {
        self@
    }

    /// Writes the chain; fails exactly when it holds too many cells.
    pub fn write_to(&self, b: &mut BuilderData) -> (r: Result<(), BlockError>)
        ensures
            match r {
                Ok(_) => {
                    &&& self@.len() < 0x100
                    &&& final(b).bits_spec() == old(b).bits_spec() + self.enc_bits()
                    &&& final(b).refs_spec() == old(b).refs_spec() + self.enc_refs()
                },
                Err(e) => e == BlockError::IntOverflow && self@.len() >= 0x100,
            },
    {
        proof {
            lemma2_to64();
        }
        if self.cells.len() >= 0x100usize {
            return Err(BlockError::IntOverflow);
        }
        b.append_bits(self.cells.len() as u64, 8);
        let mut i: usize = 0;
        while i < self.cells.len()
            invariant
                i <= self.cells@.len(),
                b.bits_spec() == old(b).bits_spec() + self.enc_bits(),
                b.refs_spec() =~= old(b).refs_spec() + self@.take(i as int),
            decreases self.cells@.len() - i,
        {
            let c = self.cells[i].clone();
            b.append_reference(c);
            proof {
                assert(self@.take(i as int).push(self.cells@[i as int]@) =~= self@.take(
                    i as int + 1,
                ));
            }
            i = i + 1;
        }
        proof {
            assert(self@.take(self@.len() as int) =~= self@);
        }
        Ok(())
    }

    /// Reads a chain; consumes exactly its count and cells on success.
    pub fn read_from(s: &mut SliceData) -> (r: Result<ProofChain, BlockError>)
        ensures
            match r {
                Ok(x) => {
                    &&& old(s).rem_bits() == x.enc_bits() + final(s).rem_bits()
                    &&& old(s).rem_refs() == x.enc_refs() + final(s).rem_refs()
                },
                Err(e) => e == BlockError::CellUnderflow,
            },
            forall|v: Seq<CellData>|
                v.len() < 0x100 && (#[trigger] uint_bits(v.len() as u64, 8)).is_prefix_of(
                    old(s).rem_bits(),
                ) && v.is_prefix_of(old(s).rem_refs()) ==> (r matches Ok(x2) && x2@ == v),
    {
        proof {
            lemma2_to64();
        }
        let ghost rem0 = s.rem_bits();
        let ghost refs0 = s.rem_refs();
        proof {
            assert forall|v: Seq<CellData>|
                v.len() < 0x100 && (#[trigger] uint_bits(v.len() as u64, 8)).is_prefix_of(rem0)
                implies rem0.len() >= 8 && bits_val(rem0.take(8)) == v.len() by {
                crate::cells::lemma_uint_prefix(v.len() as u64, 8, rem0);
            };
        }
        let n = s.get_next_int(8)?;
        let mut cells: Vec<Cell> = Vec::new();
        let mut i: u64 = 0;
        while i < n
            invariant
                i <= n,
                n < 0x100,
                rem0 == old(s).rem_bits(),
                refs0 == old(s).rem_refs(),
                n as nat == bits_val(rem0.take(8)),
                cells@.len() == i,
                refs0 =~= Seq::new(cells@.len(), |j: int| cells@[j]@) + s.rem_refs(),
                s.rem_refs().len() <= refs0.len(),
                s.rem_refs() =~= refs0.skip(i as int),
                s.rem_bits() == old(s).rem_bits().skip(8),
                forall|j: int| 0 <= j < i ==> (#[trigger] cells@[j])@ == refs0[j],
            decreases n - i,
        {
            proof {
                assert forall|v: Seq<CellData>|
                    v.len() < 0x100 && (#[trigger] uint_bits(v.len() as u64, 8)).is_prefix_of(
                        rem0,
                    ) && v.is_prefix_of(refs0) implies s.rem_refs().len() >= 1 by {
                    lemma2_to64();
                    crate::cells::lemma_uint_prefix(v.len() as u64, 8, rem0);
                };
            }
            let c = s.checked_drain_reference()?;
            cells.push(c);
            proof {
                assert(refs0 =~~= Seq::new(cells@.len(), |j: int| cells@[j]@) + s.rem_refs());
                assert(s.rem_refs() =~= refs0.skip(i as int + 1));
                assert(c@ == refs0[i as int]);
            }
            i = i + 1;
        }
        let x = ProofChain::with_cells(cells);
        proof {
            crate::cells::lemma_read_exact(rem0, 8, n);
            assert(x@ =~~= Seq::new(x@.len(), |j: int| x@[j]));
            assert(rem0 =~= x.enc_bits() + final(s).rem_bits());
            assert(refs0 =~~= x.enc_refs() + final(s).rem_refs());
            assert forall|v: Seq<CellData>|
                v.len() < 0x100 && (#[trigger] uint_bits(v.len() as u64, 8)).is_prefix_of(rem0)
                    && v.is_prefix_of(refs0) implies x@ == v by {
                lemma2_to64();
                crate::cells::lemma_uint_prefix(v.len() as u64, 8, rem0);
                assert(x@.len() == v.len());
                assert forall|j: int| 0 <= j < v.len() implies x@[j] == v[j] by {
                    assert(x@[j] == cells@[j]@);
                    assert(cells@[j]@ == refs0[j]);
                    assert(v =~= refs0.take(v.len() as int));
                };
                assert(x@ =~= v);
            };
        }
        Ok(x)
    }
}

/// The wire form of an optional collator range: a presence bit, then the
/// range.
pub open spec fn opt_range_bits(o: Option<CollatorRangeV>, opts: u8) -> Seq<bool> {
    match o {
        Some(c) => seq![true] + range_bits(c, opts),
        None => seq![false],
    }
}

/// The wire form of a collator range's content.
pub open spec fn range_bits(c: CollatorRangeV, opts: u8) -> Seq<bool> {
    uint_bits(c.collator as u64, 16) + (if opts & SERDE_OPTS_MEMPOOL_NODES != 0 {
        uint_bits(c.mempool.len() as u64, 8) + mempool_bits(c.mempool)
    } else {
        Seq::<bool>::empty()
    }) + uint_bits(c.start as u64, 32) + uint_bits(c.finish as u64, 32)
}

impl ShardCollators {
    /// Which tag the assignments encode under: statistics force the
    /// extended form.
    pub open spec fn tag_spec(self) -> u64 {
        if self@.stat.len() == 0 {
            1
        } else {
            2
        }
    }

    /// The options the ranges encode under.
    pub open spec fn opts_spec(self) -> u8 {
        if self@.stat.len() == 0 {
            SERDE_OPTS_EMPTY
        } else {
            SERDE_OPTS_MEMPOOL_NODES
        }
    }

    /// The inline wire form: tag, the five ranges, and the update time.
    pub open spec fn enc_bits(self) -> Seq<bool> {
        let opts = self.opts_spec();
        uint_bits(self.tag_spec(), 4) + range_bits(self@.prev, opts) + opt_range_bits(
            self@.prev2,
            opts,
        ) + range_bits(self@.current, opts) + range_bits(self@.next, opts) + opt_range_bits(
            self@.next2,
            opts,
        ) + uint_bits(self@.updated_at as u64, 32)
    }

    /// The child cells: the statistics, under the extended tag only.
    pub open spec fn enc_refs(self) -> Seq<CellData> {
        if self@.stat.len() == 0 {
            Seq::<CellData>::empty()
        } else {
            seq![CellData { bits: self.stat.enc_bits(), refs: Seq::<CellData>::empty() }]
        }
    }

    /// Whether the assignments fit the wire: every range's mempool within
    /// the list bound, and the statistics within their count field.
    pub open spec fn fits_spec(self) -> bool {
        &&& self@.prev.mempool.len() <= MEMPOOL_MAX_LEN
        &&& (self@.prev2 matches Some(c) ==> c.mempool.len() <= MEMPOOL_MAX_LEN)
        &&& self@.current.mempool.len() <= MEMPOOL_MAX_LEN
        &&& self@.next.mempool.len() <= MEMPOOL_MAX_LEN
        &&& (self@.next2 matches Some(c) ==> c.mempool.len() <= MEMPOOL_MAX_LEN)
        &&& self@.stat.len() < 0x1_0000
    }

    /// Writes the assignments; succeeds exactly when they fit the wire.
    pub fn write_to(&self, b: &mut BuilderData) -> (r: Result<(), BlockError>)
        ensures
            r.is_ok() <==> self.fits_spec(),
            match r {
                Ok(_) => {
                    &&& final(b).bits_spec() == old(b).bits_spec() + self.enc_bits()
                    &&& final(b).refs_spec() == old(b).refs_spec() + self.enc_refs()
                },
                Err(e) => e == BlockError::TooManyMempoolNodes || e == BlockError::IntOverflow,
            },
    {
        proof {
            lemma2_to64();
        }
        let ghost g0 = b.bits_spec();
        let stat_empty = self.stat.is_empty();
        let tag: u64 = if stat_empty {
            1
        } else {
            2
        };
        let opts: u8 = if stat_empty {
            SERDE_OPTS_EMPTY
        } else {
            SERDE_OPTS_MEMPOOL_NODES
        };
        b.append_bits(tag, 4);
        let ghost g1 = b.bits_spec();
        self.prev.write_with_opts(b, opts)?;
        let ghost g2 = b.bits_spec();
        let ghost acc2 = uint_bits(tag, 4) + range_bits(self@.prev, opts);
        proof {
            crate::cells::lemma_app_step(g0, uint_bits(tag, 4), g1, range_bits(self@.prev, opts), g2);
        }
        match &self.prev2 {
            Some(c) => {
                b.append_bit(true);
                c.write_with_opts(b, opts)?;
                proof {
                    let gb = g2.push(true);
                    assert(gb =~= g2 + seq![true]);
                    crate::cells::lemma_app_step(g2, seq![true], gb, range_bits(c@, opts), b.bits_spec());
                    crate::cells::lemma_app_step(g0, acc2, g2, seq![true] + range_bits(c@, opts), b.bits_spec());
                }
            },
            None => {
                b.append_bit(false);
                proof {
                    assert(b.bits_spec() =~= g2 + seq![false]);
                    crate::cells::lemma_app_step(g0, acc2, g2, seq![false], b.bits_spec());
                }
            },
        }
        let ghost g3 = b.bits_spec();
        let ghost acc3 = acc2 + opt_range_bits(opt_range_view(self.prev2), opts);
        self.current.write_with_opts(b, opts)?;
        let ghost g4 = b.bits_spec();
        let ghost acc4 = acc3 + range_bits(self@.current, opts);
        proof {
            crate::cells::lemma_app_step(g0, acc3, g3, range_bits(self@.current, opts), g4);
        }
        self.next.write_with_opts(b, opts)?;
        let ghost g5 = b.bits_spec();
        let ghost acc5 = acc4 + range_bits(self@.next, opts);
        proof {
            crate::cells::lemma_app_step(g0, acc4, g4, range_bits(self@.next, opts), g5);
        }
        match &self.next2 {
            Some(c) => {
                b.append_bit(true);
                c.write_with_opts(b, opts)?;
                proof {
                    let gb = g5.push(true);
                    assert(gb =~= g5 + seq![true]);
                    crate::cells::lemma_app_step(g5, seq![true], gb, range_bits(c@, opts), b.bits_spec());
                    crate::cells::lemma_app_step(g0, acc5, g5, seq![true] + range_bits(c@, opts), b.bits_spec());
                }
            },
            None => {
                b.append_bit(false);
                proof {
                    assert(b.bits_spec() =~= g5 + seq![false]);
                    crate::cells::lemma_app_step(g0, acc5, g5, seq![false], b.bits_spec());
                }
            },
        }
        let ghost g6 = b.bits_spec();
        let ghost acc6 = acc5 + opt_range_bits(opt_range_view(self.next2), opts);
        b.append_bits(self.updated_at as u64, 32);
        let ghost g7 = b.bits_spec();
        proof {
            crate::cells::lemma_app_step(g0, acc6, g6, uint_bits(self@.updated_at as u64, 32), g7);
            assert(g7 == g0 + self.enc_bits());
        }
        if !stat_empty {
            let mut child = BuilderData::new();
            self.stat.write_to(&mut child)?;
            let cell = child.into_cell();
            b.append_reference(cell);
            proof {
                assert(cell@.bits =~= self.stat.enc_bits());
                assert(cell@.refs =~= Seq::<CellData>::empty());
                assert(cell@ =~~= self.enc_refs()[0]);
                assert(final(b).refs_spec() =~= old(b).refs_spec() + self.enc_refs());
            }
        } else {
            proof {
                assert(final(b).refs_spec() =~= old(b).refs_spec() + self.enc_refs());
            }
        }
        Ok(())
    }

    /// Reads assignments; consumes exactly the encoding of the result, and
    /// fails naming the tag when it is not an accepted one.
    #[verifier::rlimit(60)]
    pub fn construct_from(s: &mut SliceData) -> (r: Result<ShardCollators, BlockError>)
        ensures
            old(s).rem_bits().len() < 4 ==> r == Err::<Self, BlockError>(
                BlockError::CellUnderflow,
            ),
            old(s).rem_bits().len() >= 4 && !(bits_val(old(s).rem_bits().take(4)) == 1 || bits_val(old(s).rem_bits().take(4)) == 2) ==> (r matches Err(e2) && e2 == (
            BlockError::InvalidConstructorTag { t: (bits_val(old(s).rem_bits().take(4)) as u64) })),
            match r {
                Ok(x) => {
                    &&& old(s).rem_bits() == x.enc_bits() + final(s).rem_bits()
                    &&& old(s).rem_refs() == x.enc_refs() + final(s).rem_refs()
                },
                Err(e) => e == BlockError::CellUnderflow || e == BlockError::InvalidData || e
                    == BlockError::TooManyMempoolNodes || e matches
                    BlockError::InvalidConstructorTag { .. },
            },
    {
        proof {
            lemma2_to64();
        }
        let ghost rem0 = s.rem_bits();
        let tag = s.get_next_int(4)?;
        if tag != 1 && tag != 2 {
            return Err(BlockError::InvalidConstructorTag { t: tag });
        }
        let opts: u8 = if tag == 2 {
            SERDE_OPTS_MEMPOOL_NODES
        } else {
            SERDE_OPTS_EMPTY
        };
        let ghost rem_p = s.rem_bits();
        proof {
            crate::cells::lemma_read_exact(rem0, 4, tag);
            assert(rem0 =~= rem0.take(4) + rem_p);
            assert(rem0 == uint_bits(tag, 4) + rem_p);
        }
        let prev = CollatorRange::construct_from_with_opts(s, opts)?;
        let ghost rem_p2b = s.rem_bits();
        let ghost acc2 = uint_bits(tag, 4) + prev.enc_bits(opts);
        proof {
            crate::cells::lemma_take_step(rem0, uint_bits(tag, 4), rem_p, prev.enc_bits(opts), rem_p2b);
        }
        let p2 = s.get_next_bit()?;
        let ghost rem_p2 = s.rem_bits();
        let prev2 = if p2 {
            Some(CollatorRange::construct_from_with_opts(s, opts)?)
        } else {
            None
        };
        let ghost rem_c = s.rem_bits();
        proof {
            assert(rem_p2b =~= seq![p2] + rem_p2);
            match &prev2 {
                Some(c) => {
                    crate::cells::lemma_take_step(rem_p2b, seq![true], rem_p2, c.enc_bits(opts), rem_c);
                    crate::cells::lemma_take_step(rem0, acc2, rem_p2b, seq![true] + range_bits(c@, opts), rem_c);
                },
                None => {
                    crate::cells::lemma_take_step(rem0, acc2, rem_p2b, seq![false], rem_p2);
                },
            }
        }
        let ghost acc3 = acc2 + opt_range_bits(opt_range_view(prev2), opts);
        let current = CollatorRange::construct_from_with_opts(s, opts)?;
        let ghost rem_n = s.rem_bits();
        proof {
            crate::cells::lemma_take_step(rem0, acc3, rem_c, current.enc_bits(opts), rem_n);
        }
        let ghost acc4 = acc3 + range_bits(current@, opts);
        let next = CollatorRange::construct_from_with_opts(s, opts)?;
        let ghost rem_n2b = s.rem_bits();
        proof {
            crate::cells::lemma_take_step(rem0, acc4, rem_n, next.enc_bits(opts), rem_n2b);
        }
        let ghost acc5 = acc4 + range_bits(next@, opts);
        let n2 = s.get_next_bit()?;
        let ghost rem_n2 = s.rem_bits();
        let next2 = if n2 {
            Some(CollatorRange::construct_from_with_opts(s, opts)?)
        } else {
            None
        };
        let ghost remu = s.rem_bits();
        proof {
            assert(rem_n2b =~= seq![n2] + rem_n2);
            match &next2 {
                Some(c) => {
                    crate::cells::lemma_take_step(rem_n2b, seq![true], rem_n2, c.enc_bits(opts), remu);
                    crate::cells::lemma_take_step(rem0, acc5, rem_n2b, seq![true] + range_bits(c@, opts), remu);
                },
                None => {
                    crate::cells::lemma_take_step(rem0, acc5, rem_n2b, seq![false], rem_n2);
                },
            }
        }
        let ghost acc6 = acc5 + opt_range_bits(opt_range_view(next2), opts);
        let updated_at = s.get_next_int(32)?;
        proof {
            crate::cells::lemma_read_exact(remu, 32, updated_at);
            assert(remu =~= remu.take(32) + s.rem_bits());
            crate::cells::lemma_take_step(rem0, acc6, remu, uint_bits(updated_at, 32), s.rem_bits());
        }
        let stat = if tag == 2 {
            let cell = s.checked_drain_reference()?;
            let ghost cd = cell@;
            let mut cs = SliceData::load_cell(cell);
            let st = ValidatorsStat::read_from(&mut cs)?;
            if cs.bits_remaining() != 0 || cs.refs_remaining() != 0 {
                return Err(BlockError::InvalidData);
            }
            if st.is_empty() {
                return Err(BlockError::InvalidData);
            }
            proof {
                assert(cd.bits =~= st.enc_bits());
                assert(cd.refs =~= Seq::<CellData>::empty());
            }
            st
        } else {
            ValidatorsStat::default()
        };
        let x = ShardCollators {
            prev,
            prev2,
            current,
            next,
            next2,
            updated_at: updated_at as u32,
            stat,
        };
        proof {
            assert(x.tag_spec() == tag);
            assert(x.opts_spec() == opts);
            assert(x.enc_bits() == acc6 + uint_bits(updated_at, 32));
            assert(rem0 == x.enc_bits() + final(s).rem_bits());
            if tag == 2 {
                assert(old(s).rem_refs() =~~= x.enc_refs() + final(s).rem_refs());
            } else {
                assert(old(s).rem_refs() =~~= x.enc_refs() + final(s).rem_refs());
            }
        }
        Ok(x)
    }
}

} // verus!

verus! {

/// The wire form of an optional proof chain: a presence bit, then the
/// chain's cell count.
pub open spec fn opt_proof_bits(o: Option<Seq<CellData>>) -> Seq<bool> {
    match o {
        Some(p) => seq![true] + uint_bits(p.len() as u64, 8),
        None => seq![false],
    }
}

/// The child cells of an optional proof chain.
pub open spec fn opt_proof_refs(o: Option<Seq<CellData>>) -> Seq<CellData> {
    match o {
        Some(p) => p,
        None => Seq::<CellData>::empty(),
    }
}

/// The bits of a descriptor's fee child cell, by tag generation.
pub open spec fn fee_child_bits(
    t: u64,
    fees: CurrencyCollection,
    funds: CurrencyCollection,
    cl: CopyleftRewards,
    pc: Option<ProofChain>,
    col: Option<ShardCollators>,
) -> Seq<bool> {
    let base = fees.enc_bits() + funds.enc_bits();
    if t == 0xC {
        base + cl.enc_bits()
    } else if t == 0xD {
        base + (if cl@.len() > 0 {
            seq![true] + cl.enc_bits()
        } else {
            seq![false]
        }) + uint_bits(pc.unwrap()@.len() as u64, 8)
    } else if t == 0xE || t == 0xF || t == 0x9 {
        base + (match pc {
            Some(p) => seq![true] + p.enc_bits(),
            None => seq![false],
        }) + (match col {
            Some(c) => seq![true] + c.enc_bits(),
            None => seq![false],
        })
    } else {
        base
    }
}

/// The child cells of a descriptor's fee child cell.
pub open spec fn fee_child_refs(
    t: u64,
    pc: Option<ProofChain>,
    col: Option<ShardCollators>,
    pi: Option<MsgPackProcessingInfo>,
) -> Seq<CellData> {
    let pcr = if t == 0xD || t == 0xE || t == 0xF || t == 0x9 {
        match pc {
            Some(p) => p@,
            None => Seq::<CellData>::empty(),
        }
    } else {
        Seq::<CellData>::empty()
    };
    let cr = if t == 0xE || t == 0xF || t == 0x9 {
        match col {
            Some(c) => c.enc_refs(),
            None => Seq::<CellData>::empty(),
        }
    } else {
        Seq::<CellData>::empty()
    };
    let packr = if t == 0x9 {
        seq![
            CellData { bits: seq![true] + pi.unwrap().enc_bits(), refs: Seq::<CellData>::empty() },
        ]
    } else {
        Seq::<CellData>::empty()
    };
    pcr + cr + packr
}

impl ShardDescr {
    /// Which tag generation the descriptor encodes under: pack info,
    /// mesh queues, collators, a proof chain and copyleft rewards each
    /// force a later generation, in that order of precedence.
    pub open spec fn tag_spec(self) -> u64 {
        if self.pack_info is Some {
            0x9
        } else if self@.mesh_msg_queues.len() > 0 {
            0xF
        } else if self.collators is Some {
            0xE
        } else if self.proof_chain is Some {
            0xD
        } else if self@.copyleft_rewards.len() > 0 {
            0xC
        } else {
            0xA
        }
    }

    /// The split and merge intent bits packed into the flags byte.
    pub open spec fn flags_word(self) -> u64 {
        ((if self.before_split {
            128int
        } else {
            0int
        }) + (if self.before_merge {
            64int
        } else {
            0int
        }) + (if self.want_split {
            32int
        } else {
            0int
        }) + (if self.want_merge {
            16int
        } else {
            0int
        }) + (if self.nx_cc_updated {
            8int
        } else {
            0int
        })) as u64
    }

    /// The root-cell header: tag, numbers, hashes, flags, consensus and
    /// validator words, times, and the schedule.
    pub open spec fn header_bits(self) -> Seq<bool> {
        uint_bits(self.tag_spec(), 4) + uint_bits(self.seq_no as u64, 32) + uint_bits(
            self.reg_mc_seqno as u64,
            32,
        ) + uint_bits(self.start_lt, 64) + uint_bits(self.end_lt, 64) + self.root_hash.enc_bits()
            + self.file_hash.enc_bits() + uint_bits(self.flags_word(), 8) + uint_bits(
            self.next_catchain_seqno as u64,
            32,
        ) + uint_bits(self.next_validator_shard, 64) + uint_bits(self.min_ref_mc_seqno as u64, 32)
            + uint_bits(self.gen_utime as u64, 32) + self.split_merge_at.enc_bits()
    }

    /// The bits of the fee child cell, by tag generation.
    pub open spec fn child_bits(self) -> Seq<bool> {
        fee_child_bits(
            self.tag_spec(),
            self.fees_collected,
            self.funds_created,
            self.copyleft_rewards,
            self.proof_chain,
            self.collators,
        )
    }

    /// The child cells of the fee child cell: proof cells, collator
    /// statistics, and under the latest generation the pack-info cell.
    pub open spec fn child_refs(self) -> Seq<CellData> {
        fee_child_refs(self.tag_spec(), self.proof_chain, self.collators, self.pack_info)
    }

    /// The root-cell bits: the header, then under the mesh generation the
    /// queue summaries.
    pub open spec fn enc_bits(self) -> Seq<bool> {
        self.header_bits() + (if self.tag_spec() == 0xF {
            self.mesh_msg_queues.enc_bits()
        } else {
            Seq::<bool>::empty()
        })
    }

    /// The root-cell children: the fee child, then under the mesh
    /// generation one hash update per listed network.
    pub open spec fn enc_refs(self) -> Seq<CellData> {
        seq![CellData { bits: self.child_bits(), refs: self.child_refs() }] + (
        if self.tag_spec() == 0xF {
            self.mesh_msg_queues.enc_refs()
        } else {
            Seq::<CellData>::empty()
        })
    }

    /// Whether the descriptor can be written: clear reserved flag bits,
    /// copyleft rewards absent from the generations that cannot carry
    /// them, no mesh queues next to pack info, and every attached list
    /// within its count field.
    pub open spec fn encodable_spec(self) -> bool {
        let t = self.tag_spec();
        &&& self.flags & 7 == 0
        &&& ((t == 0xE || t == 0xF || t == 0x9) ==> self@.copyleft_rewards.len() == 0)
        &&& (t == 0x9 ==> self@.mesh_msg_queues.len() == 0)
        &&& (self@.copyleft_rewards.len() > 0 ==> self@.copyleft_rewards.len() < 0x1_0000)
        &&& (self.proof_chain matches Some(p) ==> p@.len() < 0x100)
        &&& (self.collators matches Some(c) ==> c.fits_spec())
        &&& (t == 0xF ==> self@.mesh_msg_queues.len() < 0x1_0000)
    }

    /// Writes the descriptor; succeeds exactly when it is encodable.
    #[verifier::rlimit(60)]
    pub fn write_to(&self, b: &mut BuilderData) -> (r: Result<(), BlockError>)
        ensures
            r.is_ok() <==> self.encodable_spec(),
            match r {
                Ok(_) => {
                    &&& self.flags & 7 == 0
                    &&& final(b).bits_spec() == old(b).bits_spec() + self.enc_bits()
                    &&& final(b).refs_spec() == old(b).refs_spec() + self.enc_refs()
                },
                Err(e) => e == BlockError::InvalidData || e == BlockError::UnsupportedCombination
                    || e == BlockError::TooManyMempoolNodes || e == BlockError::IntOverflow,
            },
    {
        proof {
            lemma2_to64();
            lemma2_to64_rest();
        }
        if self.flags & 7 != 0 {
            return Err(BlockError::InvalidData);
        }
        let has_copyleft = !self.copyleft_rewards.is_empty();
        let has_mesh = !self.mesh_msg_queues.is_empty();
        let tag: u64 = if self.pack_info.is_some() {
            0x9
        } else if has_mesh {
            0xF
        } else if self.collators.is_some() {
            0xE
        } else if self.proof_chain.is_some() {
            0xD
        } else if has_copyleft {
            0xC
        } else {
            0xA
        };
        if (tag == 0xE || tag == 0xF || tag == 0x9) && has_copyleft {
            return Err(BlockError::UnsupportedCombination);
        }
        if tag == 0x9 && has_mesh {
            return Err(BlockError::UnsupportedCombination);
        }
        let ghost g0 = b.bits_spec();
        b.append_bits(tag, 4);
        let ghost a1 = uint_bits(tag, 4);
        let ghost g1 = b.bits_spec();
        b.append_bits(self.seq_no as u64, 32);
        let ghost g2 = b.bits_spec();
        let ghost a2 = a1 + uint_bits(self.seq_no as u64, 32);
        proof {
            crate::cells::lemma_app_step(g0, a1, g1, uint_bits(self.seq_no as u64, 32), g2);
        }
        b.append_bits(self.reg_mc_seqno as u64, 32);
        let ghost g3 = b.bits_spec();
        let ghost a3 = a2 + uint_bits(self.reg_mc_seqno as u64, 32);
        proof {
            crate::cells::lemma_app_step(g0, a2, g2, uint_bits(self.reg_mc_seqno as u64, 32), g3);
        }
        b.append_bits(self.start_lt, 64);
        let ghost g4 = b.bits_spec();
        let ghost a4 = a3 + uint_bits(self.start_lt, 64);
        proof {
            crate::cells::lemma_app_step(g0, a3, g3, uint_bits(self.start_lt, 64), g4);
        }
        b.append_bits(self.end_lt, 64);
        let ghost g5 = b.bits_spec();
        let ghost a5 = a4 + uint_bits(self.end_lt, 64);
        proof {
            crate::cells::lemma_app_step(g0, a4, g4, uint_bits(self.end_lt, 64), g5);
        }
        let _ = self.root_hash.write_to(b);
        let ghost g6 = b.bits_spec();
        let ghost a6 = a5 + self.root_hash.enc_bits();
        proof {
            crate::cells::lemma_app_step(g0, a5, g5, self.root_hash.enc_bits(), g6);
        }
        let _ = self.file_hash.write_to(b);
        let ghost g7 = b.bits_spec();
        let ghost a7 = a6 + self.file_hash.enc_bits();
        proof {
            crate::cells::lemma_app_step(g0, a6, g6, self.file_hash.enc_bits(), g7);
        }
        let mut fl: u64 = 0;
        if self.before_split {
            fl = fl + 128;
        }
        if self.before_merge {
            fl = fl + 64;
        }
        if self.want_split {
            fl = fl + 32;
        }
        if self.want_merge {
            fl = fl + 16;
        }
        if self.nx_cc_updated {
            fl = fl + 8;
        }
        b.append_bits(fl, 8);
        let ghost g8 = b.bits_spec();
        let ghost a8 = a7 + uint_bits(self.flags_word(), 8);
        proof {
            assert(fl == self.flags_word());
            crate::cells::lemma_app_step(g0, a7, g7, uint_bits(self.flags_word(), 8), g8);
        }
        b.append_bits(self.next_catchain_seqno as u64, 32);
        let ghost g9 = b.bits_spec();
        let ghost a9 = a8 + uint_bits(self.next_catchain_seqno as u64, 32);
        proof {
            crate::cells::lemma_app_step(g0, a8, g8, uint_bits(self.next_catchain_seqno as u64, 32), g9);
        }
        b.append_bits(self.next_validator_shard, 64);
        let ghost g10 = b.bits_spec();
        let ghost a10 = a9 + uint_bits(self.next_validator_shard, 64);
        proof {
            crate::cells::lemma_app_step(g0, a9, g9, uint_bits(self.next_validator_shard, 64), g10);
        }
        b.append_bits(self.min_ref_mc_seqno as u64, 32);
        let ghost g11 = b.bits_spec();
        let ghost a11 = a10 + uint_bits(self.min_ref_mc_seqno as u64, 32);
        proof {
            crate::cells::lemma_app_step(g0, a10, g10, uint_bits(self.min_ref_mc_seqno as u64, 32), g11);
        }
        b.append_bits(self.gen_utime as u64, 32);
        let ghost g12 = b.bits_spec();
        let ghost a12 = a11 + uint_bits(self.gen_utime as u64, 32);
        proof {
            crate::cells::lemma_app_step(g0, a11, g11, uint_bits(self.gen_utime as u64, 32), g12);
        }
        let _ = self.split_merge_at.write_to(b);
        let ghost g13 = b.bits_spec();
        proof {
            crate::cells::lemma_app_step(g0, a12, g12, self.split_merge_at.enc_bits(), g13);
            assert(g13 == g0 + self.header_bits());
        }
        // the fee child cell
        let mut child = BuilderData::new();
        let ghost c0 = child.bits_spec();
        let _ = self.fees_collected.write_to(&mut child);
        let ghost c1 = child.bits_spec();
        let _ = self.funds_created.write_to(&mut child);
        let ghost c2 = child.bits_spec();
        let ghost cb = self.fees_collected.enc_bits() + self.funds_created.enc_bits();
        proof {
            crate::cells::lemma_app_step(c0, self.fees_collected.enc_bits(), c1, self.funds_created.enc_bits(), c2);
            assert(c0 =~= Seq::<bool>::empty());
            assert(c2 =~= cb);
        }
        if tag == 0xC {
            self.copyleft_rewards.write_to(&mut child)?;
            proof {
                crate::cells::lemma_app_step(c0, cb, c2, self.copyleft_rewards.enc_bits(), child.bits_spec());
                assert(child.bits_spec() =~= self.child_bits());
                assert(child.refs_spec() =~= self.child_refs());
            }
        } else if tag == 0xD {
            if has_copyleft {
                child.append_bit(true);
                let ghost c3 = child.bits_spec();
                proof {
                    assert(c3 =~= c2 + seq![true]);
                }
                self.copyleft_rewards.write_to(&mut child)?;
                let ghost c4 = child.bits_spec();
                proof {
                    crate::cells::lemma_app_step(c2, seq![true], c3, self.copyleft_rewards.enc_bits(), c4);
                    crate::cells::lemma_app_step(c0, cb, c2, seq![true] + self.copyleft_rewards.enc_bits(), c4);
                }
            } else {
                child.append_bit(false);
                proof {
                    assert(child.bits_spec() =~= c2 + seq![false]);
                    crate::cells::lemma_app_step(c0, cb, c2, seq![false], child.bits_spec());
                }
            }
            let ghost c5 = child.bits_spec();
            let ghost acl = cb + (if self@.copyleft_rewards.len() > 0 {
                seq![true] + self.copyleft_rewards.enc_bits()
            } else {
                seq![false]
            });
            let pc = match &self.proof_chain {
                Some(p) => p,
                None => {
                    proof {
                        assert(false);
                    }
                    return Err(BlockError::InvalidData);
                },
            };
            pc.write_to(&mut child)?;
            proof {
                crate::cells::lemma_app_step(c0, acl, c5, pc.enc_bits(), child.bits_spec());
                assert(child.bits_spec() =~= self.child_bits());
                assert(child.refs_spec() =~= self.child_refs());
            }
        } else if tag == 0xE || tag == 0xF || tag == 0x9 {
            match &self.proof_chain {
                Some(p) => {
                    child.append_bit(true);
                    let ghost c3 = child.bits_spec();
                    proof {
                        assert(c3 =~= c2 + seq![true]);
                    }
                    p.write_to(&mut child)?;
                    proof {
                        crate::cells::lemma_app_step(c2, seq![true], c3, p.enc_bits(), child.bits_spec());
                        crate::cells::lemma_app_step(c0, cb, c2, seq![true] + p.enc_bits(), child.bits_spec());
                        assert(seq![true] + p.enc_bits() == opt_proof_bits(self@.proof_chain));
                    }
                },
                None => {
                    child.append_bit(false);
                    proof {
                        assert(child.bits_spec() =~= c2 + seq![false]);
                        crate::cells::lemma_app_step(c0, cb, c2, seq![false], child.bits_spec());
                        assert(seq![false] == opt_proof_bits(self@.proof_chain));
                    }
                },
            }
            let ghost c6 = child.bits_spec();
            let ghost apc = cb + opt_proof_bits(self@.proof_chain);
            match &self.collators {
                Some(c) => {
                    child.append_bit(true);
                    let ghost c7 = child.bits_spec();
                    proof {
                        assert(c7 =~= c6 + seq![true]);
                    }
                    c.write_to(&mut child)?;
                    proof {
                        crate::cells::lemma_app_step(c6, seq![true], c7, c.enc_bits(), child.bits_spec());
                        crate::cells::lemma_app_step(c0, apc, c6, seq![true] + c.enc_bits(), child.bits_spec());
                    }
                },
                None => {
                    child.append_bit(false);
                    proof {
                        assert(child.bits_spec() =~= c6 + seq![false]);
                        crate::cells::lemma_app_step(c0, apc, c6, seq![false], child.bits_spec());
                    }
                },
            }
            if tag == 0x9 {
                let pi = match &self.pack_info {
                    Some(pi) => pi,
                    None => {
                        proof {
                            assert(false);
                        }
                        return Err(BlockError::InvalidData);
                    },
                };
                let mut child2 = BuilderData::new();
                child2.append_bit(true);
                let _ = pi.write_to(&mut child2);
                let cell2 = child2.into_cell();
                proof {
                    assert(cell2@.bits =~= seq![true] + pi.enc_bits());
                    assert(cell2@.refs =~= Seq::<CellData>::empty());
                }
                child.append_reference(cell2);
            }
            proof {
                assert(child.bits_spec() =~= self.child_bits());
                assert(child.refs_spec() =~~= self.child_refs());
            }
        } else {
            proof {
                assert(child.bits_spec() =~= self.child_bits());
                assert(child.refs_spec() =~= self.child_refs());
            }
        }
        let cell = child.into_cell();
        b.append_reference(cell);
        proof {
            assert(cell@ =~~= (CellData { bits: self.child_bits(), refs: self.child_refs() }));
        }
        if tag == 0xF {
            let ghost r13 = b.refs_spec();
            self.mesh_msg_queues.write_to(b)?;
            proof {
                crate::cells::lemma_app_step(g0, self.header_bits(), g13, self.mesh_msg_queues.enc_bits(), b.bits_spec());
                assert(final(b).bits_spec() == old(b).bits_spec() + self.enc_bits());
                assert(r13 =~= old(b).refs_spec() + seq![
                    CellData { bits: self.child_bits(), refs: self.child_refs() },
                ]);
                crate::cells::lemma_app_step(
                    old(b).refs_spec(),
                    seq![CellData { bits: self.child_bits(), refs: self.child_refs() }],
                    r13,
                    self.mesh_msg_queues.enc_refs(),
                    b.refs_spec(),
                );
                assert(final(b).refs_spec() == old(b).refs_spec() + self.enc_refs());
            }
        } else {
            proof {
                assert(final(b).bits_spec() =~= old(b).bits_spec() + self.enc_bits());
                assert(final(b).refs_spec() =~~= old(b).refs_spec() + self.enc_refs());
            }
        }
        Ok(())
    }

    /// Reads a descriptor; consumes exactly the encoding of the result on
    /// success. Fails naming the tag when it is not an accepted one, and
    /// with a data error on reserved flag bits or a non-canonical form.
    #[verifier::rlimit(100)]
    #[verifier::spinoff_prover]
    pub fn read_from(s: &mut SliceData) -> (r: Result<ShardDescr, BlockError>)
        ensures
            old(s).rem_bits().len() < 4 ==> r == Err::<Self, BlockError>(
                BlockError::CellUnderflow,
            ),
            old(s).rem_bits().len() >= 4 && !(bits_val(old(s).rem_bits().take(4)) == 0xA || bits_val(old(s).rem_bits().take(4)) == 0xC || bits_val(old(s).rem_bits().take(4)) == 0xD || bits_val(old(s).rem_bits().take(4)) == 0xE || bits_val(old(s).rem_bits().take(4)) == 0xF || bits_val(old(s).rem_bits().take(4)) == 0x9) ==> (r matches Err(e2) && e2 == (
            BlockError::InvalidConstructorTag { t: (bits_val(old(s).rem_bits().take(4)) as u64) })),
            match r {
                Ok(x) => {
                    &&& old(s).rem_bits() == x.enc_bits() + final(s).rem_bits()
                    &&& old(s).rem_refs() == x.enc_refs() + final(s).rem_refs()
                    &&& x.flags == 0
                },
                Err(e) => e == BlockError::CellUnderflow || e == BlockError::InvalidData || e
                    == BlockError::TooManyMempoolNodes || e matches
                    BlockError::InvalidConstructorTag { .. },
            },
    {
        proof {
            lemma2_to64();
            lemma2_to64_rest();
        }
        let ghost rem0 = s.rem_bits();
        let ghost refs0 = s.rem_refs();
        let tag = s.get_next_int(4)?;
        if tag != 0xA && tag != 0xC && tag != 0xD && tag != 0xE && tag != 0xF && tag != 0x9 {
            return Err(BlockError::InvalidConstructorTag { t: tag });
        }
        let ghost h1 = s.rem_bits();
        proof {
            crate::cells::lemma_read_exact(rem0, 4, tag);
            assert(rem0 =~= rem0.take(4) + h1);
            assert(rem0 == uint_bits(tag, 4) + h1);
        }
        let seq_no = s.get_next_int(32)?;
        let ghost h2 = s.rem_bits();
        let ghost b1 = uint_bits(tag, 4);
        proof {
            crate::cells::lemma_read_exact(h1, 32, seq_no);
            assert(h1 =~= h1.take(32) + h2);
            crate::cells::lemma_take_step(rem0, b1, h1, uint_bits(seq_no, 32), h2);
        }
        let ghost b2 = b1 + uint_bits(seq_no, 32);
        let reg_mc_seqno = s.get_next_int(32)?;
        let ghost h3 = s.rem_bits();
        proof {
            crate::cells::lemma_read_exact(h2, 32, reg_mc_seqno);
            assert(h2 =~= h2.take(32) + h3);
            crate::cells::lemma_take_step(rem0, b2, h2, uint_bits(reg_mc_seqno, 32), h3);
        }
        let ghost b3 = b2 + uint_bits(reg_mc_seqno, 32);
        let start_lt = s.get_next_int(64)?;
        let ghost h4 = s.rem_bits();
        proof {
            crate::cells::lemma_read_exact(h3, 64, start_lt);
            assert(h3 =~= h3.take(64) + h4);
            crate::cells::lemma_take_step(rem0, b3, h3, uint_bits(start_lt, 64), h4);
        }
        let ghost b4 = b3 + uint_bits(start_lt, 64);
        let end_lt = s.get_next_int(64)?;
        let ghost h5 = s.rem_bits();
        proof {
            crate::cells::lemma_read_exact(h4, 64, end_lt);
            assert(h4 =~= h4.take(64) + h5);
            crate::cells::lemma_take_step(rem0, b4, h4, uint_bits(end_lt, 64), h5);
        }
        let ghost b5 = b4 + uint_bits(end_lt, 64);
        let root_hash = UInt256::read_from(s)?;
        let ghost h6 = s.rem_bits();
        proof {
            assert(h5 =~= h5.take(256) + h6);
            crate::cells::lemma_take_step(rem0, b5, h5, root_hash.enc_bits(), h6);
        }
        let ghost b6 = b5 + root_hash.enc_bits();
        let file_hash = UInt256::read_from(s)?;
        let ghost h7 = s.rem_bits();
        proof {
            assert(h6 =~= h6.take(256) + h7);
            crate::cells::lemma_take_step(rem0, b6, h6, file_hash.enc_bits(), h7);
        }
        let ghost b7 = b6 + file_hash.enc_bits();
        let fl = s.get_next_int(8)?;
        let ghost h8 = s.rem_bits();
        proof {
            crate::cells::lemma_read_exact(h7, 8, fl);
            assert(h7 =~= h7.take(8) + h8);
            crate::cells::lemma_take_step(rem0, b7, h7, uint_bits(fl, 8), h8);
        }
        let ghost b8 = b7 + uint_bits(fl, 8);
        let before_split = ((fl >> 7u64) & 1) == 1;
        let before_merge = ((fl >> 6u64) & 1) == 1;
        let want_split = ((fl >> 5u64) & 1) == 1;
        let want_merge = ((fl >> 4u64) & 1) == 1;
        let nx_cc_updated = ((fl >> 3u64) & 1) == 1;
        if (fl & 7) != 0 {
            return Err(BlockError::InvalidData);
        }
        proof {
            bv_flags_word(fl);
        }
        let next_catchain_seqno = s.get_next_int(32)?;
        let ghost h9 = s.rem_bits();
        proof {
            crate::cells::lemma_read_exact(h8, 32, next_catchain_seqno);
            assert(h8 =~= h8.take(32) + h9);
            crate::cells::lemma_take_step(rem0, b8, h8, uint_bits(next_catchain_seqno, 32), h9);
        }
        let ghost b9 = b8 + uint_bits(next_catchain_seqno, 32);
        let next_validator_shard = s.get_next_int(64)?;
        let ghost h10 = s.rem_bits();
        proof {
            crate::cells::lemma_read_exact(h9, 64, next_validator_shard);
            assert(h9 =~= h9.take(64) + h10);
            crate::cells::lemma_take_step(rem0, b9, h9, uint_bits(next_validator_shard, 64), h10);
        }
        let ghost b10 = b9 + uint_bits(next_validator_shard, 64);
        let min_ref_mc_seqno = s.get_next_int(32)?;
        let ghost h11 = s.rem_bits();
        proof {
            crate::cells::lemma_read_exact(h10, 32, min_ref_mc_seqno);
            assert(h10 =~= h10.take(32) + h11);
            crate::cells::lemma_take_step(rem0, b10, h10, uint_bits(min_ref_mc_seqno, 32), h11);
        }
        let ghost b11 = b10 + uint_bits(min_ref_mc_seqno, 32);
        let gen_utime = s.get_next_int(32)?;
        let ghost h12 = s.rem_bits();
        proof {
            crate::cells::lemma_read_exact(h11, 32, gen_utime);
            assert(h11 =~= h11.take(32) + h12);
            crate::cells::lemma_take_step(rem0, b11, h11, uint_bits(gen_utime, 32), h12);
        }
        let ghost b12 = b11 + uint_bits(gen_utime, 32);
        let split_merge_at = FutureSplitMerge::read_from(s)?;
        let ghost h13 = s.rem_bits();
        proof {
            crate::cells::lemma_take_step(rem0, b12, h12, split_merge_at.enc_bits(), h13);
        }
        let ghost bh = b12 + split_merge_at.enc_bits();
        // the fee child cell
        let cell = s.checked_drain_reference()?;
        let ghost cd = cell@;
        let (fees_collected, funds_created, copyleft_rewards, proof_chain, collators, pack_info) =
            read_fee_child(cell, tag)?;
        let mut mesh_msg_queues = MeshOutDescr::default();
        let ghost h14 = s.rem_bits();
        if tag == 0xF {
            mesh_msg_queues = MeshOutDescr::read_from(s)?;
            if mesh_msg_queues.is_empty() {
                return Err(BlockError::InvalidData);
            }
            proof {
                crate::cells::lemma_take_step(rem0, bh, h14, mesh_msg_queues.enc_bits(), s.rem_bits());
            }
        }
        let x = ShardDescr {
            seq_no: seq_no as u32,
            reg_mc_seqno: reg_mc_seqno as u32,
            start_lt,
            end_lt,
            root_hash,
            file_hash,
            before_split,
            before_merge,
            want_split,
            want_merge,
            nx_cc_updated,
            flags: 0,
            next_catchain_seqno: next_catchain_seqno as u32,
            next_validator_shard,
            min_ref_mc_seqno: min_ref_mc_seqno as u32,
            gen_utime: gen_utime as u32,
            split_merge_at,
            fees_collected,
            funds_created,
            copyleft_rewards,
            proof_chain,
            collators,
            mesh_msg_queues,
            pack_info,
        };
        proof {
            assert(x.tag_spec() == tag);
            assert(x.flags_word() == fl);
            assert(x.header_bits() == bh);
            assert(cd =~~= (CellData { bits: x.child_bits(), refs: x.child_refs() }));
            if tag == 0xF {
                assert(rem0 == x.enc_bits() + final(s).rem_bits());
                assert(refs0 =~= seq![cd] + (mesh_msg_queues.enc_refs() + final(s).rem_refs()));
                crate::cells::lemma_take_step(
                    refs0,
                    seq![cd],
                    mesh_msg_queues.enc_refs() + final(s).rem_refs(),
                    mesh_msg_queues.enc_refs(),
                    final(s).rem_refs(),
                );
                assert(refs0 =~~= x.enc_refs() + final(s).rem_refs());
            } else {
                assert(rem0 =~= x.enc_bits() + final(s).rem_bits());
                assert(refs0 =~~= x.enc_refs() + final(s).rem_refs());
            }
        }
        Ok(x)
    }
}

/// Parses a descriptor's fee child cell for the given tag generation and
/// hands back its components; the cell must hold exactly their encoding.
#[verifier::rlimit(100)]
#[verifier::spinoff_prover]
fn read_fee_child(cell: Cell, tag: u64) -> (r: Result<
    (
        CurrencyCollection,
        CurrencyCollection,
        CopyleftRewards,
        Option<ProofChain>,
        Option<ShardCollators>,
        Option<MsgPackProcessingInfo>,
    ),
    BlockError,
>)
    requires
        tag == 0xA || tag == 0xC || tag == 0xD || tag == 0xE || tag == 0xF || tag == 0x9,
    ensures
        match r {
            Ok((fees, funds, cl, pc, col, pi)) => {
                &&& cell@.bits == fee_child_bits(tag, fees, funds, cl, pc, col)
                &&& cell@.refs == fee_child_refs(tag, pc, col, pi)
                &&& (tag == 0xC || (tag == 0xD && cl@.len() > 0)) || cl@.len() == 0
                &&& (pc is Some) == (tag == 0xD || ((tag == 0xE || tag == 0xF || tag == 0x9)
                    && pc is Some))
                &&& (tag == 0xA || tag == 0xC) ==> pc is None && col is None
                &&& tag == 0xD ==> pc is Some && col is None
                &&& tag == 0xE ==> col is Some
                &&& (pi is Some) == (tag == 0x9)
                &&& (tag != 0xE && tag != 0xF && tag != 0x9) ==> col is None
                &&& tag == 0xC ==> cl@.len() > 0
            },
            Err(e) => e == BlockError::CellUnderflow || e == BlockError::InvalidData || e
                == BlockError::TooManyMempoolNodes || e matches BlockError::InvalidConstructorTag {
                ..
            },
        },
{
    proof {
        lemma2_to64();
        lemma2_to64_rest();
    }
    let ghost cd = cell@;
    let mut cs = SliceData::load_cell(cell);
    let ghost crem0 = cs.rem_bits();
    let fees_collected = CurrencyCollection::read_from(&mut cs)?;
    let ghost crem1 = cs.rem_bits();
    proof {
        assert(crem0 =~= crem0.take(fees_collected.enc_bits().len() as int) + crem1);
    }
    let funds_created = CurrencyCollection::read_from(&mut cs)?;
    let ghost crem2 = cs.rem_bits();
    let ghost cbase = fees_collected.enc_bits() + funds_created.enc_bits();
    proof {
        assert(crem1 =~= crem1.take(funds_created.enc_bits().len() as int) + crem2);
        crate::cells::lemma_take_step(
            crem0,
            fees_collected.enc_bits(),
            crem1,
            funds_created.enc_bits(),
            crem2,
        );
    }
    let mut copyleft_rewards = CopyleftRewards::default();
    let mut proof_chain: Option<ProofChain> = None;
    let mut collators: Option<ShardCollators> = None;
    let mut pack_info: Option<MsgPackProcessingInfo> = None;
    if tag == 0xC {
        copyleft_rewards = CopyleftRewards::read_from(&mut cs)?;
        if copyleft_rewards.is_empty() {
            return Err(BlockError::InvalidData);
        }
        proof {
            crate::cells::lemma_take_step(
                crem0,
                cbase,
                crem2,
                copyleft_rewards.enc_bits(),
                cs.rem_bits(),
            );
        }
    } else if tag == 0xD {
        let has_cl = cs.get_next_bit()?;
        let ghost crem3 = cs.rem_bits();
        proof {
            assert(crem2 =~= seq![has_cl] + crem3);
        }
        if has_cl {
            copyleft_rewards = CopyleftRewards::read_from(&mut cs)?;
            if copyleft_rewards.is_empty() {
                return Err(BlockError::InvalidData);
            }
            proof {
                crate::cells::lemma_take_step(
                    crem2,
                    seq![true],
                    crem3,
                    copyleft_rewards.enc_bits(),
                    cs.rem_bits(),
                );
                crate::cells::lemma_take_step(
                    crem0,
                    cbase,
                    crem2,
                    seq![true] + copyleft_rewards.enc_bits(),
                    cs.rem_bits(),
                );
            }
        } else {
            proof {
                crate::cells::lemma_take_step(crem0, cbase, crem2, seq![false], crem3);
            }
        }
        let ghost crem4 = cs.rem_bits();
        let ghost ccl = cbase + (if copyleft_rewards@.len() > 0 {
            seq![true] + copyleft_rewards.enc_bits()
        } else {
            seq![false]
        });
        let pc = ProofChain::read_from(&mut cs)?;
        proof {
            crate::cells::lemma_take_step(crem0, ccl, crem4, pc.enc_bits(), cs.rem_bits());
        }
        proof_chain = Some(pc);
    } else if tag == 0xE || tag == 0xF || tag == 0x9 {
        let has_pc = cs.get_next_bit()?;
        let ghost crem3 = cs.rem_bits();
        proof {
            assert(crem2 =~= seq![has_pc] + crem3);
        }
        if has_pc {
            let pc = ProofChain::read_from(&mut cs)?;
            proof {
                crate::cells::lemma_take_step(crem2, seq![true], crem3, pc.enc_bits(), cs.rem_bits());
                crate::cells::lemma_take_step(
                    crem0,
                    cbase,
                    crem2,
                    seq![true] + pc.enc_bits(),
                    cs.rem_bits(),
                );
            }
            proof_chain = Some(pc);
        } else {
            proof {
                crate::cells::lemma_take_step(crem0, cbase, crem2, seq![false], crem3);
            }
        }
        let ghost crem4 = cs.rem_bits();
        let ghost cpc = cbase + (match &proof_chain {
            Some(p) => seq![true] + p.enc_bits(),
            None => seq![false],
        });
        let has_col = cs.get_next_bit()?;
        let ghost crem5 = cs.rem_bits();
        proof {
            assert(crem4 =~= seq![has_col] + crem5);
        }
        if has_col {
            let c = ShardCollators::construct_from(&mut cs)?;
            proof {
                crate::cells::lemma_take_step(crem4, seq![true], crem5, c.enc_bits(), cs.rem_bits());
                crate::cells::lemma_take_step(
                    crem0,
                    cpc,
                    crem4,
                    seq![true] + c.enc_bits(),
                    cs.rem_bits(),
                );
            }
            collators = Some(c);
        } else {
            proof {
                crate::cells::lemma_take_step(crem0, cpc, crem4, seq![false], crem5);
            }
        }
        if tag == 0x9 {
            let cell2 = s_drain_child(&mut cs)?;
            let ghost cd2 = cell2@;
            let mut cs2 = SliceData::load_cell(cell2);
            let present = cs2.get_next_bit()?;
            if !present {
                return Err(BlockError::InvalidData);
            }
            let ghost prem = cs2.rem_bits();
            let pi = MsgPackProcessingInfo::read_from(&mut cs2)?;
            if cs2.bits_remaining() != 0 || cs2.refs_remaining() != 0 {
                return Err(BlockError::InvalidData);
            }
            proof {
                assert(cd2.bits =~= seq![true] + pi.enc_bits());
                assert(cd2.refs =~= Seq::<CellData>::empty());
            }
            pack_info = Some(pi);
        }
        if tag == 0xE && collators.is_none() {
            return Err(BlockError::InvalidData);
        }
    }
    if cs.bits_remaining() != 0 || cs.refs_remaining() != 0 {
        return Err(BlockError::InvalidData);
    }
    proof {
        assert(cd.bits =~= fee_child_bits(
            tag,
            fees_collected,
            funds_created,
            copyleft_rewards,
            proof_chain,
            collators,
        ));
        assert(cd.refs =~~= fee_child_refs(tag, proof_chain, collators, pack_info));
    }
    Ok((fees_collected, funds_created, copyleft_rewards, proof_chain, collators, pack_info))
}

/// Takes the next child cell of a slice, for nested parsing.
fn s_drain_child(cs: &mut SliceData) -> (r: Result<Cell, BlockError>)
    ensures
        match r {
            Ok(c) => {
                &&& old(cs).rem_refs().len() >= 1
                &&& c@ == old(cs).rem_refs()[0]
                &&& final(cs).rem_refs() == old(cs).rem_refs().skip(1)
                &&& final(cs).rem_bits() == old(cs).rem_bits()
            },
            Err(e) => e == BlockError::CellUnderflow,
        },
{
    match cs.checked_drain_reference() {
        Ok(c) => Ok(c),
        Err(_) => Err(BlockError::CellUnderflow),
    }
}

proof fn bv_flags_word(fl: u64)
    by (bit_vector)
    requires
        fl < 256,
        fl & 7 == 0,
    ensures
        fl == (if ((fl >> 7u64) & 1) == 1 {
            128int
        } else {
            0int
        }) + (if ((fl >> 6u64) & 1) == 1 {
            64int
        } else {
            0int
        }) + (if ((fl >> 5u64) & 1) == 1 {
            32int
        } else {
            0int
        }) + (if ((fl >> 4u64) & 1) == 1 {
            16int
        } else {
            0int
        }) + (if ((fl >> 3u64) & 1) == 1 {
            8int
        } else {
            0int
        }),
{
}

} // verus!
