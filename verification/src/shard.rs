//! Shard identifiers: a workchain id plus a bit-prefix over the account
//! address space, carried on the wire as a 64-bit word whose lowest set bit
//! terminates the active prefix.

use vstd::prelude::*;

use crate::error::BlockError;

verus! {

/// Workchain id of the masterchain.
pub const MASTERCHAIN_ID: i32 = -1;

/// Workchain id of the base workchain.
pub const BASE_WORKCHAIN_ID: i32 = 0;

/// The reserved, never valid workchain id.
pub const INVALID_WORKCHAIN_ID: i32 = -0x80000000;

/// Tagged prefix of the full shard: empty prefix, tag in the top bit.
pub const SHARD_FULL: u64 = 0x8000_0000_0000_0000;

/// Deepest allowed shard prefix.
pub const MAX_SPLIT_DEPTH: usize = 60;

/// Bit `i` (0 = most significant) of a 64-bit word.
pub open spec fn word_bit(bits: u64, i: int) -> bool {
    ((bits >> ((63 - i) as u64)) & 1u64) == 1u64
}

/// The first `len` bits of a 64-bit word, most significant first.
pub open spec fn word_prefix(bits: u64, len: nat) -> Seq<bool> {
    Seq::new(len, |i: int| word_bit(bits, i))
}

/// A shard chain identifier: workchain id and shard bit-prefix.
///
/// The prefix is held left-aligned in `bits` with `len` active bits; all
/// lower bits are zero and `len` never exceeds [`MAX_SPLIT_DEPTH`].
#[derive(Clone, Copy, Debug, PartialEq, Eq, Structural, Hash)]
pub struct ShardIdent {
    workchain_id: i32,
    bits: u64,
    len: usize,
}

// Bit-level facts proved once in the bit-vector solver and reused below.
proof fn bv_zero_low()
    by (bit_vector)
    ensures
        0u64 & (0xffff_ffff_ffff_ffffu64 >> 0u64) == 0u64,
{
}

proof fn bv_split(bits: u64, len: u64, s: u64)
    by (bit_vector)
    requires
        len <= 59,
        bits & (0xffff_ffff_ffff_ffffu64 >> len) == 0u64,
    ensures
        bits & (0xffff_ffff_ffff_ffffu64 >> ((len + 1) as u64)) == 0u64,
        (bits | (1u64 << ((63 - len) as u64))) & (0xffff_ffff_ffff_ffffu64 >> ((len + 1) as u64))
            == 0u64,
        64 - len <= s <= 63 ==> ((bits | (1u64 << ((63 - len) as u64))) >> s) & 1u64 == (bits >> s)
            & 1u64,
        ((bits | (1u64 << ((63 - len) as u64))) >> ((63 - len) as u64)) & 1u64 == 1u64,
        (bits >> ((63 - len) as u64)) & 1u64 == 0u64,
{
}

proof fn bv_merge(bits: u64, len: u64, s: u64)
    by (bit_vector)
    requires
        1 <= len <= 60,
        bits & (0xffff_ffff_ffff_ffffu64 >> len) == 0u64,
    ensures
        (bits & !(1u64 << ((64 - len) as u64))) & (0xffff_ffff_ffff_ffffu64 >> ((len - 1) as u64))
            == 0u64,
        65 - len <= s <= 63 ==> ((bits & !(1u64 << ((64 - len) as u64))) >> s) & 1u64 == (bits
            >> s) & 1u64,
{
}

proof fn bv_shift_agree(x: u64, y: u64, m: u64, s: u64)
    by (bit_vector)
    requires
        1 <= m <= 64,
        x >> ((64 - m) as u64) == y >> ((64 - m) as u64),
        64 - m <= s <= 63,
    ensures
        (x >> s) & 1u64 == (y >> s) & 1u64,
{
}

proof fn bv_shift_step(x: u64, y: u64, m: u64)
    by (bit_vector)
    requires
        2 <= m <= 64,
        x >> ((65 - m) as u64) == y >> ((65 - m) as u64),
        ((x >> ((64 - m) as u64)) & 1u64 == 1u64) <==> ((y >> ((64 - m) as u64)) & 1u64 == 1u64),
    ensures
        x >> ((64 - m) as u64) == y >> ((64 - m) as u64),
{
}

proof fn bv_shift_one(x: u64, y: u64)
    by (bit_vector)
    requires
        ((x >> 63u64) & 1u64 == 1u64) <==> ((y >> 63u64) & 1u64 == 1u64),
    ensures
        x >> 63u64 == y >> 63u64,
{
}

/// Words that agree on their first `m` bits have equal `m`-bit prefixes, and
/// conversely.
proof fn lemma_prefix_agree(x: u64, y: u64, m: nat)
    requires
        1 <= m <= 64,
    ensures
        (x >> ((64 - m) as u64) == y >> ((64 - m) as u64)) <==> word_prefix(x, m) == word_prefix(
            y,
            m,
        ),
    decreases m,
{
    if x >> ((64 - m) as u64) == y >> ((64 - m) as u64) {
        assert forall|i: int| 0 <= i < m implies word_bit(x, i) == word_bit(y, i) by {
            bv_shift_agree(x, y, m as u64, (63 - i) as u64);
        };
        assert(word_prefix(x, m) =~= word_prefix(y, m));
    }
    if word_prefix(x, m) == word_prefix(y, m) {
        assert forall|i: int| 0 <= i < m implies word_bit(x, i) == word_bit(y, i) by {
            assert(word_prefix(x, m)[i] == word_prefix(y, m)[i]);
        };
        if m == 1 {
            assert(word_bit(x, 0) == word_bit(y, 0));
            bv_shift_one(x, y);
        } else {
            assert(word_prefix(x, (m - 1) as nat) =~= word_prefix(x, m).take(m - 1));
            assert(word_prefix(y, (m - 1) as nat) =~= word_prefix(y, m).take(m - 1));
            lemma_prefix_agree(x, y, (m - 1) as nat);
            assert(word_bit(x, m - 1) == word_bit(y, m - 1));
            bv_shift_step(x, y, m as u64);
        }
    }
}

impl ShardIdent {
    /// Structural well-formedness: bounded prefix depth, zeroes below it.
    #[verifier::type_invariant]
    pub closed spec fn wf(self) -> bool {
        self.len <= MAX_SPLIT_DEPTH && self.bits & (0xffff_ffff_ffff_ffffu64 >> (
        self.len as u64)) == 0u64
    }

    /// The identifier's workchain id.
    pub closed spec fn wc_spec(self) -> i32 {
        self.workchain_id
    }

    /// The active prefix length.
    pub closed spec fn len_spec(self) -> nat {
        self.len as nat
    }

    /// The active prefix as a bit string, most significant bit first.
    pub closed spec fn key_bits(self) -> Seq<bool> {
        word_prefix(self.bits, self.len as nat)
    }

    /// The prefix bit string is exactly as long as the prefix.
    pub proof fn lemma_key_len(self)
        ensures
            self.key_bits().len() == self.len_spec(),
    {
    }

    /// The prefix with its terminator tag bit, as carried on the wire.
    pub closed spec fn tagged_spec(self) -> u64 {
        self.bits | (1u64 << ((63 - self.len) as u64))
    }

    /// The identifier of the masterchain: empty prefix in the masterchain
    /// workchain.
    pub fn masterchain() -> (s: ShardIdent)
        ensures
            s.wc_spec() == MASTERCHAIN_ID,
            s.key_bits() == Seq::<bool>::empty(),
    {
        proof {
            bv_zero_low();
        }
        let s = ShardIdent { workchain_id: MASTERCHAIN_ID, bits: 0, len: 0 };
        proof {
            assert(s.key_bits() =~= Seq::<bool>::empty());
        }
        s
    }

    /// The full (empty-prefix) shard of a workchain, without validity check.
    pub fn full(workchain_id: i32) -> (s: ShardIdent)
        ensures
            s.wc_spec() == workchain_id,
            s.key_bits() == Seq::<bool>::empty(),
    {
        proof {
            bv_zero_low();
        }
        let s = ShardIdent { workchain_id, bits: 0, len: 0 };
        proof {
            assert(s.key_bits() =~= Seq::<bool>::empty());
        }
        s
    }

    /// Fails exactly on the reserved workchain id.
    pub fn check_workchain_id(workchain_id: i32) -> (r: Result<(), BlockError>)
        ensures
            r.is_ok() <==> workchain_id != INVALID_WORKCHAIN_ID,
            r.is_err() ==> r == Result::<(), BlockError>::Err(BlockError::InvalidArg),
    {
        if workchain_id == INVALID_WORKCHAIN_ID {
            Err(BlockError::InvalidArg)
        } else {
            Ok(())
        }
    }

    /// The full shard of a workchain; fails exactly on the reserved
    /// workchain id.
    pub fn with_workchain_id(workchain_id: i32) -> (r: Result<ShardIdent, BlockError>)
        ensures
            match r {
                Ok(s) => {
                    &&& workchain_id != INVALID_WORKCHAIN_ID
                    &&& s.wc_spec() == workchain_id
                    &&& s.key_bits() == Seq::<bool>::empty()
                },
                Err(e) => workchain_id == INVALID_WORKCHAIN_ID && e == BlockError::InvalidArg,
            },
    {
        Self::check_workchain_id(workchain_id)?;
        Ok(Self::full(workchain_id))
    }

    /// Whether this is the masterchain's shard.
    pub fn is_masterchain(&self) -> (r: bool)
        ensures
            r == (self.wc_spec() == MASTERCHAIN_ID),
    {
        self.workchain_id == MASTERCHAIN_ID
    }

    /// Whether the prefix is empty (the shard spans its whole workchain).
    pub fn is_full(&self) -> (r: bool)
        ensures
            r == (self.len_spec() == 0),
    {
        self.len == 0
    }

    /// The workchain id.
    pub fn workchain_id(&self) -> (r: i32)
        ensures
            r == self.wc_spec(),
    {
        self.workchain_id
    }

    /// The active prefix length.
    pub fn prefix_len(&self) -> (r: usize)
        ensures
            r == self.len_spec(),
            r <= MAX_SPLIT_DEPTH,
    {
        proof {
            use_type_invariant(self);
        }
        self.len
    }

    /// The prefix bits as a key for trie descent.
    pub fn shard_key(&self) -> (k: Vec<bool>)
        ensures
            k@ == self.key_bits(),
            k@.len() <= MAX_SPLIT_DEPTH,
    {
        proof {
            use_type_invariant(self);
        }
        let mut k: Vec<bool> = Vec::new();
        let mut i: usize = 0;
        while i < self.len
            invariant
                i <= self.len <= 60,
                k@ =~= self.key_bits().take(i as int),
            decreases self.len - i,
        {
            let sh: u64 = (63 - i) as u64;
            let b: bool = ((self.bits >> sh) & 1) == 1;
            k.push(b);
            proof {
                assert(k@ =~= self.key_bits().take(i as int + 1));
            }
            i = i + 1;
        }
        proof {
            assert(self.key_bits().take(self.len as int) =~= self.key_bits());
        }
        k
    }

    /// The tagged wire form of the prefix.
    pub fn shard_prefix_with_tag(&self) -> (r: u64)
        ensures
            r == self.tagged_spec(),
    {
        proof {
            use_type_invariant(self);
        }
        self.bits | (1u64 << ((63 - self.len) as u64))
    }

    /// Rebuilds an identifier from its tagged wire form. Succeeds exactly
    /// when the word has its terminator bit placed no deeper than
    /// [`MAX_SPLIT_DEPTH`] prefix bits.
    pub fn with_tagged_prefix(workchain_id: i32, prefix: u64) -> (r: Result<
        ShardIdent,
        BlockError,
    >)
        ensures
            match r {
                Ok(s) => {
                    &&& s.wc_spec() == workchain_id
                    &&& s.tagged_spec() == prefix
                    &&& prefix != 0
                    &&& prefix & 7 == 0
                },
                Err(e) => e == BlockError::InvalidArg && (prefix == 0 || prefix & 7 != 0),
            },
    {
        if prefix == 0 {
            return Err(BlockError::InvalidArg);
        }
        proof {
            bv_untag_init(prefix);
        }
        let mut t: usize = 0;
        while t < 63 && ((prefix >> (t as u64)) & 1) == 0
            invariant
                t <= 63,
                prefix != 0,
                prefix & (((1u64 << (t as u64)) - 1) as u64) == 0u64,
            decreases 63 - t,
        {
            proof {
                bv_untag_step(prefix, t as u64);
            }
            t = t + 1;
        }
        proof {
            if t == 63 {
                bv_untag_top(prefix);
            }
        }
        if t < 3 {
            proof {
                bv_untag_low(prefix, t as u64);
            }
            return Err(BlockError::InvalidArg);
        }
        let len: usize = 63 - t;
        let bits: u64 = prefix & !(1u64 << (t as u64));
        proof {
            bv_untag_ok(prefix, t as u64);
        }
        Ok(ShardIdent { workchain_id, bits, len })
    }

    /// The shard's two children: the prefix extended by a `0` and by a `1`.
    pub closed spec fn split_spec(self) -> (ShardIdent, ShardIdent) {
        (
            ShardIdent { workchain_id: self.workchain_id, bits: self.bits, len: (self.len + 1) as usize },
            ShardIdent {
                workchain_id: self.workchain_id,
                bits: (self.bits | (1u64 << ((63 - self.len) as u64))) as u64,
                len: (self.len + 1) as usize,
            },
        )
    }

    /// The shard's parent: the prefix without its last bit.
    pub closed spec fn merge_spec(self) -> ShardIdent {
        ShardIdent {
            workchain_id: self.workchain_id,
            bits: (self.bits & !(1u64 << ((64 - self.len) as u64))) as u64,
            len: (self.len - 1) as usize,
        }
    }

    /// A shard differs from both of its children, and the children from
    /// each other.
    pub proof fn lemma_split_spec_distinct(self)
        requires
            self.wf(),
            self.len_spec() < MAX_SPLIT_DEPTH,
        ensures
            self.split_spec().0 != self,
            self.split_spec().1 != self,
            self.split_spec().0 != self.split_spec().1,
    {
        bv_split(self.bits, self.len as u64, 63);
    }

    /// Splits the shard into its two children, appending a `0` and a `1`
    /// bit. Fails exactly at the maximal depth.
    pub fn split(&self) -> (r: Result<(ShardIdent, ShardIdent), BlockError>)
        ensures
            match r {
                Ok((l, rg)) => {
                    &&& self.len_spec() < MAX_SPLIT_DEPTH
                    &&& (l, rg) == self.split_spec()
                    &&& l.wc_spec() == self.wc_spec()
                    &&& rg.wc_spec() == self.wc_spec()
                    &&& l.key_bits() == self.key_bits().push(false)
                    &&& rg.key_bits() == self.key_bits().push(true)
                },
                Err(e) => e == BlockError::InvalidArg && self.len_spec() == MAX_SPLIT_DEPTH,
            },
    {
        proof {
            use_type_invariant(self);
        }
        if self.len >= MAX_SPLIT_DEPTH {
            return Err(BlockError::InvalidArg);
        }
        let sh: u64 = (63 - self.len) as u64;
        let rbits: u64 = self.bits | (1u64 << sh);
        proof {
            bv_split(self.bits, self.len as u64, 63);
        }
        let l = ShardIdent { workchain_id: self.workchain_id, bits: self.bits, len: self.len + 1 };
        let rg = ShardIdent { workchain_id: self.workchain_id, bits: rbits, len: self.len + 1 };
        proof {
            assert forall|i: int| 0 <= i < l.len implies l.key_bits()[i] == self.key_bits().push(
                false,
            )[i] by {
                if i == self.len {
                    bv_split(self.bits, self.len as u64, 63);
                }
            };
            assert forall|i: int| 0 <= i < rg.len implies rg.key_bits()[i] == self.key_bits().push(
                true,
            )[i] by {
                if i < self.len {
                    bv_split(self.bits, self.len as u64, (63 - i) as u64);
                } else {
                    bv_split(self.bits, self.len as u64, 63);
                }
            };
            assert(l.key_bits() =~= self.key_bits().push(false));
            assert(rg.key_bits() =~= self.key_bits().push(true));
        }
        Ok((l, rg))
    }

    /// Merges the shard into its parent, dropping the last prefix bit.
    /// Fails exactly on a full shard.
    pub fn merge(&self) -> (r: Result<ShardIdent, BlockError>)
        ensures
            match r {
                Ok(p) => {
                    &&& self.len_spec() > 0
                    &&& p == self.merge_spec()
                    &&& p.wc_spec() == self.wc_spec()
                    &&& p.key_bits() == self.key_bits().drop_last()
                },
                Err(e) => e == BlockError::InvalidArg && self.len_spec() == 0,
            },
    {
        proof {
            use_type_invariant(self);
        }
        if self.len == 0 {
            return Err(BlockError::InvalidArg);
        }
        let sh: u64 = (64 - self.len) as u64;
        let pbits: u64 = self.bits & !(1u64 << sh);
        proof {
            bv_merge(self.bits, self.len as u64, 63);
        }
        let p = ShardIdent { workchain_id: self.workchain_id, bits: pbits, len: self.len - 1 };
        proof {
            assert forall|i: int| 0 <= i < p.len implies p.key_bits()[i] == self.key_bits()[i] by {
                bv_merge(self.bits, self.len as u64, (63 - i) as u64);
            };
            assert(p.key_bits() =~= self.key_bits().drop_last());
        }
        Ok(p)
    }

    /// Rebuilds an identifier from prefix bits; fails exactly when the
    /// prefix is deeper than [`MAX_SPLIT_DEPTH`].
    pub fn with_prefix_bits(workchain_id: i32, key: &Vec<bool>) -> (r: Result<
        ShardIdent,
        BlockError,
    >)
        ensures
            match r {
                Ok(s) => {
                    &&& key@.len() <= MAX_SPLIT_DEPTH
                    &&& s.wc_spec() == workchain_id
                    &&& s.key_bits() == key@
                },
                Err(e) => e == BlockError::InvalidArg && key@.len() > MAX_SPLIT_DEPTH,
            },
    {
        if key.len() > MAX_SPLIT_DEPTH {
            return Err(BlockError::InvalidArg);
        }
        let mut bits: u64 = 0;
        let mut i: usize = 0;
        proof {
            bv_zero_low();
        }
        while i < key.len()
            invariant
                i <= key@.len() <= 60,
                bits & (0xffff_ffff_ffff_ffffu64 >> (i as u64)) == 0u64,
                word_prefix(bits, i as nat) =~= key@.take(i as int),
            decreases key@.len() - i,
        {
            let ghost oldbits = bits;
            let b = key[i];
            if b {
                proof {
                    bv_split(bits, i as u64, 63);
                }
                bits = bits | (1u64 << ((63 - i) as u64));
            } else {
                proof {
                    bv_split(bits, i as u64, 63);
                }
            }
            proof {
                assert forall|j: int| 0 <= j < i + 1 implies #[trigger] word_prefix(
                    bits,
                    (i + 1) as nat,
                )[j] == key@.take(i as int + 1)[j] by {
                    if j < i {
                        bv_split(oldbits, i as u64, (63 - j) as u64);
                        assert(word_prefix(oldbits, i as nat)[j] == key@.take(i as int)[j]);
                    } else {
                        bv_split(oldbits, i as u64, 63);
                    }
                };
                assert(word_prefix(bits, (i + 1) as nat) =~= key@.take(i as int + 1));
            }
            i = i + 1;
        }
        let s = ShardIdent { workchain_id, bits, len: i };
        proof {
            assert(key@.take(key@.len() as int) =~= key@);
        }
        Ok(s)
    }

    /// The search key of this shard's left child: used to locate the
    /// ancestors of a shard that resulted from a split or merge.
    pub fn left_ancestor_mask(&self) -> (r: Result<ShardIdent, BlockError>)
        ensures
            match r {
                Ok(l) => {
                    &&& self.len_spec() < MAX_SPLIT_DEPTH
                    &&& l.wc_spec() == self.wc_spec()
                    &&& l.key_bits() == self.key_bits().push(false)
                },
                Err(e) => e == BlockError::InvalidArg && self.len_spec() == MAX_SPLIT_DEPTH,
            },
    {
        match self.split() {
            Ok((l, _)) => Ok(l),
            Err(e) => Err(e),
        }
    }

    /// The search key of this shard's right child; see
    /// [`Self::left_ancestor_mask`].
    pub fn right_ancestor_mask(&self) -> (r: Result<ShardIdent, BlockError>)
        ensures
            match r {
                Ok(rg) => {
                    &&& self.len_spec() < MAX_SPLIT_DEPTH
                    &&& rg.wc_spec() == self.wc_spec()
                    &&& rg.key_bits() == self.key_bits().push(true)
                },
                Err(e) => e == BlockError::InvalidArg && self.len_spec() == MAX_SPLIT_DEPTH,
            },
    {
        match self.split() {
            Ok((_, rg)) => Ok(rg),
            Err(e) => Err(e),
        }
    }

    /// Whether `self`'s prefix is a prefix of `other`'s, in the same
    /// workchain. A shard is an ancestor of itself.
    pub fn is_ancestor_for(&self, other: &ShardIdent) -> (r: bool)
        ensures
            r == (self.wc_spec() == other.wc_spec() && self.key_bits().len()
                <= other.key_bits().len() && self.key_bits() == other.key_bits().take(
                self.key_bits().len() as int,
            )),
    {
        proof {
            use_type_invariant(self);
            use_type_invariant(other);
        }
        if self.workchain_id != other.workchain_id || self.len > other.len {
            return false;
        }
        if self.len == 0 {
            proof {
                assert(self.key_bits() =~= other.key_bits().take(0));
            }
            return true;
        }
        let sh: u64 = (64 - self.len) as u64;
        let r = (self.bits >> sh) == (other.bits >> sh);
        proof {
            lemma_prefix_agree(self.bits, other.bits, self.len as nat);
            assert(word_prefix(other.bits, self.len as nat) =~= other.key_bits().take(
                self.len as int,
            ));
            assert(word_prefix(self.bits, self.len as nat) =~= self.key_bits());
        }
        r
    }

    /// Whether `self` is the immediate parent of `child`: one bit shorter,
    /// same workchain, and a prefix of it.
    pub fn is_parent_for(&self, child: &ShardIdent) -> (r: bool)
        ensures
            r == (self.wc_spec() == child.wc_spec() && child.key_bits().len()
                == self.key_bits().len() + 1 && self.key_bits() == child.key_bits().take(
                self.key_bits().len() as int,
            )),
    {
        proof {
            use_type_invariant(self);
            use_type_invariant(child);
        }
        if self.workchain_id != child.workchain_id || child.len != self.len + 1 {
            return false;
        }
        self.is_ancestor_for(child)
    }

    /// The adjacency predicate of the topology: two distinct shards are
    /// neighbours when either lives in the masterchain, or they share a
    /// workchain and their prefixes agree on all but the last three
    /// positions of the shorter one.
    pub open spec fn is_neighbor_spec(a: ShardIdent, b: ShardIdent) -> bool {
        let l = if a.len_spec() <= b.len_spec() {
            a.len_spec()
        } else {
            b.len_spec()
        };
        let m = if l <= 3 {
            0
        } else {
            (l - 3) as nat
        };
        ||| a.wc_spec() == MASTERCHAIN_ID
        ||| b.wc_spec() == MASTERCHAIN_ID
        ||| (a.wc_spec() == b.wc_spec() && !(a.key_bits() == b.key_bits()) && a.key_bits().take(
            m as int,
        ) == b.key_bits().take(m as int))
    }

    /// Whether `other` is a neighbour of `self`; see
    /// [`Self::is_neighbor_spec`].
    pub fn is_neighbor_for(&self, other: &ShardIdent) -> (r: bool)
        ensures
            r == Self::is_neighbor_spec(*self, *other),
    {
        proof {
            use_type_invariant(self);
            use_type_invariant(other);
        }
        if self.workchain_id == MASTERCHAIN_ID || other.workchain_id == MASTERCHAIN_ID {
            return true;
        }
        if self.workchain_id != other.workchain_id {
            return false;
        }
        let l: usize = if self.len <= other.len {
            self.len
        } else {
            other.len
        };
        let same = self.len == other.len && self.bits == other.bits;
        proof {
            if self.len == other.len {
                if self.bits == other.bits {
                    assert(self.key_bits() =~= other.key_bits());
                } else if self.len > 0 {
                    lemma_prefix_agree(self.bits, other.bits, self.len as nat);
                    bv_full_prefix(self.bits, self.len as u64);
                    bv_full_prefix(other.bits, other.len as u64);
                    assert(self.key_bits() =~= word_prefix(self.bits, self.len as nat));
                } else {
                    bv_mask_full(self.bits);
                    bv_mask_full(other.bits);
                }
            } else {
                assert(self.key_bits().len() != other.key_bits().len());
            }
        }
        if same {
            return false;
        }
        if l <= 3 {
            proof {
                let m = 0int;
                assert(self.key_bits().take(m) =~= other.key_bits().take(m));
            }
            return true;
        }
        let m: usize = l - 3;
        let sh: u64 = (64 - m) as u64;
        let r = (self.bits >> sh) == (other.bits >> sh);
        proof {
            lemma_prefix_agree(self.bits, other.bits, m as nat);
            assert(word_prefix(self.bits, m as nat) =~= self.key_bits().take(m as int));
            assert(word_prefix(other.bits, m as nat) =~= other.key_bits().take(m as int));
        }
        r
    }
}

proof fn bv_untag_init(prefix: u64)
    by (bit_vector)
    ensures
        prefix & (((1u64 << 0u64) - 1) as u64) == 0u64,
{
}

proof fn bv_untag_step(prefix: u64, t: u64)
    by (bit_vector)
    requires
        t < 63,
        prefix & (((1u64 << t) - 1) as u64) == 0u64,
        (prefix >> t) & 1u64 == 0u64,
    ensures
        prefix & (((1u64 << ((t + 1) as u64)) - 1) as u64) == 0u64,
{
}

proof fn bv_untag_top(prefix: u64)
    by (bit_vector)
    requires
        prefix != 0,
        prefix & (((1u64 << 63u64) - 1) as u64) == 0u64,
    ensures
        (prefix >> 63u64) & 1u64 != 0u64,
{
}

proof fn bv_untag_low(prefix: u64, t: u64)
    by (bit_vector)
    requires
        t < 3,
        (prefix >> t) & 1u64 != 0u64,
    ensures
        prefix & 7 != 0,
{
}

proof fn bv_untag_ok(prefix: u64, t: u64)
    by (bit_vector)
    requires
        3 <= t <= 63,
        prefix & (((1u64 << t) - 1) as u64) == 0u64,
        (prefix >> t) & 1u64 != 0u64,
    ensures
        (prefix & !(1u64 << t)) & (0xffff_ffff_ffff_ffffu64 >> ((63 - t) as u64)) == 0u64,
        (prefix & !(1u64 << t)) | (1u64 << t) == prefix,
        prefix & 7 == 0,
{
}

proof fn bv_full_prefix(bits: u64, len: u64)
    by (bit_vector)
    requires
        1 <= len <= 60,
        bits & (0xffff_ffff_ffff_ffffu64 >> len) == 0u64,
    ensures
        (bits >> ((64 - len) as u64)) << ((64 - len) as u64) == bits,
{
}

proof fn bv_mask_full(bits: u64)
    by (bit_vector)
    requires
        bits & (0xffff_ffff_ffff_ffffu64 >> 0u64) == 0u64,
    ensures
        bits == 0u64,
{
}

/// A full 64-bit account address prefix within one workchain.
#[derive(Clone, Copy, Debug, PartialEq, Eq, Structural, Hash)]
pub struct AccountIdPrefixFull {
    pub workchain_id: i32,
    pub prefix: u64,
}

impl AccountIdPrefixFull {
    /// The full address prefix as a 64-bit key for trie descent.
    pub fn shard_key(&self) -> (k: Vec<bool>)
        ensures
            k@ == word_prefix(self.prefix, 64),
    {
        let mut k: Vec<bool> = Vec::new();
        let mut i: usize = 0;
        while i < 64
            invariant
                i <= 64,
                k@ =~= word_prefix(self.prefix, 64).take(i as int),
            decreases 64 - i,
        {
            let sh: u64 = (63 - i) as u64;
            let b: bool = ((self.prefix >> sh) & 1) == 1;
            k.push(b);
            proof {
                assert(k@ =~= word_prefix(self.prefix, 64).take(i as int + 1));
            }
            i = i + 1;
        }
        proof {
            assert(word_prefix(self.prefix, 64).take(64) =~= word_prefix(self.prefix, 64));
        }
        k
    }

    /// The workchain id.
    pub fn workchain_id(&self) -> (r: i32)
        ensures
            r == self.workchain_id,
    {
        self.workchain_id
    }
}

/// A shard identifier in its flat wire shape: workchain id and tagged
/// 64-bit prefix.
#[derive(Clone, Copy, Debug, Default, PartialEq, Eq, Structural, Hash)]
pub struct ShardIdentFull {
    pub workchain_id: i32,
    pub prefix: u64,
}

impl ShardIdentFull {
    /// Packs a workchain id and a tagged prefix.
    pub fn new(workchain_id: i32, prefix: u64) -> (r: ShardIdentFull)
        ensures
            r.workchain_id == workchain_id,
            r.prefix == prefix,
    {
        ShardIdentFull { workchain_id, prefix }
    }
}

} // verus!
