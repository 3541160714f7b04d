//! The key-block index: an augmented binary trie over the 32-bit block
//! sequence-number space. Every fork carries the aggregate of its subtree —
//! whether any key block lies below, and the greatest end logical time —
//! so nearest-key-block queries can prune whole branches.

use vstd::prelude::*;
use vstd::arithmetic::power2::{pow2, lemma_pow2_unfold, lemma_pow2_pos, lemma2_to64, lemma2_to64_rest};
use vstd::bits::{lemma_u32_shl_is_mul, lemma_u32_pow2_no_overflow};

use crate::cells::{bits_val, uint_bits, BuilderData, SliceData};
use crate::error::BlockError;
use crate::types::{BlockIdExt, ExtBlkRef};

verus! {

broadcast use vstd::seq::group_seq_axioms;

/// The subtree aggregate: any key block below, and the greatest end
/// logical time below.
#[derive(Clone, Copy, Debug, Default, PartialEq, Eq, Structural, Hash)]
pub struct KeyMaxLt {
    pub key: bool,
    pub max_end_lt: u64,
}

impl KeyMaxLt {
    /// The combined aggregate of two subtrees.
    pub open spec fn combine_spec(self, other: KeyMaxLt) -> KeyMaxLt {
        KeyMaxLt {
            key: self.key || other.key,
            max_end_lt: if self.max_end_lt >= other.max_end_lt {
                self.max_end_lt
            } else {
                other.max_end_lt
            },
        }
    }

    /// Folds another subtree's aggregate into this one.
    pub fn calc(&mut self, other: &KeyMaxLt) -> (r: Result<bool, BlockError>)
        ensures
            r == Result::<bool, BlockError>::Ok(true),
            *final(self) == old(self).combine_spec(*other),
    {
        if other.key {
            self.key = true;
        }
        if self.max_end_lt < other.max_end_lt {
            self.max_end_lt = other.max_end_lt;
        }
        Ok(true)
    }

    /// The 65-bit wire form: flag then maximum logical time.
    pub open spec fn enc_bits(self) -> Seq<bool> {
        seq![self.key] + uint_bits(self.max_end_lt, 64)
    }

    /// Writes the aggregate.
    pub fn write_to(&self, b: &mut BuilderData) -> (r: Result<(), BlockError>)
        ensures
            r.is_ok(),
            final(b).bits_spec() == old(b).bits_spec() + self.enc_bits(),
            final(b).refs_spec() == old(b).refs_spec(),
    {
        proof {
            lemma2_to64();
            lemma2_to64_rest();
        }
        b.append_bit(self.key);
        b.append_bits(self.max_end_lt, 64);
        proof {
            assert(final(b).bits_spec() =~= old(b).bits_spec() + self.enc_bits());
        }
        Ok(())
    }

    /// Reads an aggregate; consumes exactly its 65 bits on success.
    pub fn read_from(s: &mut SliceData) -> (r: Result<KeyMaxLt, BlockError>)
        ensures
            match r {
                Ok(x) => {
                    &&& old(s).rem_bits().len() >= 65
                    &&& old(s).rem_bits().take(65) == x.enc_bits()
                    &&& final(s).rem_bits() == old(s).rem_bits().skip(65)
                    &&& final(s).rem_refs() == old(s).rem_refs()
                },
                Err(e) => e == BlockError::CellUnderflow && old(s).rem_bits().len() < 65,
            },
    {
        proof {
            lemma2_to64();
            lemma2_to64_rest();
        }
        let ghost rem0 = s.rem_bits();
        let key = s.get_next_bit()?;
        let ghost rem1 = s.rem_bits();
        let max_end_lt = s.get_next_int(64)?;
        let x = KeyMaxLt { key, max_end_lt };
        proof {
            crate::cells::lemma_read_exact(rem1, 64, max_end_lt);
            assert(x.enc_bits() =~= seq![rem0[0]] + rem1.take(64));
            assert(rem0.take(65) =~= seq![rem0[0]] + rem1.take(64));
            assert(final(s).rem_bits() =~= old(s).rem_bits().skip(65));
        }
        Ok(x)
    }
}

/// An indexed masterchain block: whether it is a key block, and its
/// external reference.
#[derive(Clone, Copy, Debug, Default, PartialEq, Eq, Structural, Hash)]
pub struct KeyExtBlkRef {
    pub key: bool,
    pub blk_ref: ExtBlkRef,
}

impl KeyExtBlkRef {
    /// Whether the block carries a new validator or config epoch.
    pub fn key(&self) -> (r: bool)
        ensures
            r == self.key,
    {
        self.key
    }

    /// The block's external reference.
    pub fn blk_ref(&self) -> (r: &ExtBlkRef)
        ensures
            r == self.blk_ref,
    {
        &self.blk_ref
    }

    /// The block's end logical time, full identifier, and key flag.
    pub fn master_block_id(self) -> (r: (u64, BlockIdExt, bool))
        ensures
            r.0 == self.blk_ref.end_lt,
            r.1.seq_no == self.blk_ref.seq_no,
            r.1.root_hash == self.blk_ref.root_hash,
            r.1.file_hash == self.blk_ref.file_hash,
            r.1.shard_id.wc_spec() == crate::shard::MASTERCHAIN_ID,
            r.2 == self.key,
    {
        (self.blk_ref.end_lt, BlockIdExt::from_ext_blk(self.blk_ref), self.key)
    }

    /// This entry's aggregate.
    pub open spec fn aug_spec(self) -> KeyMaxLt {
        KeyMaxLt { key: self.key, max_end_lt: self.blk_ref.end_lt }
    }

    /// Computes the entry's aggregate.
    pub fn aug(&self) -> (r: Result<KeyMaxLt, BlockError>)
        ensures
            r == Result::<KeyMaxLt, BlockError>::Ok(self.aug_spec()),
    {
        Ok(KeyMaxLt { key: self.key, max_end_lt: self.blk_ref.end_lt })
    }

    /// The 609-bit wire form: flag then block reference.
    pub open spec fn enc_bits(self) -> Seq<bool> {
        seq![self.key] + self.blk_ref.enc_bits()
    }

    /// Writes the entry.
    pub fn write_to(&self, b: &mut BuilderData) -> (r: Result<(), BlockError>)
        ensures
            r.is_ok(),
            final(b).bits_spec() == old(b).bits_spec() + self.enc_bits(),
            final(b).refs_spec() == old(b).refs_spec(),
    {
        b.append_bit(self.key);
        self.blk_ref.write_to(b)?;
        proof {
            assert(final(b).bits_spec() =~= old(b).bits_spec() + self.enc_bits());
        }
        Ok(())
    }

    /// Reads an entry; consumes exactly its 609 bits on success.
    pub fn read_from(s: &mut SliceData) -> (r: Result<KeyExtBlkRef, BlockError>)
        ensures
            match r {
                Ok(x) => {
                    &&& old(s).rem_bits().len() >= 609
                    &&& old(s).rem_bits().take(609) == x.enc_bits()
                    &&& final(s).rem_bits() == old(s).rem_bits().skip(609)
                    &&& final(s).rem_refs() == old(s).rem_refs()
                },
                Err(e) => e == BlockError::CellUnderflow && old(s).rem_bits().len() < 609,
            },
    {
        let ghost rem0 = s.rem_bits();
        let key = s.get_next_bit()?;
        let ghost rem1 = s.rem_bits();
        let blk_ref = ExtBlkRef::read_from(s)?;
        let x = KeyExtBlkRef { key, blk_ref };
        proof {
            assert(x.enc_bits() =~= seq![rem0[0]] + rem1.take(608));
            assert(rem0.take(609) =~= seq![rem0[0]] + rem1.take(608));
            assert(final(s).rem_bits() =~= old(s).rem_bits().skip(609));
        }
        Ok(x)
    }
}

/// A node of the index: a leaf entry at full depth, or a fork carrying its
/// subtree's aggregate and up to two children.
#[derive(Debug)]
enum KbNode {
    Entry(KeyExtBlkRef),
    Fork(KeyMaxLt, Option<Box<KbNode>>, Option<Box<KbNode>>),
}

/// The aggregate of a node's subtree.
spec fn node_aug(n: KbNode) -> KeyMaxLt {
    match n {
        KbNode::Entry(v) => v.aug_spec(),
        KbNode::Fork(a, _, _) => a,
    }
}

/// The aggregate of an optional subtree, the empty one contributing the
/// neutral element.
spec fn opt_aug(o: Option<Box<KbNode>>) -> KeyMaxLt {
    match o {
        Some(n) => node_aug(*n),
        None => KeyMaxLt { key: false, max_end_lt: 0 },
    }
}

/// Structural soundness at remaining depth `d`: leaves at depth zero only,
/// forks nonempty with correct aggregates.
spec fn node_wf(n: KbNode, d: nat) -> bool
    decreases n,
{
    match n {
        KbNode::Entry(_) => d == 0,
        KbNode::Fork(a, l, r) => {
            &&& d > 0
            &&& !(l is None && r is None)
            &&& (l matches Some(ln) ==> node_wf(*ln, (d - 1) as nat))
            &&& (r matches Some(rn) ==> node_wf(*rn, (d - 1) as nat))
            &&& a == opt_aug(l).combine_spec(opt_aug(r))
        },
    }
}

/// The entry under relative key `k` in a node of remaining depth `d`.
spec fn node_lookup(n: KbNode, d: nat, k: int) -> Option<KeyExtBlkRef>
    decreases n,
{
    match n {
        KbNode::Entry(v) => if k == 0 {
            Some(v)
        } else {
            None
        },
        KbNode::Fork(_, l, r) => {
            let half = pow2((d - 1) as nat) as int;
            if k < half {
                match l {
                    Some(ln) => node_lookup(*ln, (d - 1) as nat, k),
                    None => None,
                }
            } else {
                match r {
                    Some(rn) => node_lookup(*rn, (d - 1) as nat, k - half),
                    None => None,
                }
            }
        },
    }
}

/// The index over all masterchain blocks, keyed by sequence number.
#[derive(Debug)]
pub struct OldMcBlocksInfo {
    root: Option<Box<KbNode>>,
}

impl OldMcBlocksInfo {
    /// Structural soundness of the whole index.
    #[verifier::type_invariant]
    spec fn wf(self) -> bool {
        match self.root {
            Some(n) => node_wf(*n, 32),
            None => true,
        }
    }

    /// The entry stored under a sequence number, if any.
    pub closed spec fn entry(self, k: int) -> Option<KeyExtBlkRef> {
        match self.root {
            Some(n) => if 0 <= k < 0x1_0000_0000 {
                node_lookup(*n, 32, k)
            } else {
                None
            },
            None => None,
        }
    }

    /// Whether a key block is indexed under `k`.
    pub open spec fn is_key_at(self, k: int) -> bool {
        match self.entry(k) {
            Some(e) => e.key,
            None => false,
        }
    }

    /// An empty index.
    pub fn new() -> (r: OldMcBlocksInfo)
        ensures
            forall|k: int| r.entry(k) is None,
    {
        OldMcBlocksInfo { root: None }
    }

    /// Whether the index holds no entry.
    pub fn is_empty(&self) -> (r: bool)
        ensures
            r ==> forall|k: int| self.entry(k) is None,
    {
        (matches!(self.root, Option::None))
    }
}

/// The entry under relative key `k` in an optional subtree.
spec fn opt_lookup(o: Option<Box<KbNode>>, d: nat, k: int) -> Option<KeyExtBlkRef> {
    match o {
        Some(n) => node_lookup(*n, d, k),
        None => None,
    }
}

/// A fork's aggregate flag is set exactly when a key block lies below it.
proof fn lemma_aug_key(n: KbNode, d: nat)
    requires
        node_wf(n, d),
    ensures
        node_aug(n).key <==> exists|k: int|
            0 <= k < pow2(d) && ((#[trigger] node_lookup(n, d, k)) matches Some(e) && e.key),
    decreases n,
{
    lemma_pow2_pos(d);
    match n {
        KbNode::Entry(v) => {
            assert(node_lookup(n, d, 0) == Some(v));
        },
        KbNode::Fork(a, l, r) => {
            let half = pow2((d - 1) as nat) as int;
            lemma_pow2_unfold(d);
            match l {
                Some(ln) => {
                    lemma_aug_key(*ln, (d - 1) as nat);
                    if node_aug(*ln).key {
                        let k = choose|k: int|
                            0 <= k < pow2((d - 1) as nat) && ((#[trigger] node_lookup(
                                *ln,
                                (d - 1) as nat,
                                k,
                            )) matches Some(e) && e.key);
                        assert(node_lookup(n, d, k) == node_lookup(*ln, (d - 1) as nat, k));
                    }
                },
                None => {},
            }
            match r {
                Some(rn) => {
                    lemma_aug_key(*rn, (d - 1) as nat);
                    if node_aug(*rn).key {
                        let k = choose|k: int|
                            0 <= k < pow2((d - 1) as nat) && ((#[trigger] node_lookup(
                                *rn,
                                (d - 1) as nat,
                                k,
                            )) matches Some(e) && e.key);
                        assert(node_lookup(n, d, k + half) == node_lookup(*rn, (d - 1) as nat, k));
                    }
                },
                None => {},
            }
            if !a.key {
                assert forall|k: int|
                    0 <= k < pow2(d) implies !((#[trigger] node_lookup(n, d, k)) matches Some(e)
                    && e.key) by {
                    if k < half {
                        match l {
                            Some(ln) => {
                                assert(node_lookup(n, d, k) == node_lookup(
                                    *ln,
                                    (d - 1) as nat,
                                    k,
                                ));
                            },
                            None => {},
                        }
                    } else {
                        match r {
                            Some(rn) => {
                                assert(node_lookup(n, d, k) == node_lookup(
                                    *rn,
                                    (d - 1) as nat,
                                    k - half,
                                ));
                            },
                            None => {},
                        }
                    }
                };
            }
        },
    }
}

/// Computes a node's aggregate.
fn node_aug_exec(n: &KbNode) -> (r: KeyMaxLt)
    ensures
        r == node_aug(*n),
{
    match n {
        KbNode::Entry(v) => KeyMaxLt { key: v.key, max_end_lt: v.blk_ref.end_lt },
        KbNode::Fork(a, _, _) => *a,
    }
}

/// Computes the aggregate of an optional subtree.
fn opt_aug_exec(o: &Option<Box<KbNode>>) -> (r: KeyMaxLt)
    ensures
        r == opt_aug(*o),
{
    match o {
        Some(n) => node_aug_exec(&**n),
        None => KeyMaxLt { key: false, max_end_lt: 0 },
    }
}

/// Inserts or replaces the entry under relative key `k`, rebuilding the
/// aggregates along the path.
fn set_node(o: Option<Box<KbNode>>, d: usize, k: u32, v: KeyExtBlkRef) -> (r: Box<KbNode>)
    requires
        d <= 32,
        (k as nat) < pow2(d as nat),
        o matches Some(n) ==> node_wf(*n, d as nat),
    ensures
        node_wf(*r, d as nat),
        forall|k2: int|
            0 <= k2 < pow2(d as nat) ==> #[trigger] node_lookup(*r, d as nat, k2) == (if k2
                == k {
                Some(v)
            } else {
                opt_lookup(o, d as nat, k2)
            }),
    decreases d,
{
    proof {
        lemma_pow2_pos(d as nat);
        lemma2_to64();
    }
    if d == 0 {
        let nn = Box::new(KbNode::Entry(v));
        proof {
            assert(k == 0);
            assert forall|k2: int| 0 <= k2 < pow2(0) implies #[trigger] node_lookup(*nn, 0, k2)
                == (if k2 == k {
                Some(v)
            } else {
                opt_lookup(o, 0, k2)
            }) by {
                assert(k2 == 0);
            };
        }
        return nn;
    }
    let half: u32 = 1u32 << ((d - 1) as u32);
    proof {
        lemma_u32_pow2_no_overflow((d - 1) as nat);
        lemma_u32_shl_is_mul(1u32, (d - 1) as u32);
        assert(half == pow2((d - 1) as nat));
        lemma_pow2_unfold(d as nat);
    }
    let (ol, orr) = match o {
        None => (None, None),
        Some(n) => match *n {
            KbNode::Fork(_, l, r) => (l, r),
            KbNode::Entry(e) => {
                proof {
                    assert(false);
                }
                (None, None)
            },
        },
    };
    let ghost gl = ol;
    let ghost gr = orr;
    if k < half {
        let nl = set_node(ol, d - 1, k, v);
        let la = node_aug_exec(&*nl);
        let ra = opt_aug_exec(&orr);
        let mut a = la;
        let _ = a.calc(&ra);
        let nn = Box::new(KbNode::Fork(a, Some(nl), orr));
        proof {
            assert(node_wf(*nn, d as nat));
            assert forall|k2: int| 0 <= k2 < pow2(d as nat) implies #[trigger] node_lookup(
                *nn,
                d as nat,
                k2,
            ) == (if k2 == k {
                Some(v)
            } else {
                opt_lookup(o, d as nat, k2)
            }) by {
                let half_i = pow2((d - 1) as nat) as int;
                if k2 < half_i {
                    assert(node_lookup(*nn, d as nat, k2) == node_lookup(*nl, (d - 1) as nat, k2));
                } else {
                    assert(node_lookup(*nn, d as nat, k2) == opt_lookup(gr, (d - 1) as nat, k2 - half_i));
                }
            };
        }
        nn
    } else {
        let nr = set_node(orr, d - 1, k - half, v);
        let la = opt_aug_exec(&ol);
        let ra = node_aug_exec(&*nr);
        let mut a = la;
        let _ = a.calc(&ra);
        let nn = Box::new(KbNode::Fork(a, ol, Some(nr)));
        proof {
            assert(node_wf(*nn, d as nat));
            assert forall|k2: int| 0 <= k2 < pow2(d as nat) implies #[trigger] node_lookup(
                *nn,
                d as nat,
                k2,
            ) == (if k2 == k {
                Some(v)
            } else {
                opt_lookup(o, d as nat, k2)
            }) by {
                let half_i = pow2((d - 1) as nat) as int;
                if k2 < half_i {
                    assert(node_lookup(*nn, d as nat, k2) == opt_lookup(gl, (d - 1) as nat, k2));
                } else {
                    assert(node_lookup(*nn, d as nat, k2) == node_lookup(*nr, (d - 1) as nat, k2 - half_i));
                }
            };
        }
        nn
    }
}

/// Finds the entry under relative key `k`.
fn get_node<'a>(n: &'a KbNode, d: usize, k: u32) -> (r: Option<&'a KeyExtBlkRef>)
    requires
        d <= 32,
        (k as nat) < pow2(d as nat),
        node_wf(*n, d as nat),
    ensures
        match (r, node_lookup(*n, d as nat, k as int)) {
            (Some(v), Some(sv)) => *v == sv,
            (None, None) => true,
            _ => false,
        },
    decreases d,
{
    proof {
        lemma2_to64();
    }
    match n {
        KbNode::Entry(v) => Some(v),
        KbNode::Fork(_, l, r) => {
            let half: u32 = 1u32 << ((d - 1) as u32);
            proof {
                lemma_u32_pow2_no_overflow((d - 1) as nat);
                lemma_u32_shl_is_mul(1u32, (d - 1) as u32);
                lemma_pow2_unfold(d as nat);
            }
            if k < half {
                match l {
                    Some(ln) => get_node(&**ln, d - 1, k),
                    None => None,
                }
            } else {
                match r {
                    Some(rn) => get_node(&**rn, d - 1, k - half),
                    None => None,
                }
            }
        },
    }
}

impl OldMcBlocksInfo {
    /// Stores or replaces the entry under a sequence number.
    pub fn set(&mut self, seq_no: u32, v: KeyExtBlkRef)
        ensures
            forall|k: int| 0 <= k < 0x1_0000_0000 ==> #[trigger] final(self).entry(k) == (if k
                == seq_no {
                Some(v)
            } else {
                old(self).entry(k)
            }),
    {
        proof {
            use_type_invariant(&*self);
            lemma2_to64();
            lemma2_to64_rest();
        }
        let mut root: Option<Box<KbNode>> = None;
        core::mem::swap(&mut root, &mut self.root);
        let nn = set_node(root, 32, seq_no, v);
        self.root = Some(nn);
    }

    /// Finds the entry under a sequence number.
    pub fn get(&self, seq_no: u32) -> (r: Option<&KeyExtBlkRef>)
        ensures
            match (r, self.entry(seq_no as int)) {
                (Some(v), Some(sv)) => *v == sv,
                (None, None) => true,
                _ => false,
            },
    {
        proof {
            use_type_invariant(self);
            lemma2_to64();
            lemma2_to64_rest();
        }
        match &self.root {
            None => None,
            Some(n) => get_node(&**n, 32, seq_no),
        }
    }
}


/// Finds the greatest flagged key at most `req` within `[base, base+2^d)`,
/// pruning subtrees whose aggregate carries no key block.
fn prev_in<'a>(n: &'a KbNode, d: usize, base: u32, req: u32) -> (r: Option<(u32, &'a KeyExtBlkRef)>)
    requires
        d <= 32,
        node_wf(*n, d as nat),
        (base as nat) + pow2(d as nat) <= 0x1_0000_0000,
    ensures
        match r {
            Some((k, v)) => {
                &&& base <= k <= req
                &&& (k as nat) < (base as nat) + pow2(d as nat)
                &&& node_lookup(*n, d as nat, k - base) == Some(*v)
                &&& v.key
                &&& forall|k2: int|
                    base <= k2 < (base as nat) + pow2(d as nat) && k2 <= req && ((
                    #[trigger] node_lookup(*n, d as nat, k2 - base)) matches Some(e) && e.key)
                        ==> k2 <= k
            },
            None => forall|k2: int|
                base <= k2 < (base as nat) + pow2(d as nat) && k2 <= req ==> !((
                #[trigger] node_lookup(*n, d as nat, k2 - base)) matches Some(e) && e.key),
        },
    decreases d,
{
    proof {
        lemma_pow2_pos(d as nat);
        lemma2_to64();
        lemma2_to64_rest();
    }
    let aug = node_aug_exec(n);
    if !aug.key {
        proof {
            lemma_aug_key(*n, d as nat);
        }
        return None;
    }
    if base > req {
        return None;
    }
    match n {
        KbNode::Entry(v) => {
            proof {
                assert(d == 0);
                assert(pow2(0) == 1);
                assert(node_lookup(*n, 0, 0) == Some(*v));
                assert(v.key);
            }
            Some((base, v))
        },
        KbNode::Fork(_, l, r) => {
            let half: u32 = 1u32 << ((d - 1) as u32);
            proof {
                lemma_u32_pow2_no_overflow((d - 1) as nat);
                lemma_u32_shl_is_mul(1u32, (d - 1) as u32);
                lemma_pow2_unfold(d as nat);
            }
            let ghost halfi = pow2((d - 1) as nat) as int;
            let rres = match r {
                Some(rn) => prev_in(&**rn, d - 1, base + half, req),
                None => None,
            };
            proof {
                assert forall|k2: int|
                    base <= k2 < (base as nat) + pow2(d as nat) implies #[trigger] node_lookup(
                    *n,
                    d as nat,
                    k2 - base,
                ) == (if k2 - base < halfi {
                    opt_lookup(*l, (d - 1) as nat, k2 - base)
                } else {
                    opt_lookup(*r, (d - 1) as nat, k2 - base - halfi)
                }) by {};
            }
            proof {
                match r {
                    Some(rn) => {
                        assert forall|k2: int|
                            (base as nat) + halfi <= k2 < (base as nat) + pow2(d as nat) implies
                            #[trigger] node_lookup(*n, d as nat, k2 - base) == node_lookup(
                            **rn,
                            (d - 1) as nat,
                            k2 - ((base + half) as int),
                        ) by {};
                    },
                    None => {},
                }
            }
            match rres {
                Some((k, v)) => Some((k, v)),
                None => {
                    let lres = match l {
                        Some(ln) => prev_in(&**ln, d - 1, base, req),
                        None => None,
                    };
                    proof {
                        match lres {
                            Some((k, v)) => {
                                assert forall|k2: int|
                                    base <= k2 < (base as nat) + pow2(d as nat) && k2 <= req && ((
                                    #[trigger] node_lookup(*n, d as nat, k2 - base)) matches Some(
                                        e,
                                    ) && e.key) implies k2 <= k by {
                                    if k2 - base >= halfi {
                                        assert(!((node_lookup(
                                            *n,
                                            d as nat,
                                            k2 - base,
                                        )) matches Some(e) && e.key));
                                    }
                                };
                            },
                            None => {},
                        }
                    }
                    lres
                },
            }
        },
    }
}

/// Finds the least flagged key at least `req` within `[base, base+2^d)`,
/// pruning subtrees whose aggregate carries no key block.
fn next_in<'a>(n: &'a KbNode, d: usize, base: u32, req: u32) -> (r: Option<(u32, &'a KeyExtBlkRef)>)
    requires
        d <= 32,
        node_wf(*n, d as nat),
        (base as nat) + pow2(d as nat) <= 0x1_0000_0000,
    ensures
        match r {
            Some((k, v)) => {
                &&& base <= k
                &&& req <= k
                &&& (k as nat) < (base as nat) + pow2(d as nat)
                &&& node_lookup(*n, d as nat, k - base) == Some(*v)
                &&& v.key
                &&& forall|k2: int|
                    base <= k2 < (base as nat) + pow2(d as nat) && k2 >= req && ((
                    #[trigger] node_lookup(*n, d as nat, k2 - base)) matches Some(e) && e.key)
                        ==> k2 >= k
            },
            None => forall|k2: int|
                base <= k2 < (base as nat) + pow2(d as nat) && k2 >= req ==> !((
                #[trigger] node_lookup(*n, d as nat, k2 - base)) matches Some(e) && e.key),
        },
    decreases d,
{
    proof {
        lemma_pow2_pos(d as nat);
        lemma2_to64();
        lemma2_to64_rest();
    }
    let aug = node_aug_exec(n);
    if !aug.key {
        proof {
            lemma_aug_key(*n, d as nat);
        }
        return None;
    }
    match n {
        KbNode::Entry(v) => {
            proof {
                assert(d == 0);
                assert(pow2(0) == 1);
                assert(node_lookup(*n, 0, 0) == Some(*v));
                assert(v.key);
            }
            if base >= req {
                Some((base, v))
            } else {
                None
            }
        },
        KbNode::Fork(_, l, r) => {
            let half: u32 = 1u32 << ((d - 1) as u32);
            proof {
                lemma_u32_pow2_no_overflow((d - 1) as nat);
                lemma_u32_shl_is_mul(1u32, (d - 1) as u32);
                lemma_pow2_unfold(d as nat);
            }
            let ghost halfi = pow2((d - 1) as nat) as int;
            proof {
                assert forall|k2: int|
                    base <= k2 < (base as nat) + pow2(d as nat) implies #[trigger] node_lookup(
                    *n,
                    d as nat,
                    k2 - base,
                ) == (if k2 - base < halfi {
                    opt_lookup(*l, (d - 1) as nat, k2 - base)
                } else {
                    opt_lookup(*r, (d - 1) as nat, k2 - base - halfi)
                }) by {};
            }
            proof {
                match r {
                    Some(rn) => {
                        assert forall|k2: int|
                            (base as nat) + halfi <= k2 < (base as nat) + pow2(d as nat) implies
                            #[trigger] node_lookup(*n, d as nat, k2 - base) == node_lookup(
                            **rn,
                            (d - 1) as nat,
                            k2 - ((base + half) as int),
                        ) by {};
                    },
                    None => {},
                }
            }
            let lres = match l {
                Some(ln) => next_in(&**ln, d - 1, base, req),
                None => None,
            };
            match lres {
                Some((k, v)) => {
                    proof {
                        assert forall|k2: int|
                            base <= k2 < (base as nat) + pow2(d as nat) && k2 >= req && ((
                            #[trigger] node_lookup(*n, d as nat, k2 - base)) matches Some(e)
                            && e.key) implies k2 >= k by {
                            if k2 - base >= halfi {
                                assert(k2 >= (base as nat) + halfi);
                            }
                        };
                    }
                    Some((k, v))
                },
                None => {
                    let rres = match r {
                        Some(rn) => next_in(&**rn, d - 1, base + half, req),
                        None => None,
                    };
                    rres
                },
            }
        },
    }
}

impl OldMcBlocksInfo {
    /// What a "nearest key block at or before `req`" answer means: the
    /// reference of the key block with the greatest sequence number not
    /// above `req`, or nothing when no key block lies there.
    pub open spec fn prev_key_ok(self, req: int, res: Option<ExtBlkRef>) -> bool {
        match res {
            Some(b) => exists|k: int|
                0 <= k <= req && #[trigger] self.is_key_at(k) && (self.entry(k) matches Some(e)
                    && e.blk_ref == b) && (forall|k2: int| k < k2 <= req ==> !self.is_key_at(k2)),
            None => forall|k: int| 0 <= k <= req ==> !self.is_key_at(k),
        }
    }

    /// What a "nearest key block at or after `req`" answer means, the
    /// mirror of [`Self::prev_key_ok`].
    pub open spec fn next_key_ok(self, req: int, res: Option<ExtBlkRef>) -> bool {
        match res {
            Some(b) => exists|k: int|
                req <= k < 0x1_0000_0000 && #[trigger] self.is_key_at(k) && (self.entry(k)
                    matches Some(e) && e.blk_ref == b) && (forall|k2: int|
                    req <= k2 < k ==> !self.is_key_at(k2)),
            None => forall|k: int| req <= k < 0x1_0000_0000 ==> !self.is_key_at(k),
        }
    }

    /// The key block with the greatest sequence number at most `req_seqno`,
    /// found by an aggregate-pruned descent rather than a scan.
    pub fn get_prev_key_block(&self, req_seqno: u32) -> (r: Result<Option<ExtBlkRef>, BlockError>)
        ensures
            r matches Ok(res) && self.prev_key_ok(req_seqno as int, res),
    {
        proof {
            use_type_invariant(self);
            lemma2_to64();
            lemma2_to64_rest();
        }
        match &self.root {
            None => Ok(None),
            Some(n) => {
                match prev_in(&**n, 32, 0, req_seqno) {
                    None => {
                        proof {
                            assert forall|k2: int| 0 <= k2 <= req_seqno implies !self.is_key_at(
                                k2,
                            ) by {
                                assert(node_lookup(**n, 32, k2 - 0) == node_lookup(**n, 32, k2));
                            };
                        }
                        Ok(None)
                    },
                    Some((k, v)) => {
                        proof {
                            assert(self.is_key_at(k as int));
                            assert forall|k2: int| k < k2 <= req_seqno implies !self.is_key_at(
                                k2,
                            ) by {
                                assert(node_lookup(**n, 32, k2 - 0) == node_lookup(**n, 32, k2));
                            };
                        }
                        Ok(Some(v.blk_ref))
                    },
                }
            },
        }
    }

    /// The key block with the least sequence number at least `req_seqno`,
    /// the mirror of [`Self::get_prev_key_block`].
    pub fn get_next_key_block(&self, req_seqno: u32) -> (r: Result<Option<ExtBlkRef>, BlockError>)
        ensures
            r matches Ok(res) && self.next_key_ok(req_seqno as int, res),
    {
        proof {
            use_type_invariant(self);
            lemma2_to64();
            lemma2_to64_rest();
        }
        match &self.root {
            None => Ok(None),
            Some(n) => {
                match next_in(&**n, 32, 0, req_seqno) {
                    None => {
                        proof {
                            assert forall|k2: int|
                                req_seqno <= k2 < 0x1_0000_0000 implies !self.is_key_at(k2) by {
                                assert(node_lookup(**n, 32, k2 - 0) == node_lookup(**n, 32, k2));
                            };
                        }
                        Ok(None)
                    },
                    Some((k, v)) => {
                        proof {
                            assert(self.is_key_at(k as int));
                            assert forall|k2: int| req_seqno <= k2 < k implies !self.is_key_at(
                                k2,
                            ) by {
                                assert(node_lookup(**n, 32, k2 - 0) == node_lookup(**n, 32, k2));
                            };
                        }
                        Ok(Some(v.blk_ref))
                    },
                }
            },
        }
    }

    /// Checks that a masterchain block is indexed with the given hashes;
    /// see [`Self::check_key_block`].
    pub fn check_block(&self, id: &BlockIdExt) -> (r: Result<(), BlockError>)
        ensures
            r == self.check_spec(*id, None::<bool>),
    {
        self.check_key_block(id, None)
    }

    /// What checking a block against the index returns for every input.
    pub open spec fn check_spec(self, id: BlockIdExt, is_key_opt: Option<bool>) -> Result<
        (),
        BlockError,
    > {
        if id.shard_id.wc_spec() != crate::shard::MASTERCHAIN_ID {
            Err(BlockError::InvalidData)
        } else {
            match self.entry(id.seq_no as int) {
                None => Err(BlockError::BlockNotFound { seq_no: id.seq_no }),
                Some(e) => if e.blk_ref.root_hash != id.root_hash {
                    Err(BlockError::RootHashMismatch)
                } else if e.blk_ref.file_hash != id.file_hash {
                    Err(BlockError::FileHashMismatch)
                } else {
                    match is_key_opt {
                        Some(expect) => if expect != e.key {
                            Err(BlockError::KeyFlagMismatch)
                        } else {
                            Ok(())
                        },
                        None => Ok(()),
                    }
                },
            }
        }
    }

    /// Looks a block up by sequence number and compares its hashes and,
    /// when asked, its key-block flag; fails naming the first mismatch.
    pub fn check_key_block(&self, id: &BlockIdExt, is_key_opt: Option<bool>) -> (r: Result<
        (),
        BlockError,
    >)
        ensures
            r == self.check_spec(*id, is_key_opt),
    {
        if !id.shard().is_masterchain() {
            return Err(BlockError::InvalidData);
        }
        let found = match self.get(id.seq_no()) {
            None => {
                return Err(BlockError::BlockNotFound { seq_no: id.seq_no });
            },
            Some(e) => e,
        };
        if found.blk_ref.root_hash != id.root_hash {
            return Err(BlockError::RootHashMismatch);
        }
        if found.blk_ref.file_hash != id.file_hash {
            return Err(BlockError::FileHashMismatch);
        }
        match is_key_opt {
            Some(expect) => {
                if expect != found.key {
                    Err(BlockError::KeyFlagMismatch)
                } else {
                    Ok(())
                }
            },
            None => Ok(()),
        }
    }
}


/// The indexed entries under a node, smallest key first.
spec fn node_entries(n: KbNode, d: nat, base: int) -> Seq<(u32, KeyExtBlkRef)>
    decreases n,
{
    match n {
        KbNode::Entry(v) => seq![((base as u32), v)],
        KbNode::Fork(_, l, r) => {
            let half = pow2((d - 1) as nat) as int;
            (match l {
                Some(ln) => node_entries(*ln, (d - 1) as nat, base),
                None => Seq::<(u32, KeyExtBlkRef)>::empty(),
            }) + (match r {
                Some(rn) => node_entries(*rn, (d - 1) as nat, base + half),
                None => Seq::<(u32, KeyExtBlkRef)>::empty(),
            })
        },
    }
}

fn collect_entries(n: &KbNode, d: usize, base: u32, out: &mut Vec<(u32, KeyExtBlkRef)>)
    requires
        d <= 32,
        node_wf(*n, d as nat),
        (base as nat) + pow2(d as nat) <= 0x1_0000_0000,
    ensures
        final(out)@ == old(out)@ + node_entries(*n, d as nat, base as int),
    decreases d,
{
    proof {
        lemma2_to64();
        lemma2_to64_rest();
        lemma_pow2_pos(d as nat);
    }
    match n {
        KbNode::Entry(v) => {
            out.push((base, *v));
            proof {
                assert(final(out)@ =~= old(out)@ + node_entries(*n, d as nat, base as int));
            }
        },
        KbNode::Fork(_, l, r) => {
            let half: u32 = 1u32 << ((d - 1) as u32);
            proof {
                lemma_u32_pow2_no_overflow((d - 1) as nat);
                lemma_u32_shl_is_mul(1u32, (d - 1) as u32);
                lemma_pow2_unfold(d as nat);
            }
            match l {
                Some(ln) => {
                    collect_entries(&**ln, d - 1, base, out);
                },
                None => {},
            }
            match r {
                Some(rn) => {
                    collect_entries(&**rn, d - 1, base + half, out);
                },
                None => {},
            }
            proof {
                assert(final(out)@ =~= old(out)@ + node_entries(*n, d as nat, base as int));
            }
        },
    }
}

/// The encodings of an entry list, in order.
pub open spec fn kb_entries_bits(s: Seq<(u32, KeyExtBlkRef)>) -> Seq<bool>
    decreases s.len(),
{
    if s.len() == 0 {
        Seq::<bool>::empty()
    } else {
        uint_bits(s[0].0 as u64, 32) + s[0].1.enc_bits() + kb_entries_bits(s.skip(1))
    }
}

proof fn lemma_kb_entries_push(s: Seq<(u32, KeyExtBlkRef)>, k: u32, v: KeyExtBlkRef)
    ensures
        kb_entries_bits(s.push((k, v))) == kb_entries_bits(s) + uint_bits(k as u64, 32)
            + v.enc_bits(),
    decreases s.len(),
{
    if s.len() == 0 {
        assert(kb_entries_bits(Seq::<(u32, KeyExtBlkRef)>::empty()) == Seq::<bool>::empty());
        assert(s.push((k, v))[0] == (k, v));
        assert(s.push((k, v)).skip(1) =~= Seq::<(u32, KeyExtBlkRef)>::empty());
        assert(kb_entries_bits(s.push((k, v))) =~= kb_entries_bits(s) + uint_bits(k as u64, 32)
            + v.enc_bits());
    } else {
        lemma_kb_entries_push(s.skip(1), k, v);
        assert(s.push((k, v)).skip(1) =~= s.skip(1).push((k, v)));
        assert(s.push((k, v))[0] == s[0]);
        assert(kb_entries_bits(s.push((k, v))) =~= kb_entries_bits(s) + uint_bits(k as u64, 32)
            + v.enc_bits());
    }
}

impl OldMcBlocksInfo {
    /// The indexed entries, smallest sequence number first.
    pub closed spec fn entries_seq(self) -> Seq<(u32, KeyExtBlkRef)> {
        match self.root {
            Some(n) => node_entries(*n, 32, 0),
            None => Seq::<(u32, KeyExtBlkRef)>::empty(),
        }
    }

    /// The indexed entries, smallest sequence number first.
    pub fn entries_vec(&self) -> (r: Vec<(u32, KeyExtBlkRef)>)
        ensures
            r@ == self.entries_seq(),
    {
        proof {
            use_type_invariant(self);
            lemma2_to64();
            lemma2_to64_rest();
        }
        let mut out: Vec<(u32, KeyExtBlkRef)> = Vec::new();
        match &self.root {
            Some(n) => {
                collect_entries(&**n, 32, 0, &mut out);
            },
            None => {},
        }
        proof {
            assert(out@ =~= self.entries_seq());
        }
        out
    }

    /// The wire form: the entry count, then each sequence number and
    /// entry, smallest first.
    pub open spec fn enc_bits(self) -> Seq<bool> {
        uint_bits(self.entries_seq().len() as u64, 32) + kb_entries_bits(self.entries_seq())
    }

    /// Writes the index as its entry list; succeeds exactly when the count
    /// fits its field.
    pub fn write_to(&self, b: &mut BuilderData) -> (r: Result<(), BlockError>)
        ensures
            r.is_ok() <==> self.entries_seq().len() < 0x1_0000_0000,
            r.is_ok() ==> final(b).bits_spec() == old(b).bits_spec() + self.enc_bits() && final(b).refs_spec() == old(b).refs_spec(),
    {
        proof {
            lemma2_to64();
            lemma2_to64_rest();
        }
        let entries = self.entries_vec();
        if (entries.len() as u64) >= 0x1_0000_0000u64 {
            return Err(BlockError::IntOverflow);
        }
        b.append_bits(entries.len() as u64, 32);
        let ghost es = self.entries_seq();
        let mut i: usize = 0;
        while i < entries.len()
            invariant
                i <= es.len(),
                entries@ == es,
                es == self.entries_seq(),
                es.len() < 0x1_0000_0000,
                b.bits_spec() =~= old(b).bits_spec() + uint_bits(es.len() as u64, 32)
                    + kb_entries_bits(es.take(i as int)),
                b.refs_spec() == old(b).refs_spec(),
            decreases es.len() - i,
        {
            let (k, v) = &entries[i];
            proof {
                lemma2_to64();
                lemma2_to64_rest();
            }
            b.append_bits(*k as u64, 32);
            let _ = v.write_to(b);
            proof {
                lemma_kb_entries_push(es.take(i as int), *k, *v);
                assert(es.take(i as int).push((*k, *v)) =~= es.take(i as int + 1));
            }
            i = i + 1;
        }
        proof {
            assert(es.take(es.len() as int) =~= es);
            assert(final(b).bits_spec() =~= old(b).bits_spec() + self.enc_bits());
        }
        Ok(())
    }

    /// Reads an index back from its entry list; every listed entry is
    /// stored under its sequence number, each consuming exactly its 641
    /// bits after the 32-bit count, and the index holds an entry at every
    /// sequence number the stream lists.
    pub fn read_from(s: &mut SliceData) -> (r: Result<OldMcBlocksInfo, BlockError>)
        ensures
            match r {
                Ok(x) => {
                    let n = bits_val(old(s).rem_bits().take(32)) as int;
                    &&& old(s).rem_bits().len() >= 32 + 641 * n
                    &&& final(s).rem_bits() == old(s).rem_bits().skip(32 + 641 * n)
                    &&& final(s).rem_refs() == old(s).rem_refs()
                    &&& forall|j: int| 0 <= j < n ==> (#[trigger] x.entry(
                        bits_val(old(s).rem_bits().skip(32 + 641 * j).take(32)) as int,
                    )) is Some
                },
                Err(e) => e == BlockError::CellUnderflow,
            },
            old(s).rem_bits().len() >= 32 + 641 * (bits_val(old(s).rem_bits().take(32)) as int)
                ==> r.is_ok(),
    {
        proof {
            lemma2_to64();
            lemma2_to64_rest();
        }
        let ghost rem0 = s.rem_bits();
        let n = s.get_next_int(32)?;
        let mut x = OldMcBlocksInfo::new();
        let mut i: u64 = 0;
        while i < n
            invariant
                i <= n,
                rem0 == old(s).rem_bits(),
                n as nat == bits_val(rem0.take(32)),
                rem0.len() >= 32 + 641 * (i as int),
                s.rem_bits() == rem0.skip(32 + 641 * (i as int)),
                s.rem_refs() == old(s).rem_refs(),
                rem0.len() >= 32 + 641 * (n as int) ==> s.rem_bits().len() >= 641 * ((n
                    - i) as int),
                forall|j: int| 0 <= j < i ==> (#[trigger] x.entry(
                    bits_val(rem0.skip(32 + 641 * j).take(32)) as int,
                )) is Some,
            decreases n - i,
        {
            proof {
                lemma2_to64();
                lemma2_to64_rest();
            }
            let ghost cur = s.rem_bits();
            let k = s.get_next_int(32)?;
            let v = KeyExtBlkRef::read_from(s)?;
            x.set(k as u32, v);
            proof {
                assert(s.rem_bits() =~= rem0.skip(32 + 641 * (i as int + 1)));
                assert(cur == rem0.skip(32 + 641 * (i as int)));
                assert(x.entry(bits_val(cur.take(32)) as int) is Some);
            }
            i = i + 1;
        }
        Ok(x)
    }
}

} // verus!
