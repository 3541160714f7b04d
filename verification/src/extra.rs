//! The masterchain block and state extensions: per-shard fee totals,
//! signatures, referenced shard blocks, shared libraries, and the
//! whole-block and whole-state records that tie the topology, the key-block
//! index and the statistics together.

use vstd::prelude::*;
use vstd::arithmetic::power2::{lemma2_to64, lemma2_to64_rest};

use crate::bintree::BinTree;
use crate::cells::{bits_val, uint_bits, lemma_read_exact, lemma_take_step, lemma_app_step, BuilderData, SliceData, Cell, CellData};
use crate::descr::{copy_vec, wc_word_exec, i32_of_word, ConnectedNwDescr, ConnectedNwDescrExt, ShardDescr, ValidatorsStat};
use crate::error::BlockError;
use crate::shard::{ShardIdent, ShardIdentFull};
use crate::types::{BlockIdExt, ExtBlkRef, UInt256, CurrencyCollection};

verus! {

broadcast use vstd::seq::group_seq_axioms;

/// Identity and configuration of the validator set's current epoch.
#[derive(Clone, Copy, Debug, Default, PartialEq, Eq, Structural, Hash)]
pub struct ValidatorInfo {
    pub validator_list_hash_short: u32,
    pub catchain_seqno: u32,
    pub nx_cc_updated: bool,
}

impl ValidatorInfo {
    /// The 65-bit wire form.
    pub open spec fn enc_bits(self) -> Seq<bool> {
        uint_bits(self.validator_list_hash_short as u64, 32) + uint_bits(
            self.catchain_seqno as u64,
            32,
        ) + seq![self.nx_cc_updated]
    }

    /// Writes the info.
    pub fn write_to(&self, b: &mut BuilderData) -> (r: Result<(), BlockError>)
        ensures
            r.is_ok(),
            final(b).bits_spec() == old(b).bits_spec() + self.enc_bits(),
            final(b).refs_spec() == old(b).refs_spec(),
    {
        proof {
            lemma2_to64();
        }
        b.append_bits(self.validator_list_hash_short as u64, 32);
        b.append_bits(self.catchain_seqno as u64, 32);
        b.append_bit(self.nx_cc_updated);
        proof {
            assert(final(b).bits_spec() =~= old(b).bits_spec() + self.enc_bits());
        }
        Ok(())
    }

    /// Equal encodings come from equal infos.
    pub proof fn lemma_enc_injective(a: ValidatorInfo, b: ValidatorInfo)
        requires
            a.enc_bits() == b.enc_bits(),
        ensures
            a == b,
    {
        lemma2_to64();
        assert(a.enc_bits() =~= uint_bits(a.validator_list_hash_short as u64, 32) + (uint_bits(
            a.catchain_seqno as u64,
            32,
        ) + seq![a.nx_cc_updated]));
        assert(b.enc_bits() =~= uint_bits(b.validator_list_hash_short as u64, 32) + (uint_bits(
            b.catchain_seqno as u64,
            32,
        ) + seq![b.nx_cc_updated]));
        crate::cells::lemma_uint_head(
            a.validator_list_hash_short as u64,
            b.validator_list_hash_short as u64,
            32,
            uint_bits(a.catchain_seqno as u64, 32) + seq![a.nx_cc_updated],
            uint_bits(b.catchain_seqno as u64, 32) + seq![b.nx_cc_updated],
        );
        crate::cells::lemma_uint_head(
            a.catchain_seqno as u64,
            b.catchain_seqno as u64,
            32,
            seq![a.nx_cc_updated],
            seq![b.nx_cc_updated],
        );
        assert(seq![a.nx_cc_updated][0] == seq![b.nx_cc_updated][0]);
    }

    /// Reads an info record; consumes exactly its 65 bits on success, and
    /// a stream that begins with any info's encoding yields exactly it.
    pub fn read_from(s: &mut SliceData) -> (r: Result<ValidatorInfo, BlockError>)
        ensures
            match r {
                Ok(x) => {
                    &&& old(s).rem_bits() == x.enc_bits() + final(s).rem_bits()
                    &&& final(s).rem_refs() == old(s).rem_refs()
                },
                Err(e) => e == BlockError::CellUnderflow,
            },
            forall|v: ValidatorInfo|
                (#[trigger] v.enc_bits()).is_prefix_of(old(s).rem_bits()) ==> r == Ok::<
                    ValidatorInfo,
                    BlockError,
                >(v),
    {
        proof {
            lemma2_to64();
        }
        let ghost rem0 = s.rem_bits();
        let h = s.get_next_int(32)?;
        let ghost rem1 = s.rem_bits();
        let c = s.get_next_int(32)?;
        let ghost rem2 = s.rem_bits();
        let n = s.get_next_bit()?;
        let x = ValidatorInfo {
            validator_list_hash_short: h as u32,
            catchain_seqno: c as u32,
            nx_cc_updated: n,
        };
        proof {
            lemma_read_exact(rem0, 32, h);
            lemma_read_exact(rem1, 32, c);
            assert(rem0 =~= rem0.take(32) + (rem1.take(32) + (seq![rem2[0]] + final(s).rem_bits())));
            assert(rem0 =~= x.enc_bits() + final(s).rem_bits());
            assert forall|v: ValidatorInfo| (#[trigger] v.enc_bits()).is_prefix_of(rem0)
                implies v == x by {
                assert(v.enc_bits().len() == 65);
                assert(v.enc_bits() =~= rem0.take(65));
                assert(x.enc_bits() =~= rem0.take(65));
                Self::lemma_enc_injective(v, x);
            };
        }
        Ok(x)
    }
}

/// Global configuration: the configuration contract's address and the
/// parameter dictionary it holds, carried as an opaque cell.
#[derive(Debug)]
pub struct ConfigParams {
    pub config_addr: UInt256,
    pub params: Cell,
}

impl Clone for ConfigParams {
    /// A copy with the same address and parameter content.
    fn clone(&self) -> (r: Self)
        ensures
            r.config_addr == self.config_addr,
            r.params@ == self.params@,
    {
        ConfigParams { config_addr: self.config_addr, params: self.params.clone() }
    }
}

impl ConfigParams {
    /// The inline wire form: the contract address; the parameters go into
    /// a child cell.
    pub open spec fn enc_bits(self) -> Seq<bool> {
        self.config_addr.enc_bits()
    }

    /// The single child cell: the parameter dictionary.
    pub open spec fn enc_refs(self) -> Seq<CellData> {
        seq![self.params@]
    }

    /// Writes the configuration.
    pub fn write_to(&self, b: &mut BuilderData) -> (r: Result<(), BlockError>)
        ensures
            r.is_ok(),
            final(b).bits_spec() == old(b).bits_spec() + self.enc_bits(),
            final(b).refs_spec() == old(b).refs_spec() + self.enc_refs(),
    {
        let _ = self.config_addr.write_to(b);
        b.append_reference(self.params.clone());
        proof {
            assert(final(b).refs_spec() =~= old(b).refs_spec() + self.enc_refs());
        }
        Ok(())
    }

    /// Reads a configuration; consumes exactly its bits and child cell,
    /// and succeeds whenever the address and one child cell are present.
    pub fn read_from(s: &mut SliceData) -> (r: Result<ConfigParams, BlockError>)
        ensures
            match r {
                Ok(x) => {
                    &&& old(s).rem_bits() == x.enc_bits() + final(s).rem_bits()
                    &&& old(s).rem_refs() == x.enc_refs() + final(s).rem_refs()
                },
                Err(e) => e == BlockError::CellUnderflow,
            },
            old(s).rem_bits().len() >= 256 && old(s).rem_refs().len() >= 1 ==> r.is_ok(),
    {
        let ghost rem0 = s.rem_bits();
        let config_addr = UInt256::read_from(s)?;
        let params = match s.checked_drain_reference() {
            Ok(c) => c,
            Err(e) => {
                return Err(e);
            },
        };
        let x = ConfigParams { config_addr, params };
        proof {
            assert(rem0 =~= rem0.take(256) + final(s).rem_bits());
            assert(old(s).rem_refs() =~= x.enc_refs() + final(s).rem_refs());
        }
        Ok(x)
    }
}

/// One validator's signature over a block: its short id and the signature
/// halves.
#[derive(Clone, Copy, Debug, Default, PartialEq, Eq, Structural, Hash)]
pub struct CryptoSignaturePair {
    pub node_id_short: UInt256,
    pub sign_r: UInt256,
    pub sign_s: UInt256,
}

impl CryptoSignaturePair {
    /// The 768-bit wire form.
    pub open spec fn enc_bits(self) -> Seq<bool> {
        self.node_id_short.enc_bits() + self.sign_r.enc_bits() + self.sign_s.enc_bits()
    }

    /// Writes the pair.
    pub fn write_to(&self, b: &mut BuilderData) -> (r: Result<(), BlockError>)
        ensures
            r.is_ok(),
            final(b).bits_spec() == old(b).bits_spec() + self.enc_bits(),
            final(b).refs_spec() == old(b).refs_spec(),
    {
        let _ = self.node_id_short.write_to(b);
        let _ = self.sign_r.write_to(b);
        let _ = self.sign_s.write_to(b);
        proof {
            assert(final(b).bits_spec() =~= old(b).bits_spec() + self.enc_bits());
        }
        Ok(())
    }

    /// Equal encodings come from equal pairs.
    pub proof fn lemma_enc_injective(a: CryptoSignaturePair, b: CryptoSignaturePair)
        requires
            a.enc_bits() == b.enc_bits(),
        ensures
            a == b,
    {
        assert(a.node_id_short.enc_bits() =~= a.enc_bits().take(256));
        assert(b.node_id_short.enc_bits() =~= b.enc_bits().take(256));
        UInt256::lemma_enc_injective(a.node_id_short, b.node_id_short);
        assert(a.sign_r.enc_bits() =~= a.enc_bits().skip(256).take(256));
        assert(b.sign_r.enc_bits() =~= b.enc_bits().skip(256).take(256));
        UInt256::lemma_enc_injective(a.sign_r, b.sign_r);
        assert(a.sign_s.enc_bits() =~= a.enc_bits().skip(512));
        assert(b.sign_s.enc_bits() =~= b.enc_bits().skip(512));
        UInt256::lemma_enc_injective(a.sign_s, b.sign_s);
    }

    /// Reads a pair; consumes exactly its 768 bits on success, and a
    /// stream that begins with any pair's encoding yields exactly it.
    pub fn read_from(s: &mut SliceData) -> (r: Result<CryptoSignaturePair, BlockError>)
        ensures
            match r {
                Ok(x) => {
                    &&& old(s).rem_bits() == x.enc_bits() + final(s).rem_bits()
                    &&& final(s).rem_refs() == old(s).rem_refs()
                },
                Err(e) => e == BlockError::CellUnderflow,
            },
            forall|v: CryptoSignaturePair|
                (#[trigger] v.enc_bits()).is_prefix_of(old(s).rem_bits()) ==> r == Ok::<
                    CryptoSignaturePair,
                    BlockError,
                >(v),
    {
        let ghost rem0 = s.rem_bits();
        let node_id_short = UInt256::read_from(s)?;
        let ghost rem1 = s.rem_bits();
        let sign_r = UInt256::read_from(s)?;
        let ghost rem2 = s.rem_bits();
        let sign_s = UInt256::read_from(s)?;
        let x = CryptoSignaturePair { node_id_short, sign_r, sign_s };
        proof {
            assert(rem0 =~= rem0.take(256) + (rem1.take(256) + (rem2.take(256) + final(s).rem_bits())));
            assert(rem0 =~= x.enc_bits() + final(s).rem_bits());
            assert forall|v: CryptoSignaturePair| (#[trigger] v.enc_bits()).is_prefix_of(rem0)
                implies v == x by {
                assert(v.enc_bits().len() == 768);
                assert(v.enc_bits() =~= rem0.take(768));
                assert(x.enc_bits() =~= rem0.take(768));
                Self::lemma_enc_injective(v, x);
            };
        }
        Ok(x)
    }
}

/// Signatures over the previous block, keyed by validator index, in
/// insertion order.
#[derive(Debug)]
pub struct CryptoSignatures {
    entries: Vec<(u16, CryptoSignaturePair)>,
}

impl View for CryptoSignatures {
    type V = Seq<(u16, CryptoSignaturePair)>;

    closed spec fn view(&self) -> Seq<(u16, CryptoSignaturePair)> {
        self.entries@
    }
}

impl Clone for CryptoSignatures {
    /// A copy with the same entries.
    fn clone(&self) -> (r: Self)
        ensures
            r@ == self@,
    {
        CryptoSignatures { entries: copy_vec(&self.entries) }
    }
}

impl Default for CryptoSignatures {
    /// No signatures.
    fn default() -> (r: Self)
        ensures
            r@ == Seq::<(u16, CryptoSignaturePair)>::empty(),
    {
        CryptoSignatures { entries: Vec::new() }
    }
}

impl CryptoSignatures {
    /// Whether no signature is held.
    pub fn is_empty(&self) -> (r: bool)
        ensures
            r == (self@.len() == 0),
    {
        self.entries.len() == 0
    }

    /// Appends one validator's signature.
    pub fn push(&mut self, validator: u16, pair: CryptoSignaturePair)
        ensures
            final(self)@ == old(self)@.push((validator, pair)),
    {
        self.entries.push((validator, pair));
    }

    /// The signatures in order.
    pub fn entries(&self) -> (r: &Vec<(u16, CryptoSignaturePair)>)
        ensures
            r@ == self@,
    {
        &self.entries
    }
}

/// The latest known blocks of connected networks, keyed by network id, in
/// insertion order.
#[derive(Debug)]
pub struct MeshHashes {
    entries: Vec<(i32, ConnectedNwDescr)>,
}

impl View for MeshHashes {
    type V = Seq<(i32, ConnectedNwDescr)>;

    closed spec fn view(&self) -> Seq<(i32, ConnectedNwDescr)> {
        self.entries@
    }
}

impl Clone for MeshHashes {
    /// A copy with the same entries.
    fn clone(&self) -> (r: Self)
        ensures
            r@ == self@,
    {
        MeshHashes { entries: copy_vec(&self.entries) }
    }
}

impl Default for MeshHashes {
    /// No connected networks.
    fn default() -> (r: Self)
        ensures
            r@ == Seq::<(i32, ConnectedNwDescr)>::empty(),
    {
        MeshHashes { entries: Vec::new() }
    }
}

impl MeshHashes {
    /// Whether no network is listed.
    pub fn is_empty(&self) -> (r: bool)
        ensures
            r == (self@.len() == 0),
    {
        self.entries.len() == 0
    }

    /// Appends one network's descriptor.
    pub fn push(&mut self, network_id: i32, descr: ConnectedNwDescr)
        ensures
            final(self)@ == old(self)@.push((network_id, descr)),
    {
        self.entries.push((network_id, descr));
    }

    /// The descriptors in order.
    pub fn entries(&self) -> (r: &Vec<(i32, ConnectedNwDescr)>)
        ensures
            r@ == self@,
    {
        &self.entries
    }
}

/// The extended connected-network records of a block, keyed by network id.
#[derive(Debug)]
pub struct MeshHashesExt {
    entries: Vec<(i32, ConnectedNwDescrExt)>,
}

impl View for MeshHashesExt {
    type V = Seq<(i32, ConnectedNwDescrExt)>;

    closed spec fn view(&self) -> Seq<(i32, ConnectedNwDescrExt)> {
        self.entries@
    }
}

impl Clone for MeshHashesExt {
    /// A copy with the same entries.
    fn clone(&self) -> (r: Self)
        ensures
            r@ == self@,
    {
        MeshHashesExt { entries: copy_vec(&self.entries) }
    }
}

impl Default for MeshHashesExt {
    /// No connected networks.
    fn default() -> (r: Self)
        ensures
            r@ == Seq::<(i32, ConnectedNwDescrExt)>::empty(),
    {
        MeshHashesExt { entries: Vec::new() }
    }
}

impl MeshHashesExt {
    /// Whether no network is listed.
    pub fn is_empty(&self) -> (r: bool)
        ensures
            r == (self@.len() == 0),
    {
        self.entries.len() == 0
    }

    /// Appends one network's extended record.
    pub fn push(&mut self, network_id: i32, descr: ConnectedNwDescrExt)
        ensures
            final(self)@ == old(self)@.push((network_id, descr)),
    {
        self.entries.push((network_id, descr));
    }

    /// The records in order.
    pub fn entries(&self) -> (r: &Vec<(i32, ConnectedNwDescrExt)>)
        ensures
            r@ == self@,
    {
        &self.entries
    }
}

/// Copyleft reward messages of a block, each carried as an opaque message
/// cell, in order.
#[derive(Debug)]
pub struct CopyleftMessages {
    cells: Vec<Cell>,
}

impl CopyleftMessages {
    /// The message contents in order.
    pub closed spec fn view_spec(self) -> Seq<CellData> {
        Seq::new(self.cells@.len(), |i: int| self.cells@[i]@)
    }

    /// No messages.
    pub fn new() -> (r: CopyleftMessages)
        ensures
            r.view_spec() == Seq::<CellData>::empty(),
    {
        let r = CopyleftMessages { cells: Vec::new() };
        proof {
            assert(r.view_spec() =~= Seq::<CellData>::empty());
        }
        r
    }

    /// Whether no message is held.
    pub fn is_empty(&self) -> (r: bool)
        ensures
            r == (self.view_spec().len() == 0),
    {
        self.cells.len() == 0
    }

    /// How many messages are held.
    pub fn len(&self) -> (r: usize)
        ensures
            r == self.view_spec().len(),
    {
        self.cells.len()
    }

    /// Appends one message cell.
    pub fn push(&mut self, msg: Cell)
        ensures
            final(self).view_spec() == old(self).view_spec().push(msg@),
    {
        self.cells.push(msg);
        proof {
            assert(final(self).view_spec() =~= old(self).view_spec().push(msg@));
        }
    }

    /// The message at a position.
    pub fn get(&self, i: usize) -> (r: Option<&Cell>)
        ensures
            match r {
                Some(c) => i < self.view_spec().len() && c@ == self.view_spec()[i as int],
                None => i >= self.view_spec().len(),
            },
    {
        if i < self.cells.len() {
            Some(&self.cells[i])
        } else {
            None
        }
    }
}

/// A shard's contribution to the fee ledger: collected fees and created
/// funds.
#[derive(Clone, Copy, Debug, Default, PartialEq, Eq, Structural, Hash)]
pub struct ShardFeeCreated {
    pub fees: CurrencyCollection,
    pub create: CurrencyCollection,
}

impl ShardFeeCreated {
    /// A contribution of the given fees and no created funds.
    pub fn with_fee(fees: CurrencyCollection) -> (r: ShardFeeCreated)
        ensures
            r.fees == fees,
            r.create.grams == 0,
    {
        ShardFeeCreated { fees, create: CurrencyCollection { grams: 0 } }
    }

    /// Folds another contribution into this one; fails on overflow of
    /// either total with this value unchanged.
    pub fn calc(&mut self, other: &ShardFeeCreated) -> (r: Result<bool, BlockError>)
        ensures
            match r {
                Ok(_) => {
                    &&& old(self).fees.grams + other.fees.grams <= u64::MAX
                    &&& old(self).create.grams + other.create.grams <= u64::MAX
                    &&& final(self).fees.grams == old(self).fees.grams + other.fees.grams
                    &&& final(self).create.grams == old(self).create.grams + other.create.grams
                },
                Err(e) => e == BlockError::IntOverflow && (old(self).fees.grams + other.fees.grams
                    > u64::MAX || old(self).create.grams + other.create.grams > u64::MAX),
            },
    {
        if self.fees.grams > u64::MAX - other.fees.grams {
            return Err(BlockError::IntOverflow);
        }
        if self.create.grams > u64::MAX - other.create.grams {
            return Err(BlockError::IntOverflow);
        }
        self.fees.grams = self.fees.grams + other.fees.grams;
        self.create.grams = self.create.grams + other.create.grams;
        Ok(true)
    }

    /// This value is its own aggregate.
    pub fn aug(&self) -> (r: Result<ShardFeeCreated, BlockError>)
        ensures
            r == Result::<ShardFeeCreated, BlockError>::Ok(*self),
    {
        Ok(*self)
    }

    /// The wire form: both totals.
    pub open spec fn enc_bits(self) -> Seq<bool> {
        self.fees.enc_bits() + self.create.enc_bits()
    }

    /// Writes the contribution.
    pub fn write_to(&self, b: &mut BuilderData) -> (r: Result<(), BlockError>)
        ensures
            r.is_ok(),
            final(b).bits_spec() == old(b).bits_spec() + self.enc_bits(),
            final(b).refs_spec() == old(b).refs_spec(),
    {
        let _ = self.fees.write_to(b);
        let _ = self.create.write_to(b);
        proof {
            assert(final(b).bits_spec() =~= old(b).bits_spec() + self.enc_bits());
        }
        Ok(())
    }

    /// Reads a contribution; consumes exactly its encoding on success.
    pub fn read_from(s: &mut SliceData) -> (r: Result<ShardFeeCreated, BlockError>)
        ensures
            match r {
                Ok(x) => {
                    &&& old(s).rem_bits() == x.enc_bits() + final(s).rem_bits()
                    &&& final(s).rem_refs() == old(s).rem_refs()
                },
                Err(e) => e == BlockError::CellUnderflow || e == BlockError::InvalidData,
            },
            forall|v: ShardFeeCreated|
                (#[trigger] v.enc_bits()).is_prefix_of(old(s).rem_bits()) ==> r == Ok::<
                    ShardFeeCreated,
                    BlockError,
                >(v),
    {
        let ghost rem0 = s.rem_bits();
        proof {
            assert forall|v: ShardFeeCreated| #[trigger] v.enc_bits().is_prefix_of(rem0)
                implies v.fees.enc_bits().is_prefix_of(rem0) by {
                assert(v.enc_bits() =~= v.fees.enc_bits() + v.create.enc_bits());
                crate::cells::lemma_prefix_parts(v.fees.enc_bits(), v.create.enc_bits(), rem0);
            };
        }
        let fees = CurrencyCollection::read_from(s)?;
        let ghost rem1 = s.rem_bits();
        proof {
            assert forall|v: ShardFeeCreated| #[trigger] v.enc_bits().is_prefix_of(rem0)
                implies v.fees == fees && v.create.enc_bits().is_prefix_of(rem1) by {
                assert(v.enc_bits() =~= v.fees.enc_bits() + v.create.enc_bits());
                crate::cells::lemma_prefix_parts(v.fees.enc_bits(), v.create.enc_bits(), rem0);
                assert(rem1 == rem0.skip(fees.enc_bits().len() as int));
            };
        }
        let create = CurrencyCollection::read_from(s)?;
        let x = ShardFeeCreated { fees, create };
        proof {
            assert forall|v: ShardFeeCreated| (#[trigger] v.enc_bits()).is_prefix_of(rem0)
                implies v == x by {};
        }
        proof {
            assert(rem0 =~= rem0.take(fees.enc_bits().len() as int) + rem1);
            assert(rem1 =~= rem1.take(create.enc_bits().len() as int) + final(s).rem_bits());
            lemma_take_step(rem0, fees.enc_bits(), rem1, create.enc_bits(), final(s).rem_bits());
        }
        Ok(x)
    }
}

/// The first position of the ledger keyed by the given shard, or `-1`.
pub open spec fn fee_index(s: Seq<(ShardIdentFull, ShardFeeCreated)>, id: ShardIdentFull) -> int
    decreases s.len(),
{
    if s.len() == 0 {
        -1
    } else if s[0].0 == id {
        0
    } else {
        let sub = fee_index(s.skip(1), id);
        if sub == -1 {
            -1
        } else {
            sub + 1
        }
    }
}

/// `fee_index` returns `-1` or the first position carrying the shard.
pub proof fn lemma_fee_index(s: Seq<(ShardIdentFull, ShardFeeCreated)>, id: ShardIdentFull)
    ensures
        fee_index(s, id) == -1 || (0 <= fee_index(s, id) < s.len() && s[fee_index(s, id)].0 == id),
        forall|j: int| 0 <= j < fee_index(s, id) ==> (#[trigger] s[j]).0 != id,
        fee_index(s, id) == -1 ==> forall|j: int| 0 <= j < s.len() ==> (#[trigger] s[j]).0 != id,
    decreases s.len(),
{
    if s.len() > 0 && s[0].0 != id {
        lemma_fee_index(s.skip(1), id);
        assert forall|j: int| 0 <= j < fee_index(s, id) implies (#[trigger] s[j]).0 != id by {
            if j > 0 {
                assert(s.skip(1)[j - 1] == s[j]);
            }
        };
        if fee_index(s, id) == -1 {
            assert forall|j: int| 0 <= j < s.len() implies (#[trigger] s[j]).0 != id by {
                if j > 0 {
                    assert(s.skip(1)[j - 1] == s[j]);
                }
            };
        }
    }
}

/// The mathematical sum of all collected fees in a ledger.
pub open spec fn fees_sum(s: Seq<(ShardIdentFull, ShardFeeCreated)>) -> int
    decreases s.len(),
{
    if s.len() == 0 {
        0
    } else {
        fees_sum(s.drop_last()) + s.last().1.fees.grams
    }
}

/// The mathematical sum of all created funds in a ledger.
pub open spec fn create_sum(s: Seq<(ShardIdentFull, ShardFeeCreated)>) -> int
    decreases s.len(),
{
    if s.len() == 0 {
        0
    } else {
        create_sum(s.drop_last()) + s.last().1.create.grams
    }
}

/// The per-shard fee ledger: at most one contribution per shard, plus the
/// aggregate of everything stored.
#[derive(Debug)]
pub struct ShardFees {
    entries: Vec<(ShardIdentFull, ShardFeeCreated)>,
    root: ShardFeeCreated,
}

impl View for ShardFees {
    type V = Seq<(ShardIdentFull, ShardFeeCreated)>;

    closed spec fn view(&self) -> Seq<(ShardIdentFull, ShardFeeCreated)> {
        self.entries@
    }
}

impl Clone for ShardFees {
    /// A copy with the same entries and aggregate.
    fn clone(&self) -> (r: Self)
        ensures
            r@ == self@,
            r.root_spec() == self.root_spec(),
    {
        ShardFees { entries: copy_vec(&self.entries), root: self.root }
    }
}

impl Default for ShardFees {
    /// The empty ledger.
    fn default() -> (r: Self)
        ensures
            r@ == Seq::<(ShardIdentFull, ShardFeeCreated)>::empty(),
            r.root_spec().fees.grams == 0,
            r.root_spec().create.grams == 0,
    {
        ShardFees {
            entries: Vec::new(),
            root: ShardFeeCreated {
                fees: CurrencyCollection { grams: 0 },
                create: CurrencyCollection { grams: 0 },
            },
        }
    }
}

impl ShardFees {
    /// The aggregate of every stored contribution.
    pub closed spec fn root_spec(self) -> ShardFeeCreated {
        self.root
    }

    /// The ledger after storing one shard's contribution: the first entry
    /// keyed by the shard is replaced, or a new entry is appended.
    pub open spec fn stored(
        s: Seq<(ShardIdentFull, ShardFeeCreated)>,
        id: ShardIdentFull,
        fee: ShardFeeCreated,
    ) -> Seq<(ShardIdentFull, ShardFeeCreated)> {
        let i = fee_index(s, id);
        if i >= 0 {
            s.update(i, (id, fee))
        } else {
            s.push((id, fee))
        }
    }

    /// The aggregate of every stored contribution.
    pub fn root_extra(&self) -> (r: &ShardFeeCreated)
        ensures
            r == self.root_spec(),
    {
        &self.root
    }

    /// Stores one shard's contribution, replacing any entry already keyed
    /// by that shard, and recomputes the aggregate as the sum of every
    /// entry. Fails with the ledger unchanged exactly when either sum
    /// would overflow.
    pub fn set(&mut self, id: ShardIdentFull, fee: ShardFeeCreated) -> (r: Result<(), BlockError>)
        ensures
            ({
                let stored = ShardFees::stored(old(self)@, id, fee);
                match r {
                    Ok(_) => {
                        &&& final(self)@ == stored
                        &&& fees_sum(stored) <= u64::MAX && create_sum(stored) <= u64::MAX
                        &&& final(self).root_spec().fees.grams == fees_sum(stored)
                        &&& final(self).root_spec().create.grams == create_sum(stored)
                    },
                    Err(e) => {
                        &&& e == BlockError::IntOverflow
                        &&& final(self)@ == old(self)@
                        &&& final(self).root_spec() == old(self).root_spec()
                        &&& (fees_sum(stored) > u64::MAX || create_sum(stored) > u64::MAX)
                    },
                }
            }),
    {
        proof {
            lemma_fee_index(self@, id);
        }
        let ghost stored = ShardFees::stored(self@, id, fee);
        let idx = fee_find(&self.entries, id);
        // place the contribution
        let mut entries = copy_vec(&self.entries);
        match idx {
            Some(i) => {
                entries.set(i, (id, fee));
            },
            None => {
                entries.push((id, fee));
            },
        }
        proof {
            assert(entries@ == stored);
        }
        // recompute the aggregate over the whole ledger
        let mut fees_total: u64 = 0;
        let mut create_total: u64 = 0;
        let mut j: usize = 0;
        while j < entries.len()
            invariant
                j <= entries@.len(),
                entries@ == stored,
                stored == ShardFees::stored(old(self)@, id, fee),
                self@ == old(self)@,
                self.root_spec() == old(self).root_spec(),
                fees_total == fees_sum(stored.take(j as int)),
                create_total == create_sum(stored.take(j as int)),
            decreases entries@.len() - j,
        {
            let (_, v) = &entries[j];
            proof {
                assert(stored.take(j as int + 1).drop_last() =~= stored.take(j as int));
                assert(stored.take(j as int + 1).last() == stored[j as int]);
            }
            if fees_total > u64::MAX - v.fees.grams {
                proof {
                    assert(fees_sum(stored.take(j as int + 1)) == fees_sum(stored.take(j as int))
                        + stored[j as int].1.fees.grams);
                    assert(fees_sum(stored.take(j as int + 1)) > u64::MAX);
                    lemma_sum_prefix_bound(stored, j as int + 1);
                    assert(fees_sum(stored) > u64::MAX);
                }
                return Err(BlockError::IntOverflow);
            }
            fees_total = fees_total + v.fees.grams;
            if create_total > u64::MAX - v.create.grams {
                proof {
                    assert(create_sum(stored.take(j as int + 1)) == create_sum(
                        stored.take(j as int),
                    ) + stored[j as int].1.create.grams);
                    assert(create_sum(stored.take(j as int + 1)) > u64::MAX);
                    lemma_sum_prefix_bound(stored, j as int + 1);
                    assert(create_sum(stored) > u64::MAX);
                }
                return Err(BlockError::IntOverflow);
            }
            create_total = create_total + v.create.grams;
            j = j + 1;
        }
        proof {
            assert(stored.take(stored.len() as int) =~= stored);
        }
        self.entries = entries;
        self.root = ShardFeeCreated {
            fees: CurrencyCollection { grams: fees_total },
            create: CurrencyCollection { grams: create_total },
        };
        Ok(())
    }

    /// Records a shard's collected fees and created funds under its
    /// identifier, replacing any earlier record for that shard; see
    /// [`Self::set`].
    pub fn store_shard_fees(
        &mut self,
        shard: &ShardIdent,
        fees: CurrencyCollection,
        created: CurrencyCollection,
    ) -> (r: Result<(), BlockError>)
        ensures
            ({
                let id = ShardIdentFull {
                    workchain_id: shard.wc_spec(),
                    prefix: shard.tagged_spec(),
                };
                let fee = ShardFeeCreated { fees, create: created };
                let stored = ShardFees::stored(old(self)@, id, fee);
                match r {
                    Ok(_) => {
                        &&& final(self)@ == stored
                        &&& final(self).root_spec().fees.grams == fees_sum(stored)
                        &&& final(self).root_spec().create.grams == create_sum(stored)
                    },
                    Err(e) => {
                        &&& e == BlockError::IntOverflow
                        &&& final(self)@ == old(self)@
                        &&& final(self).root_spec() == old(self).root_spec()
                        &&& (fees_sum(stored) > u64::MAX || create_sum(stored) > u64::MAX)
                    },
                }
            }),
    {
        let id = ShardIdentFull {
            workchain_id: shard.workchain_id(),
            prefix: shard.shard_prefix_with_tag(),
        };
        let fee = ShardFeeCreated { fees, create: created };
        self.set(id, fee)
    }

    /// The contributions in order.
    pub fn entries(&self) -> (r: &Vec<(ShardIdentFull, ShardFeeCreated)>)
        ensures
            r@ == self@,
    {
        &self.entries
    }
}

/// Finds the first position of the ledger keyed by the given shard.
fn fee_find(entries: &Vec<(ShardIdentFull, ShardFeeCreated)>, id: ShardIdentFull) -> (r: Option<
    usize,
>)
    ensures
        match r {
            Some(i) => 0 <= i < entries@.len() && i == fee_index(entries@, id),
            None => fee_index(entries@, id) == -1,
        },
{
    proof {
        lemma_fee_index(entries@, id);
    }
    let mut i: usize = 0;
    while i < entries.len()
        invariant
            i <= entries@.len(),
            forall|j: int| 0 <= j < i ==> (#[trigger] entries@[j]).0 != id,
        decreases entries@.len() - i,
    {
        let (k, _) = &entries[i];
        if *k == id {
            proof {
                lemma_fee_index_at(entries@, id, i as int);
            }
            return Some(i);
        }
        i = i + 1;
    }
    None
}

/// A position whose shard matches, with none before it, is the one
/// `fee_index` names.
proof fn lemma_fee_index_at(s: Seq<(ShardIdentFull, ShardFeeCreated)>, id: ShardIdentFull, i: int)
    requires
        0 <= i < s.len(),
        s[i].0 == id,
        forall|j: int| 0 <= j < i ==> (#[trigger] s[j]).0 != id,
    ensures
        fee_index(s, id) == i,
    decreases s.len(),
{
    if i > 0 {
        assert(s[0].0 != id);
        assert forall|j: int| 0 <= j < i - 1 implies (#[trigger] s.skip(1)[j]).0 != id by {
            assert(s.skip(1)[j] == s[j + 1]);
        };
        assert(s.skip(1)[i - 1] == s[i]);
        lemma_fee_index_at(s.skip(1), id, i - 1);
    }
}

/// A sum that overflows on a prefix overflows on the whole ledger.
proof fn lemma_sum_prefix_bound(s: Seq<(ShardIdentFull, ShardFeeCreated)>, n: int)
    requires
        0 <= n <= s.len(),
    ensures
        fees_sum(s) >= fees_sum(s.take(n)),
        create_sum(s) >= create_sum(s.take(n)),
    decreases s.len() - n,
{
    if n < s.len() {
        assert(s.take(n + 1).drop_last() =~= s.take(n));
        assert(s.take(n + 1).last() == s[n]);
        lemma_sum_prefix_bound(s, n + 1);
        assert(fees_sum(s.take(n + 1)) >= fees_sum(s.take(n)));
    } else {
        assert(s.take(n) =~= s);
    }
}

/// The master-block back reference carried by every shard block.
#[derive(Clone, Copy, Debug, Default, PartialEq, Eq, Structural, Hash)]
pub struct BlkMasterInfo {
    pub master: ExtBlkRef,
}

impl BlkMasterInfo {
    /// The 608-bit wire form.
    pub open spec fn enc_bits(self) -> Seq<bool> {
        self.master.enc_bits()
    }

    /// Writes the reference.
    pub fn write_to(&self, b: &mut BuilderData) -> (r: Result<(), BlockError>)
        ensures
            r.is_ok(),
            final(b).bits_spec() == old(b).bits_spec() + self.enc_bits(),
            final(b).refs_spec() == old(b).refs_spec(),
    {
        self.master.write_to(b)
    }

    /// Reads a reference; consumes exactly its encoding on success, and a
    /// stream that begins with any reference's encoding yields exactly it.
    pub fn read_from(s: &mut SliceData) -> (r: Result<BlkMasterInfo, BlockError>)
        ensures
            match r {
                Ok(x) => {
                    &&& old(s).rem_bits() == x.enc_bits() + final(s).rem_bits()
                    &&& final(s).rem_refs() == old(s).rem_refs()
                },
                Err(e) => e == BlockError::CellUnderflow,
            },
            forall|v: BlkMasterInfo|
                (#[trigger] v.enc_bits()).is_prefix_of(old(s).rem_bits()) ==> r == Ok::<
                    BlkMasterInfo,
                    BlockError,
                >(v),
    {
        let ghost rem0 = s.rem_bits();
        let master = ExtBlkRef::read_from(s)?;
        let x = BlkMasterInfo { master };
        proof {
            assert(rem0 =~= rem0.take(608) + final(s).rem_bits());
            assert forall|v: BlkMasterInfo| (#[trigger] v.enc_bits()).is_prefix_of(rem0)
                implies v == x by {
                assert(v.enc_bits().len() == 608);
                assert(v.enc_bits() =~= rem0.take(608));
                assert(x.enc_bits() =~= rem0.take(608));
                ExtBlkRef::lemma_enc_injective(v.master, x.master);
            };
        }
        Ok(x)
    }
}

/// A reference to a shard block: its sequence number, hashes, and end
/// logical time.
#[derive(Clone, Copy, Debug, Default, PartialEq, Eq, Structural, Hash)]
pub struct ShardBlockRef {
    pub seq_no: u32,
    pub root_hash: UInt256,
    pub file_hash: UInt256,
    pub end_lt: u64,
}

impl ShardBlockRef {
    /// The reference of a block identifier with its end logical time.
    pub fn with_params(block_id: &BlockIdExt, end_lt: u64) -> (r: ShardBlockRef)
        ensures
            r.seq_no == block_id.seq_no,
            r.root_hash == block_id.root_hash,
            r.file_hash == block_id.file_hash,
            r.end_lt == end_lt,
    {
        ShardBlockRef {
            seq_no: block_id.seq_no,
            root_hash: block_id.root_hash,
            file_hash: block_id.file_hash,
            end_lt,
        }
    }

    /// The full block identifier of this reference within a shard.
    pub fn into_block_id(self, shard_id: ShardIdent) -> (r: Result<BlockIdExt, BlockError>)
        ensures
            match r {
                Ok(id) => {
                    &&& id.shard_id == shard_id
                    &&& id.seq_no == self.seq_no
                    &&& id.root_hash == self.root_hash
                    &&& id.file_hash == self.file_hash
                },
                Err(_) => false,
            },
    {
        Ok(
            BlockIdExt {
                shard_id,
                seq_no: self.seq_no,
                root_hash: self.root_hash,
                file_hash: self.file_hash,
            },
        )
    }

    /// The 608-bit wire form.
    pub open spec fn enc_bits(self) -> Seq<bool> {
        uint_bits(self.seq_no as u64, 32) + self.root_hash.enc_bits() + self.file_hash.enc_bits()
            + uint_bits(self.end_lt, 64)
    }

    /// Writes the reference.
    pub fn write_to(&self, b: &mut BuilderData) -> (r: Result<(), BlockError>)
        ensures
            r.is_ok(),
            final(b).bits_spec() == old(b).bits_spec() + self.enc_bits(),
            final(b).refs_spec() == old(b).refs_spec(),
    {
        proof {
            lemma2_to64();
            lemma2_to64_rest();
        }
        b.append_bits(self.seq_no as u64, 32);
        let _ = self.root_hash.write_to(b);
        let _ = self.file_hash.write_to(b);
        b.append_bits(self.end_lt, 64);
        proof {
            assert(final(b).bits_spec() =~= old(b).bits_spec() + self.enc_bits());
        }
        Ok(())
    }

    /// Equal encodings come from equal references.
    pub proof fn lemma_enc_injective(a: ShardBlockRef, b: ShardBlockRef)
        requires
            a.enc_bits() == b.enc_bits(),
        ensures
            a == b,
    {
        lemma2_to64();
        lemma2_to64_rest();
        assert(uint_bits(a.seq_no as u64, 32) =~= a.enc_bits().take(32));
        assert(uint_bits(b.seq_no as u64, 32) =~= b.enc_bits().take(32));
        crate::cells::lemma_uint_bits_val(a.seq_no as u64, 32);
        crate::cells::lemma_uint_bits_val(b.seq_no as u64, 32);
        assert(a.root_hash.enc_bits() =~= a.enc_bits().skip(32).take(256));
        assert(b.root_hash.enc_bits() =~= b.enc_bits().skip(32).take(256));
        UInt256::lemma_enc_injective(a.root_hash, b.root_hash);
        assert(a.file_hash.enc_bits() =~= a.enc_bits().skip(288).take(256));
        assert(b.file_hash.enc_bits() =~= b.enc_bits().skip(288).take(256));
        UInt256::lemma_enc_injective(a.file_hash, b.file_hash);
        assert(uint_bits(a.end_lt, 64) =~= a.enc_bits().skip(544));
        assert(uint_bits(b.end_lt, 64) =~= b.enc_bits().skip(544));
        crate::cells::lemma_uint_bits_val(a.end_lt, 64);
        crate::cells::lemma_uint_bits_val(b.end_lt, 64);
    }

    /// Reads a reference; consumes exactly its encoding on success, and a
    /// stream that begins with any reference's encoding yields exactly it.
    pub fn construct_from(s: &mut SliceData) -> (r: Result<ShardBlockRef, BlockError>)
        ensures
            match r {
                Ok(x) => {
                    &&& old(s).rem_bits() == x.enc_bits() + final(s).rem_bits()
                    &&& final(s).rem_refs() == old(s).rem_refs()
                },
                Err(e) => e == BlockError::CellUnderflow,
            },
            forall|v: ShardBlockRef|
                (#[trigger] v.enc_bits()).is_prefix_of(old(s).rem_bits()) ==> r == Ok::<
                    ShardBlockRef,
                    BlockError,
                >(v),
    {
        proof {
            lemma2_to64();
            lemma2_to64_rest();
        }
        let ghost rem0 = s.rem_bits();
        let seq_no = s.get_next_int(32)?;
        let ghost rem1 = s.rem_bits();
        let root_hash = UInt256::read_from(s)?;
        let ghost rem2 = s.rem_bits();
        let file_hash = UInt256::read_from(s)?;
        let ghost rem3 = s.rem_bits();
        let end_lt = s.get_next_int(64)?;
        let x = ShardBlockRef { seq_no: seq_no as u32, root_hash, file_hash, end_lt };
        proof {
            lemma_read_exact(rem0, 32, seq_no);
            lemma_read_exact(rem3, 64, end_lt);
            assert(rem0 =~= rem0.take(32) + (rem1.take(256) + (rem2.take(256) + (rem3.take(64)
                + final(s).rem_bits()))));
            assert(rem0 =~= x.enc_bits() + final(s).rem_bits());
            assert forall|v: ShardBlockRef| (#[trigger] v.enc_bits()).is_prefix_of(rem0)
                implies v == x by {
                assert(v.enc_bits().len() == 608);
                assert(v.enc_bits() =~= rem0.take(608));
                assert(x.enc_bits() =~= rem0.take(608));
                Self::lemma_enc_injective(v, x);
            };
        }
        Ok(x)
    }
}

/// The accounts that published a shared library, in insertion order.
#[derive(Debug)]
pub struct Publishers {
    entries: Vec<UInt256>,
}

impl View for Publishers {
    type V = Seq<UInt256>;

    closed spec fn view(&self) -> Seq<UInt256> {
        self.entries@
    }
}

impl Clone for Publishers {
    /// A copy with the same entries.
    fn clone(&self) -> (r: Self)
        ensures
            r@ == self@,
    {
        Publishers { entries: copy_vec(&self.entries) }
    }
}

impl Default for Publishers {
    /// No publishers.
    fn default() -> (r: Self)
        ensures
            r@ == Seq::<UInt256>::empty(),
    {
        Publishers { entries: Vec::new() }
    }
}

impl Publishers {
    /// Whether no publisher is recorded.
    pub fn is_empty(&self) -> (r: bool)
        ensures
            r == (self@.len() == 0),
    {
        self.entries.len() == 0
    }

    /// Records one publisher.
    pub fn set(&mut self, publisher: UInt256)
        ensures
            final(self)@ == old(self)@.push(publisher),
    {
        self.entries.push(publisher);
    }

    /// The publishers in order.
    pub fn entries(&self) -> (r: &Vec<UInt256>)
        ensures
            r@ == self@,
    {
        &self.entries
    }
}

/// A shared library: its code cell and the accounts that published it.
#[derive(Debug)]
pub struct LibDescr {
    lib: Cell,
    publishers: Publishers,
}

impl LibDescr {
    /// The library's content.
    pub closed spec fn lib_spec(self) -> CellData {
        self.lib@
    }

    /// The publishers.
    pub closed spec fn publishers_spec(self) -> Seq<UInt256> {
        self.publishers@
    }

    /// A library nobody has published yet.
    pub fn new(lib: Cell) -> (r: LibDescr)
        ensures
            r.lib_spec() == lib@,
            r.publishers_spec() == Seq::<UInt256>::empty(),
    {
        LibDescr { lib, publishers: Publishers::default() }
    }

    /// A library with its first publisher.
    pub fn from_lib_data_by_publisher(lib: Cell, publisher: UInt256) -> (r: LibDescr)
        ensures
            r.lib_spec() == lib@,
            r.publishers_spec() == Seq::<UInt256>::empty().push(publisher),
    {
        let mut publishers = Publishers::default();
        publishers.set(publisher);
        LibDescr { lib, publishers }
    }

    /// The publishers.
    pub fn publishers(&self) -> (r: &Publishers)
        ensures
            r@ == self.publishers_spec(),
    {
        &self.publishers
    }

    /// The publishers, for change.
    pub fn publishers_mut(&mut self) -> (r: &mut Publishers)
        ensures
            r@ == old(self).publishers_spec(),
            final(self).publishers_spec() == final(r)@,
            final(self).lib_spec() == old(self).lib_spec(),
    {
        &mut self.publishers
    }

    /// The library's code cell.
    pub fn lib(&self) -> (r: &Cell)
        ensures
            r@ == self.lib_spec(),
    {
        &self.lib
    }
}

} // verus!

verus! {

/// The first position holding the given workchain, or `-1`.
pub open spec fn rsb_index(s: Seq<(i32, BinTree<ShardBlockRef>)>, wc: i32) -> int
    decreases s.len(),
{
    if s.len() == 0 {
        -1
    } else if s[0].0 == wc {
        0
    } else {
        let sub = rsb_index(s.skip(1), wc);
        if sub == -1 {
            -1
        } else {
            sub + 1
        }
    }
}

proof fn lemma_rsb_index(s: Seq<(i32, BinTree<ShardBlockRef>)>, wc: i32)
    ensures
        rsb_index(s, wc) == -1 || (0 <= rsb_index(s, wc) < s.len() && s[rsb_index(s, wc)].0 == wc),
        forall|j: int| 0 <= j < rsb_index(s, wc) ==> (#[trigger] s[j]).0 != wc,
        rsb_index(s, wc) == -1 ==> forall|j: int| 0 <= j < s.len() ==> (#[trigger] s[j]).0 != wc,
    decreases s.len(),
{
    if s.len() > 0 && s[0].0 != wc {
        lemma_rsb_index(s.skip(1), wc);
        assert forall|j: int| 0 <= j < rsb_index(s, wc) implies (#[trigger] s[j]).0 != wc by {
            if j > 0 {
                assert(s.skip(1)[j - 1] == s[j]);
            }
        };
        if rsb_index(s, wc) == -1 {
            assert forall|j: int| 0 <= j < s.len() implies (#[trigger] s[j]).0 != wc by {
                if j > 0 {
                    assert(s.skip(1)[j - 1] == s[j]);
                }
            };
        }
    }
}

proof fn lemma_rsb_index_at(s: Seq<(i32, BinTree<ShardBlockRef>)>, wc: i32, i: int)
    requires
        0 <= i < s.len(),
        s[i].0 == wc,
        forall|j: int| 0 <= j < i ==> (#[trigger] s[j]).0 != wc,
    ensures
        rsb_index(s, wc) == i,
    decreases s.len(),
{
    if i > 0 {
        assert(s[0].0 != wc);
        assert forall|j: int| 0 <= j < i - 1 implies (#[trigger] s.skip(1)[j]).0 != wc by {
            assert(s.skip(1)[j] == s[j + 1]);
        };
        assert(s.skip(1)[i - 1] == s[i]);
        lemma_rsb_index_at(s.skip(1), wc, i - 1);
    }
}

/// The latest referenced block of every shard: one binary trie of block
/// references per workchain.
#[derive(Debug)]
pub struct RefShardBlocks {
    entries: Vec<(i32, BinTree<ShardBlockRef>)>,
}

impl RefShardBlocks {
    /// The per-workchain tries in registration order.
    pub closed spec fn entries_spec(self) -> Seq<(i32, BinTree<ShardBlockRef>)> {
        self.entries@
    }

    /// The trie of a workchain, if present.
    pub open spec fn tree_of(self, wc: i32) -> Option<BinTree<ShardBlockRef>> {
        let i = rsb_index(self.entries_spec(), wc);
        if i >= 0 {
            Some(self.entries_spec()[i].1)
        } else {
            None
        }
    }

    /// The reference stored for a shard, if any.
    pub open spec fn ref_spec(self, wc: i32, key: Seq<bool>) -> Option<ShardBlockRef> {
        match self.tree_of(wc) {
            Some(t) => t.get_spec(key),
            None => None,
        }
    }

    /// An empty reference set.
    pub fn new() -> (r: RefShardBlocks)
        ensures
            r.entries_spec() == Seq::<(i32, BinTree<ShardBlockRef>)>::empty(),
    {
        RefShardBlocks { entries: Vec::new() }
    }

    fn find_wc(&self, workchain_id: i32) -> (r: Option<usize>)
        ensures
            match r {
                Some(i) => 0 <= i < self.entries_spec().len() && i == rsb_index(
                    self.entries_spec(),
                    workchain_id,
                ),
                None => rsb_index(self.entries_spec(), workchain_id) == -1,
            },
    {
        proof {
            lemma_rsb_index(self.entries_spec(), workchain_id);
        }
        let mut i: usize = 0;
        while i < self.entries.len()
            invariant
                i <= self.entries@.len(),
                forall|j: int| 0 <= j < i ==> (#[trigger] self.entries@[j]).0 != workchain_id,
            decreases self.entries@.len() - i,
        {
            let (wc, _) = &self.entries[i];
            if *wc == workchain_id {
                proof {
                    lemma_rsb_index_at(self.entries@, workchain_id, i as int);
                }
                return Some(i);
            }
            i = i + 1;
        }
        None
    }

    /// Builds the reference set of the given blocks: every block is planted
    /// at its shard's prefix in its workchain's trie, and is found
    /// afterwards under that prefix. Fails with the wrong-ids error exactly
    /// when two given shards of one workchain overlap (one's prefix
    /// extends the other's), which no trie can hold at once.
    pub fn with_ids(ids: &Vec<(BlockIdExt, u64)>) -> (r: Result<RefShardBlocks, BlockError>)
        ensures
            match r {
                Ok(x) => {
                    &&& forall|i: int|
                        0 <= i < ids@.len() ==> #[trigger] x.ref_spec(
                            ids@[i].0.shard_id.wc_spec(),
                            ids@[i].0.shard_id.key_bits(),
                        ) == Some(
                            ShardBlockRef {
                                seq_no: ids@[i].0.seq_no,
                                root_hash: ids@[i].0.root_hash,
                                file_hash: ids@[i].0.file_hash,
                                end_lt: ids@[i].1,
                            },
                        )
                    &&& forall|wc2: i32, k2: Seq<bool>|
                        (#[trigger] x.ref_spec(wc2, k2)) is Some ==> ((exists|i: int|
                            0 <= i < ids@.len() && (#[trigger] ids@[i]).0.shard_id.wc_spec() == wc2
                                && ids@[i].0.shard_id.key_bits() == k2 && x.ref_spec(wc2, k2)
                                == Some(
                                ShardBlockRef {
                                    seq_no: ids@[i].0.seq_no,
                                    root_hash: ids@[i].0.root_hash,
                                    file_hash: ids@[i].0.file_hash,
                                    end_lt: ids@[i].1,
                                },
                            )) || x.ref_spec(wc2, k2) == Some(
                            ShardBlockRef {
                                seq_no: 0,
                                root_hash: (UInt256 { w0: 0, w1: 0, w2: 0, w3: 0 }),
                                file_hash: (UInt256 { w0: 0, w1: 0, w2: 0, w3: 0 }),
                                end_lt: 0,
                            },
                        ))
                },
                Err(e) => e == BlockError::InvalidData && (exists|i: int, j: int|
                    0 <= i < j < ids@.len() && (#[trigger] ids@[i]).0.shard_id.wc_spec() == (
                    #[trigger] ids@[j]).0.shard_id.wc_spec() && crate::bintree::keys_overlap(
                        ids@[i].0.shard_id.key_bits(),
                        ids@[j].0.shard_id.key_bits(),
                    )),
            },
    {
        // reject overlapping shards of one workchain up front
        let mut a: usize = 0;
        while a < ids.len()
            invariant
                a <= ids@.len(),
                forall|i: int, j: int|
                    0 <= i < a && i < j < ids@.len() ==> !((#[trigger] ids@[i]).0.shard_id.wc_spec()
                        == (#[trigger] ids@[j]).0.shard_id.wc_spec()
                        && crate::bintree::keys_overlap(
                        ids@[i].0.shard_id.key_bits(),
                        ids@[j].0.shard_id.key_bits(),
                    )),
            decreases ids@.len() - a,
        {
            let mut b: usize = a + 1;
            while b < ids.len()
                invariant
                    a < ids@.len(),
                    a < b,
                    forall|j: int|
                        a < j < b ==> !((#[trigger] ids@[a as int]).0.shard_id.wc_spec() == ids@[
                            j].0.shard_id.wc_spec() && crate::bintree::keys_overlap(
                            ids@[a as int].0.shard_id.key_bits(),
                            ids@[j].0.shard_id.key_bits(),
                        )),
                decreases ids@.len() - b,
            {
                let sa = &ids[a].0.shard_id;
                let sb = &ids[b].0.shard_id;
                let clash = sa.is_ancestor_for(sb) || sb.is_ancestor_for(sa);
                proof {
                    Self::lemma_overlap_is_mutual_ancestry(*sa, *sb);
                }
                if clash {
                    return Err(BlockError::InvalidData);
                }
                b = b + 1;
            }
            a = a + 1;
        }
        let mut x = RefShardBlocks::new();
        let mut n: usize = 0;
        while n < ids.len()
            invariant
                n <= ids@.len(),
                forall|i: int|
                    0 <= i < n && (forall|j: int|
                        i < j < n && (#[trigger] ids@[j]).0.shard_id.wc_spec() == ids@[i].0.shard_id.wc_spec() ==> !crate::bintree::keys_overlap(
                            ids@[j].0.shard_id.key_bits(),
                            ids@[i].0.shard_id.key_bits(),
                        )) ==> #[trigger] x.ref_spec(
                        ids@[i].0.shard_id.wc_spec(),
                        ids@[i].0.shard_id.key_bits(),
                    ) == Some(
                        ShardBlockRef {
                            seq_no: ids@[i].0.seq_no,
                            root_hash: ids@[i].0.root_hash,
                            file_hash: ids@[i].0.file_hash,
                            end_lt: ids@[i].1,
                        },
                    ),
                forall|wc2: i32, k2: Seq<bool>|
                    (#[trigger] x.ref_spec(wc2, k2)) is Some ==> ((exists|i: int|
                        0 <= i < n && (#[trigger] ids@[i]).0.shard_id.wc_spec() == wc2 && ids@[
                            i].0.shard_id.key_bits() == k2 && x.ref_spec(wc2, k2) == Some(
                            ShardBlockRef {
                                seq_no: ids@[i].0.seq_no,
                                root_hash: ids@[i].0.root_hash,
                                file_hash: ids@[i].0.file_hash,
                                end_lt: ids@[i].1,
                            },
                        )) || x.ref_spec(wc2, k2) == Some(
                        ShardBlockRef {
                            seq_no: 0,
                            root_hash: (UInt256 { w0: 0, w1: 0, w2: 0, w3: 0 }),
                            file_hash: (UInt256 { w0: 0, w1: 0, w2: 0, w3: 0 }),
                            end_lt: 0,
                        },
                    )),
            decreases ids@.len() - n,
        {
            let (id, end_lt) = &ids[n];
            let value = ShardBlockRef::with_params(id, *end_lt);
            let wc = id.shard_id.workchain_id();
            let key = id.shard_id.shard_key();
            let filler = ShardBlockRef {
                seq_no: 0,
                root_hash: UInt256 { w0: 0, w1: 0, w2: 0, w3: 0 },
                file_hash: UInt256 { w0: 0, w1: 0, w2: 0, w3: 0 },
                end_lt: 0,
            };
            let ghost before = x;
            let i = match x.find_wc(wc) {
                Some(i) => {
                    proof {
                        lemma_rsb_index(x.entries@, wc);
                        assert(x.entries@[i as int].0 == wc as i32);
                    }
                    i
                },
                None => {
                    x.entries.push((wc, BinTree::Leaf(filler)));
                    proof {
                        lemma_rsb_index(before.entries_spec(), wc);
                        lemma_rsb_index_at(x.entries@, wc, before.entries_spec().len() as int);
                        assert forall|w2: i32| w2 != wc implies #[trigger] x.tree_of(w2)
                            == before.tree_of(w2) by {
                            lemma_rsb_index(before.entries_spec(), w2);
                            lemma_rsb_index(x.entries@, w2);
                            if rsb_index(before.entries_spec(), w2) >= 0 {
                                lemma_rsb_index_at(
                                    x.entries@,
                                    w2,
                                    rsb_index(before.entries_spec(), w2),
                                );
                            } else {
                                assert forall|j: int| 0 <= j < x.entries@.len() implies (
                                #[trigger] x.entries@[j]).0 != w2 by {
                                    if j < before.entries_spec().len() {
                                        assert(x.entries@[j] == before.entries_spec()[j]);
                                    }
                                };
                            }
                        };
                    }
                    proof {
                        assert forall|wc2: i32, k2: Seq<bool>|
                            (#[trigger] x.ref_spec(wc2, k2)) is Some implies ((exists|i2: int|
                            0 <= i2 < n && (#[trigger] ids@[i2]).0.shard_id.wc_spec() == wc2
                                && ids@[i2].0.shard_id.key_bits() == k2 && x.ref_spec(wc2, k2)
                                == Some(
                                ShardBlockRef {
                                    seq_no: ids@[i2].0.seq_no,
                                    root_hash: ids@[i2].0.root_hash,
                                    file_hash: ids@[i2].0.file_hash,
                                    end_lt: ids@[i2].1,
                                },
                            )) || x.ref_spec(wc2, k2) == Some(filler)) by {
                            if wc2 == wc as i32 {
                                assert(x.tree_of(wc2) == Some(
                                    BinTree::<ShardBlockRef>::Leaf(filler),
                                ));
                            } else {
                                assert(x.tree_of(wc2) == before.tree_of(wc2));
                                assert(x.ref_spec(wc2, k2) == before.ref_spec(wc2, k2));
                            }
                        };
                        assert(x.entries@[x.entries@.len() - 1].0 == wc as i32);
                    }
                    x.entries.len() - 1
                },
            };
            let ghost mid = x;
            proof {
                assert(mid.entries_spec()[i as int].0 == wc as i32);
                assert forall|j: int| 0 <= j < i implies (#[trigger] mid.entries_spec()[j]).0
                    != wc as i32 by {
                    lemma_rsb_index(before.entries_spec(), wc);
                };
                lemma_rsb_index_at(mid.entries_spec(), wc, i as int);
                assert forall|wc2: i32, k2: Seq<bool>|
                    (#[trigger] mid.ref_spec(wc2, k2)) is Some implies ((exists|i2: int|
                    0 <= i2 < n && (#[trigger] ids@[i2]).0.shard_id.wc_spec() == wc2 && ids@[
                        i2].0.shard_id.key_bits() == k2 && mid.ref_spec(wc2, k2) == Some(
                        ShardBlockRef {
                            seq_no: ids@[i2].0.seq_no,
                            root_hash: ids@[i2].0.root_hash,
                            file_hash: ids@[i2].0.file_hash,
                            end_lt: ids@[i2].1,
                        },
                    )) || mid.ref_spec(wc2, k2) == Some(filler)) by {};
            }
            let (_, tree) = x.entries.remove(i);
            let tree2 = tree.plant(&key, value, &filler);
            insert_entry(&mut x.entries, i, wc, tree2);
            proof {
                assert(x.entries@ =~= mid.entries_spec().update(i as int, (wc, tree2)));
                lemma_rsb_index(mid.entries_spec(), wc);
                assert forall|w2: i32| w2 != wc implies #[trigger] x.tree_of(w2) == mid.tree_of(
                    w2,
                ) by {
                    lemma_rsb_index(mid.entries_spec(), w2);
                    lemma_rsb_index(x.entries@, w2);
                    if rsb_index(mid.entries_spec(), w2) >= 0 {
                        lemma_rsb_index_at(x.entries@, w2, rsb_index(mid.entries_spec(), w2));
                    } else {
                        assert forall|j: int| 0 <= j < x.entries@.len() implies (
                        #[trigger] x.entries@[j]).0 != w2 by {
                            assert(mid.entries_spec()[j].0 == x.entries@[j].0);
                        };
                    }
                };
                lemma_rsb_index_at(x.entries@, wc, i as int);
                assert(x.tree_of(wc) == Some(tree2));
                assert forall|i2: int|
                    0 <= i2 < n + 1 && (forall|j: int|
                        i2 < j < n + 1 && (#[trigger] ids@[j]).0.shard_id.wc_spec() == ids@[i2].0.shard_id.wc_spec() ==> !crate::bintree::keys_overlap(
                            ids@[j].0.shard_id.key_bits(),
                            ids@[i2].0.shard_id.key_bits(),
                        )) implies #[trigger] x.ref_spec(
                    ids@[i2].0.shard_id.wc_spec(),
                    ids@[i2].0.shard_id.key_bits(),
                ) == Some(
                    ShardBlockRef {
                        seq_no: ids@[i2].0.seq_no,
                        root_hash: ids@[i2].0.root_hash,
                        file_hash: ids@[i2].0.file_hash,
                        end_lt: ids@[i2].1,
                    },
                ) by {
                    let wci = ids@[i2].0.shard_id.wc_spec();
                    let keyi = ids@[i2].0.shard_id.key_bits();
                    if i2 == n {
                        assert(wci == wc as i32);
                        assert(keyi == key@);
                        assert(tree2.get_spec(key@) == Some(value));
                    } else {
                        let expected = ShardBlockRef {
                            seq_no: ids@[i2].0.seq_no,
                            root_hash: ids@[i2].0.root_hash,
                            file_hash: ids@[i2].0.file_hash,
                            end_lt: ids@[i2].1,
                        };
                        assert(before.ref_spec(wci, keyi) == Some(expected)) by {
                            assert(forall|j: int|
                                i2 < j < n && (#[trigger] ids@[j]).0.shard_id.wc_spec() == wci
                                    ==> !crate::bintree::keys_overlap(
                                    ids@[j].0.shard_id.key_bits(),
                                    keyi,
                                ));
                        };
                        if wci == wc {
                            assert(mid.tree_of(wci) == before.tree_of(wci));
                            assert(!crate::bintree::keys_overlap(key@, keyi));
                            assert(x.ref_spec(wci, keyi) == Some(expected));
                        } else {
                            assert(x.tree_of(wci) == mid.tree_of(wci));
                            assert(mid.tree_of(wci) == before.tree_of(wci));
                        }
                    }
                };
                assert(mid.tree_of(wc as i32) == Some(tree));
                assert forall|wc2: i32, k2: Seq<bool>|
                    (#[trigger] x.ref_spec(wc2, k2)) is Some implies ((exists|i2: int|
                    0 <= i2 < n + 1 && (#[trigger] ids@[i2]).0.shard_id.wc_spec() == wc2 && ids@[
                        i2].0.shard_id.key_bits() == k2 && x.ref_spec(wc2, k2) == Some(
                        ShardBlockRef {
                            seq_no: ids@[i2].0.seq_no,
                            root_hash: ids@[i2].0.root_hash,
                            file_hash: ids@[i2].0.file_hash,
                            end_lt: ids@[i2].1,
                        },
                    )) || x.ref_spec(wc2, k2) == Some(filler)) by {
                    if wc2 == wc as i32 {
                        assert(x.ref_spec(wc2, k2) == tree2.get_spec(k2));
                        let v = tree2.get_spec(k2)->Some_0;
                        if k2 == key@ && v == value {
                            assert(ids@[n as int].0.shard_id.wc_spec() == wc2);
                            assert(ids@[n as int].0.shard_id.key_bits() == k2);
                        } else if tree.get_spec(k2) == Some(v) {
                            assert(mid.ref_spec(wc2, k2) == Some(v));
                        } else {
                            assert(v == filler);
                        }
                    } else {
                        assert(x.ref_spec(wc2, k2) == mid.ref_spec(wc2, k2));
                    }
                };
            }
            n = n + 1;
        }
        proof {
            assert forall|i: int| 0 <= i < ids@.len() implies #[trigger] x.ref_spec(
                ids@[i].0.shard_id.wc_spec(),
                ids@[i].0.shard_id.key_bits(),
            ) == Some(
                ShardBlockRef {
                    seq_no: ids@[i].0.seq_no,
                    root_hash: ids@[i].0.root_hash,
                    file_hash: ids@[i].0.file_hash,
                    end_lt: ids@[i].1,
                },
            ) by {
                assert(forall|j: int|
                    i < j < ids@.len() && (#[trigger] ids@[j]).0.shard_id.wc_spec() == ids@[
                        i].0.shard_id.wc_spec() ==> !crate::bintree::keys_overlap(
                        ids@[j].0.shard_id.key_bits(),
                        ids@[i].0.shard_id.key_bits(),
                    ));
            };
        }
        Ok(x)
    }

    /// Two shards of one workchain overlap exactly when one is the
    /// ancestor of the other.
    proof fn lemma_overlap_is_mutual_ancestry(a: ShardIdent, b: ShardIdent)
        ensures
            (a.wc_spec() == b.wc_spec() && crate::bintree::keys_overlap(
                a.key_bits(),
                b.key_bits(),
            )) <==> ((a.wc_spec() == b.wc_spec() && a.key_bits().len() <= b.key_bits().len()
                && a.key_bits() == b.key_bits().take(a.key_bits().len() as int)) || (b.wc_spec()
                == a.wc_spec() && b.key_bits().len() <= a.key_bits().len() && b.key_bits()
                == a.key_bits().take(b.key_bits().len() as int))),
    {
        let ka = a.key_bits();
        let kb = b.key_bits();
        if ka.is_prefix_of(kb) {
            assert(ka == kb.take(ka.len() as int)) by {
                assert(ka =~= kb.take(ka.len() as int));
            };
        }
        if kb.is_prefix_of(ka) {
            assert(kb == ka.take(kb.len() as int)) by {
                assert(kb =~= ka.take(kb.len() as int));
            };
        }
        if ka.len() <= kb.len() && ka == kb.take(ka.len() as int) {
            assert(ka.is_prefix_of(kb)) by {
                assert(ka =~= kb.take(ka.len() as int));
            };
        }
        if kb.len() <= ka.len() && kb == ka.take(kb.len() as int) {
            assert(kb.is_prefix_of(ka)) by {
                assert(kb =~= ka.take(kb.len() as int));
            };
        }
    }

    /// The reference stored for a shard, if any.
    pub fn ref_shard_block(&self, shard_ident: &ShardIdent) -> (r: Result<
        Option<ShardBlockRef>,
        BlockError,
    >)
        ensures
            r == Result::<Option<ShardBlockRef>, BlockError>::Ok(
                self.ref_spec(shard_ident.wc_spec(), shard_ident.key_bits()),
            ),
    {
        let i = match self.find_wc(shard_ident.workchain_id()) {
            Some(i) => i,
            None => {
                return Ok(None);
            },
        };
        let key = shard_ident.shard_key();
        let (_, tree) = &self.entries[i];
        match tree.get(&key) {
            Some(v) => Ok(Some(*v)),
            None => Ok(None),
        }
    }

    /// Every referenced block with its identifier and end logical time:
    /// workchains in insertion order, leaves in trie order.
    pub fn iterate_shard_block_refs(&self) -> (r: Result<Vec<(BlockIdExt, u64)>, BlockError>)
        ensures
            match r {
                Ok(out) => {
                    &&& out@.len() == rsb_flat(self.entries_spec()).len()
                    &&& forall|i: int|
                        0 <= i < out@.len() ==> {
                            let f = rsb_flat(self.entries_spec())[i];
                            &&& (#[trigger] out@[i]).0.shard_id.wc_spec() == f.0
                            &&& out@[i].0.shard_id.key_bits() == f.1
                            &&& out@[i].0.seq_no == f.2.seq_no
                            &&& out@[i].0.root_hash == f.2.root_hash
                            &&& out@[i].0.file_hash == f.2.file_hash
                            &&& out@[i].1 == f.2.end_lt
                        }
                },
                Err(e) => e == BlockError::InvalidArg && !rsb_keys_short(self.entries_spec()),
            },
    {
        let mut out: Vec<(BlockIdExt, u64)> = Vec::new();
        let mut w: usize = 0;
        while w < self.entries.len()
            invariant
                w <= self.entries@.len(),
                out@.len() == rsb_flat(self.entries_spec().take(w as int)).len(),
                forall|i: int|
                    0 <= i < out@.len() ==> {
                        let f = rsb_flat(self.entries_spec().take(w as int))[i];
                        &&& (#[trigger] out@[i]).0.shard_id.wc_spec() == f.0
                        &&& out@[i].0.shard_id.key_bits() == f.1
                        &&& out@[i].0.seq_no == f.2.seq_no
                        &&& out@[i].0.root_hash == f.2.root_hash
                        &&& out@[i].0.file_hash == f.2.file_hash
                        &&& out@[i].1 == f.2.end_lt
                    },
            decreases self.entries@.len() - w,
        {
            let (wc, tree) = &self.entries[w];
            let pairs = tree.leaves_vec();
            let ghost out_before = out@;
            let mut j: usize = 0;
            while j < pairs.len()
                invariant
                    j <= pairs@.len(),
                    w < self.entries@.len(),
                    pairs@.len() == self.entries_spec()[w as int].1.leaves().len(),
                    wc == self.entries_spec()[w as int].0,
                    forall|p: int|
                        0 <= p < pairs@.len() ==> (#[trigger] pairs@[p]).0@
                            == self.entries_spec()[w as int].1.leaves()[p].0 && *pairs@[p].1
                            == self.entries_spec()[w as int].1.leaves()[p].1,
                    out@.len() == out_before.len() + j,
                    forall|i: int| 0 <= i < out_before.len() ==> #[trigger] out@[i]
                        == out_before[i],
                    forall|p: int|
                        0 <= p < j ==> {
                            let lv = self.entries_spec()[w as int].1.leaves()[p];
                            &&& (#[trigger] out@[out_before.len() + p]).0.shard_id.wc_spec()
                                == self.entries_spec()[w as int].0
                            &&& out@[out_before.len() + p].0.shard_id.key_bits() == lv.0
                            &&& out@[out_before.len() + p].0.seq_no == lv.1.seq_no
                            &&& out@[out_before.len() + p].0.root_hash == lv.1.root_hash
                            &&& out@[out_before.len() + p].0.file_hash == lv.1.file_hash
                            &&& out@[out_before.len() + p].1 == lv.1.end_lt
                        },
                decreases pairs@.len() - j,
            {
                let (prefix, sbr) = &pairs[j];
                let ident = match ShardIdent::with_prefix_bits(*wc, prefix) {
                    Ok(ident) => ident,
                    Err(_) => {
                        proof {
                            crate::bintree::lemma_leaves_depth(self.entries_spec()[w as int].1);
                            assert(!rsb_keys_short(self.entries_spec())) by {
                                assert(self.entries_spec()[w as int].1.height()
                                    > crate::shard::MAX_SPLIT_DEPTH);
                            };
                        }
                        return Err(BlockError::InvalidArg);
                    },
                };
                let id = BlockIdExt {
                    shard_id: ident,
                    seq_no: sbr.seq_no,
                    root_hash: sbr.root_hash,
                    file_hash: sbr.file_hash,
                };
                out.push((id, sbr.end_lt));
                j = j + 1;
            }
            proof {
                let fl = rsb_flat(self.entries_spec().take(w as int + 1));
                let fl0 = rsb_flat(self.entries_spec().take(w as int));
                assert(self.entries_spec().take(w as int + 1).drop_last() =~= self.entries_spec().take(
                    w as int,
                ));
                assert(self.entries_spec().take(w as int + 1).last()
                    == self.entries_spec()[w as int]);
                let leaves = self.entries_spec()[w as int].1.leaves();
                let mapped = leaves.map_values(
                    |e: (Seq<bool>, ShardBlockRef)| (self.entries_spec()[w as int].0, e.0, e.1),
                );
                assert(fl == fl0 + mapped);
                assert forall|i: int| 0 <= i < out@.len() implies {
                    let f = fl[i];
                    &&& (#[trigger] out@[i]).0.shard_id.wc_spec() == f.0
                    &&& out@[i].0.shard_id.key_bits() == f.1
                    &&& out@[i].0.seq_no == f.2.seq_no
                    &&& out@[i].0.root_hash == f.2.root_hash
                    &&& out@[i].0.file_hash == f.2.file_hash
                    &&& out@[i].1 == f.2.end_lt
                } by {
                    if i < out_before.len() {
                        assert(fl[i] == fl0[i]);
                    } else {
                        let p = i - out_before.len();
                        assert(out@[out_before.len() + p].0.shard_id.key_bits() == leaves[p].0);
                        assert(fl[i] == mapped[p]);
                        assert(mapped[p] == (self.entries_spec()[w as int].0, leaves[p].0, leaves[
                            p].1));
                    }
                };
            }
            w = w + 1;
        }
        proof {
            assert(self.entries_spec().take(self.entries_spec().len() as int)
                =~= self.entries_spec());
        }
        Ok(out)
    }
}

/// Whether every trie of a reference set stays within the deepest allowed
/// prefix, so that every leaf yields a well-formed shard identifier.
pub open spec fn rsb_keys_short(entries: Seq<(i32, BinTree<ShardBlockRef>)>) -> bool {
    forall|w: int|
        0 <= w < entries.len() ==> (#[trigger] entries[w]).1.height()
            <= crate::shard::MAX_SPLIT_DEPTH
}

/// The reference set flattened: every `(workchain, prefix, reference)`
/// leaf, tries in insertion order, leaves left before right.
pub open spec fn rsb_flat(entries: Seq<(i32, BinTree<ShardBlockRef>)>) -> Seq<
    (i32, Seq<bool>, ShardBlockRef),
>
    decreases entries.len(),
{
    if entries.len() == 0 {
        Seq::<(i32, Seq<bool>, ShardBlockRef)>::empty()
    } else {
        rsb_flat(entries.drop_last()) + entries.last().1.leaves().map_values(
            |e: (Seq<bool>, ShardBlockRef)| (entries.last().0, e.0, e.1),
        )
    }
}

/// Puts an entry back at a position of the per-workchain list.
fn insert_entry(
    entries: &mut Vec<(i32, BinTree<ShardBlockRef>)>,
    i: usize,
    wc: i32,
    tree: BinTree<ShardBlockRef>,
)
    requires
        i <= old(entries)@.len(),
    ensures
        final(entries)@ == old(entries)@.insert(i as int, (wc, tree)),
{
    entries.insert(i, (wc, tree));
}

} // verus!

verus! {

/// The encodings of a fee-ledger entry list, in order.
pub open spec fn fees_entries_bits(s: Seq<(ShardIdentFull, ShardFeeCreated)>) -> Seq<bool>
    decreases s.len(),
{
    if s.len() == 0 {
        Seq::<bool>::empty()
    } else {
        uint_bits(crate::descr::wc_word(s[0].0.workchain_id) as u64, 32) + uint_bits(
            s[0].0.prefix,
            64,
        ) + s[0].1.enc_bits() + fees_entries_bits(s.skip(1))
    }
}

proof fn lemma_fees_entries_push(
    s: Seq<(ShardIdentFull, ShardFeeCreated)>,
    k: ShardIdentFull,
    v: ShardFeeCreated,
)
    ensures
        fees_entries_bits(s.push((k, v))) == fees_entries_bits(s) + uint_bits(
            crate::descr::wc_word(k.workchain_id) as u64,
            32,
        ) + uint_bits(k.prefix, 64) + v.enc_bits(),
    decreases s.len(),
{
    if s.len() == 0 {
        assert(fees_entries_bits(Seq::<(ShardIdentFull, ShardFeeCreated)>::empty())
            == Seq::<bool>::empty());
        assert(s.push((k, v))[0] == (k, v));
        assert(s.push((k, v)).skip(1) =~= Seq::<(ShardIdentFull, ShardFeeCreated)>::empty());
        assert(fees_entries_bits(s.push((k, v))) =~= fees_entries_bits(s) + uint_bits(
            crate::descr::wc_word(k.workchain_id) as u64,
            32,
        ) + uint_bits(k.prefix, 64) + v.enc_bits());
    } else {
        lemma_fees_entries_push(s.skip(1), k, v);
        assert(s.push((k, v)).skip(1) =~= s.skip(1).push((k, v)));
        assert(s.push((k, v))[0] == s[0]);
        assert(fees_entries_bits(s.push((k, v))) =~= fees_entries_bits(s) + uint_bits(
            crate::descr::wc_word(k.workchain_id) as u64,
            32,
        ) + uint_bits(k.prefix, 64) + v.enc_bits());
    }
}

/// The encodings of a signature list, in order.
pub open spec fn sigs_entries_bits(s: Seq<(u16, CryptoSignaturePair)>) -> Seq<bool>
    decreases s.len(),
{
    if s.len() == 0 {
        Seq::<bool>::empty()
    } else {
        uint_bits(s[0].0 as u64, 16) + s[0].1.enc_bits() + sigs_entries_bits(s.skip(1))
    }
}

proof fn lemma_sigs_entries_push(s: Seq<(u16, CryptoSignaturePair)>, k: u16, v: CryptoSignaturePair)
    ensures
        sigs_entries_bits(s.push((k, v))) == sigs_entries_bits(s) + uint_bits(k as u64, 16)
            + v.enc_bits(),
    decreases s.len(),
{
    if s.len() == 0 {
        assert(sigs_entries_bits(Seq::<(u16, CryptoSignaturePair)>::empty())
            == Seq::<bool>::empty());
        assert(s.push((k, v))[0] == (k, v));
        assert(s.push((k, v)).skip(1) =~= Seq::<(u16, CryptoSignaturePair)>::empty());
        assert(sigs_entries_bits(s.push((k, v))) =~= sigs_entries_bits(s) + uint_bits(k as u64, 16)
            + v.enc_bits());
    } else {
        lemma_sigs_entries_push(s.skip(1), k, v);
        assert(s.push((k, v)).skip(1) =~= s.skip(1).push((k, v)));
        assert(s.push((k, v))[0] == s[0]);
        assert(sigs_entries_bits(s.push((k, v))) =~= sigs_entries_bits(s) + uint_bits(k as u64, 16)
            + v.enc_bits());
    }
}

/// The inline encodings of an extended connected-network list, in order.
pub open spec fn meshext_entries_bits(s: Seq<(i32, ConnectedNwDescrExt)>) -> Seq<bool>
    decreases s.len(),
{
    if s.len() == 0 {
        Seq::<bool>::empty()
    } else {
        uint_bits(crate::descr::wc_word(s[0].0) as u64, 32) + s[0].1.enc_bits()
            + meshext_entries_bits(s.skip(1))
    }
}

/// The child cells of an extended connected-network list, in order.
pub open spec fn meshext_entries_refs(s: Seq<(i32, ConnectedNwDescrExt)>) -> Seq<CellData>
    decreases s.len(),
{
    if s.len() == 0 {
        Seq::<CellData>::empty()
    } else {
        s[0].1.enc_refs() + meshext_entries_refs(s.skip(1))
    }
}

proof fn lemma_meshext_entries_push(s: Seq<(i32, ConnectedNwDescrExt)>, k: i32, v: ConnectedNwDescrExt)
    ensures
        meshext_entries_bits(s.push((k, v))) == meshext_entries_bits(s) + uint_bits(
            crate::descr::wc_word(k) as u64,
            32,
        ) + v.enc_bits(),
        meshext_entries_refs(s.push((k, v))) == meshext_entries_refs(s) + v.enc_refs(),
    decreases s.len(),
{
    if s.len() == 0 {
        assert(meshext_entries_bits(Seq::<(i32, ConnectedNwDescrExt)>::empty())
            == Seq::<bool>::empty());
        assert(meshext_entries_refs(Seq::<(i32, ConnectedNwDescrExt)>::empty())
            == Seq::<CellData>::empty());
        assert(s.push((k, v))[0] == (k, v));
        assert(s.push((k, v)).skip(1) =~= Seq::<(i32, ConnectedNwDescrExt)>::empty());
        assert(meshext_entries_bits(s.push((k, v))) =~= meshext_entries_bits(s) + uint_bits(
            crate::descr::wc_word(k) as u64,
            32,
        ) + v.enc_bits());
        assert(meshext_entries_refs(s.push((k, v))) =~~= meshext_entries_refs(s) + v.enc_refs());
    } else {
        lemma_meshext_entries_push(s.skip(1), k, v);
        assert(s.push((k, v)).skip(1) =~= s.skip(1).push((k, v)));
        assert(s.push((k, v))[0] == s[0]);
        assert(meshext_entries_bits(s.push((k, v))) =~= meshext_entries_bits(s) + uint_bits(
            crate::descr::wc_word(k) as u64,
            32,
        ) + v.enc_bits());
        assert(meshext_entries_refs(s.push((k, v))) =~~= meshext_entries_refs(s) + v.enc_refs());
    }
}

/// The inline encodings of a connected-network descriptor list, in order.
pub open spec fn mesh_nw_entries_bits(s: Seq<(i32, ConnectedNwDescr)>) -> Seq<bool>
    decreases s.len(),
{
    if s.len() == 0 {
        Seq::<bool>::empty()
    } else {
        uint_bits(crate::descr::wc_word(s[0].0) as u64, 32) + s[0].1.enc_bits()
            + mesh_nw_entries_bits(s.skip(1))
    }
}

proof fn lemma_mesh_nw_entries_push(s: Seq<(i32, ConnectedNwDescr)>, k: i32, v: ConnectedNwDescr)
    ensures
        mesh_nw_entries_bits(s.push((k, v))) == mesh_nw_entries_bits(s) + uint_bits(
            crate::descr::wc_word(k) as u64,
            32,
        ) + v.enc_bits(),
    decreases s.len(),
{
    if s.len() == 0 {
        assert(mesh_nw_entries_bits(Seq::<(i32, ConnectedNwDescr)>::empty())
            == Seq::<bool>::empty());
        assert(s.push((k, v))[0] == (k, v));
        assert(s.push((k, v)).skip(1) =~= Seq::<(i32, ConnectedNwDescr)>::empty());
        assert(mesh_nw_entries_bits(s.push((k, v))) =~= mesh_nw_entries_bits(s) + uint_bits(
            crate::descr::wc_word(k) as u64,
            32,
        ) + v.enc_bits());
    } else {
        lemma_mesh_nw_entries_push(s.skip(1), k, v);
        assert(s.push((k, v)).skip(1) =~= s.skip(1).push((k, v)));
        assert(s.push((k, v))[0] == s[0]);
        assert(mesh_nw_entries_bits(s.push((k, v))) =~= mesh_nw_entries_bits(s) + uint_bits(
            crate::descr::wc_word(k) as u64,
            32,
        ) + v.enc_bits());
    }
}

/// The wire tag of the original block-extension record.
pub const MC_BLOCK_EXTRA_TAG: u64 = 0xCCA5;

/// The wire tag of the block extension with copyleft messages.
pub const MC_BLOCK_EXTRA_TAG_2: u64 = 0xDC75;

/// The wire tag of the block extension with common messages and mesh.
pub const MC_BLOCK_EXTRA_TAG_3: u64 = 0xDC76;

/// Everything a masterchain block adds beyond an ordinary block: the shard
/// topology, per-shard fees, signatures over the previous block, recovery
/// and mint messages, and on key blocks the new configuration.
#[derive(Debug)]
pub struct McBlockExtra {
    pub shards: crate::topology::ShardHashes,
    pub fees: ShardFees,
    pub prev_blk_signatures: CryptoSignatures,
    pub recover_create_msg: Option<Cell>,
    pub copyleft_msgs: CopyleftMessages,
    pub mint_msg: Option<Cell>,
    pub mesh: MeshHashesExt,
    pub config: Option<ConfigParams>,
    pub validators_stat: ValidatorsStat,
    pub serde_opts: u8,
}

impl Default for McBlockExtra {
    /// An empty extension in the plain encoding mode.
    fn default() -> (r: Self)
        ensures
            r.serde_opts_spec() == crate::descr::SERDE_OPTS_EMPTY,
            r.is_empty_spec(),
    {
        McBlockExtra {
            shards: crate::topology::ShardHashes::new(),
            fees: ShardFees::default(),
            prev_blk_signatures: CryptoSignatures::default(),
            recover_create_msg: None,
            copyleft_msgs: CopyleftMessages::new(),
            mint_msg: None,
            mesh: MeshHashesExt::default(),
            config: None,
            validators_stat: ValidatorsStat::default(),
            serde_opts: crate::descr::SERDE_OPTS_EMPTY,
        }
    }
}

impl McBlockExtra {
    /// The encoding options in force.
    pub open spec fn serde_opts_spec(self) -> u8 {
        self.serde_opts
    }

    /// The configuration, present exactly on key blocks.
    pub open spec fn config_spec(self) -> Option<ConfigParams> {
        self.config
    }

    /// Whether every part of the extension is absent or empty.
    pub open spec fn is_empty_spec(self) -> bool {
        &&& self.shards.entries_spec().len() == 0
        &&& self.fees@.len() == 0
        &&& self.fees.root_spec().fees.grams == 0
        &&& self.fees.root_spec().create.grams == 0
        &&& self.prev_blk_signatures@.len() == 0
        &&& self.recover_create_msg is None
        &&& self.copyleft_msgs.view_spec().len() == 0
        &&& self.mint_msg is None
        &&& self.mesh@.len() == 0
        &&& self.config is None
        &&& self.validators_stat@.len() == 0
    }

    /// An empty extension in the common-message encoding mode.
    pub fn with_common_message_support() -> (r: Self)
        ensures
            r.serde_opts_spec() == crate::descr::SERDE_OPTS_COMMON_MESSAGE,
            r.is_empty_spec(),
    {
        let mut r = McBlockExtra::default();
        r.serde_opts = crate::descr::SERDE_OPTS_COMMON_MESSAGE;
        r
    }

    /// The total fees collected across the whole chain.
    pub fn total_fee(&self) -> (r: &CurrencyCollection)
        ensures
            *r == self.fees.root_spec().fees,
    {
        &self.fees.root_extra().fees
    }

    /// The first fee record stored for a shard, if any.
    pub fn fee(&self, ident: &ShardIdent) -> (r: Result<Option<CurrencyCollection>, BlockError>)
        ensures
            match r {
                Ok(Some(c)) => exists|i: int|
                    0 <= i < self.fees@.len() && (#[trigger] self.fees@[i]).0 == (ShardIdentFull {
                        workchain_id: ident.wc_spec(),
                        prefix: ident.tagged_spec(),
                    }) && self.fees@[i].1.fees == c,
                Ok(None) => forall|i: int|
                    0 <= i < self.fees@.len() ==> (#[trigger] self.fees@[i]).0 != (ShardIdentFull {
                        workchain_id: ident.wc_spec(),
                        prefix: ident.tagged_spec(),
                    }),
                Err(_) => false,
            },
    {
        let id = ShardIdentFull {
            workchain_id: ident.workchain_id(),
            prefix: ident.shard_prefix_with_tag(),
        };
        let entries = self.fees.entries();
        let mut i: usize = 0;
        while i < entries.len()
            invariant
                i <= entries@.len(),
                entries@ == self.fees@,
                id == (ShardIdentFull { workchain_id: ident.wc_spec(), prefix: ident.tagged_spec() }),
                forall|j: int| 0 <= j < i ==> (#[trigger] self.fees@[j]).0 != id,
            decreases entries@.len() - i,
        {
            let (k, v) = &entries[i];
            if *k == id {
                proof {
                    assert(self.fees@[i as int].0 == id && self.fees@[i as int].1.fees == v.fees);
                    assert(id == (ShardIdentFull {
                        workchain_id: ident.wc_spec(),
                        prefix: ident.tagged_spec(),
                    }));
                    assert(exists|j: int|
                        0 <= j < self.fees@.len() && (#[trigger] self.fees@[j]).0 == (
                        ShardIdentFull {
                            workchain_id: ident.wc_spec(),
                            prefix: ident.tagged_spec(),
                        }) && self.fees@[j].1.fees == v.fees) by {
                        let gi = i as int;
                        assert(0 <= gi < self.fees@.len() && self.fees@[gi].0 == (ShardIdentFull {
                            workchain_id: ident.wc_spec(),
                            prefix: ident.tagged_spec(),
                        }) && self.fees@[gi].1.fees == v.fees);
                    };
                }
                return Ok(Some(v.fees));
            }
            i = i + 1;
        }
        Ok(None)
    }

    /// Whether this block starts a new configuration epoch.
    pub fn is_key_block(&self) -> (r: bool)
        ensures
            r == (self.config_spec() is Some),
    {
        self.config.is_some()
    }

    /// The shard topology.
    pub fn hashes(&self) -> (r: &crate::topology::ShardHashes)
        ensures
            r == self.shards,
    {
        &self.shards
    }

    /// The shard topology, for change.
    pub fn hashes_mut(&mut self) -> (r: &mut crate::topology::ShardHashes)
        ensures
            *r == old(self).shards,
            final(self).shards == *final(r),
            *final(self) == (McBlockExtra { shards: final(self).shards, ..*old(self) }),
    {
        &mut self.shards
    }

    /// The shard topology.
    pub fn shards(&self) -> (r: &crate::topology::ShardHashes)
        ensures
            r == self.shards,
    {
        &self.shards
    }

    /// The shard topology, for change.
    pub fn shards_mut(&mut self) -> (r: &mut crate::topology::ShardHashes)
        ensures
            *r == old(self).shards,
            final(self).shards == *final(r),
            *final(self) == (McBlockExtra { shards: final(self).shards, ..*old(self) }),
    {
        &mut self.shards
    }

    /// The per-shard fee ledger.
    pub fn fees(&self) -> (r: &ShardFees)
        ensures
            r == self.fees,
    {
        &self.fees
    }

    /// The per-shard fee ledger, for change.
    pub fn fees_mut(&mut self) -> (r: &mut ShardFees)
        ensures
            *r == old(self).fees,
            final(self).fees == *final(r),
            *final(self) == (McBlockExtra { fees: final(self).fees, ..*old(self) }),
    {
        &mut self.fees
    }

    /// The signatures over the previous block.
    pub fn prev_blk_signatures(&self) -> (r: &CryptoSignatures)
        ensures
            r == self.prev_blk_signatures,
    {
        &self.prev_blk_signatures
    }

    /// The signatures over the previous block, for change.
    pub fn prev_blk_signatures_mut(&mut self) -> (r: &mut CryptoSignatures)
        ensures
            *r == old(self).prev_blk_signatures,
            final(self).prev_blk_signatures == *final(r),
            *final(self) == (McBlockExtra {
                prev_blk_signatures: final(self).prev_blk_signatures,
                ..*old(self)
            }),
    {
        &mut self.prev_blk_signatures
    }

    /// The configuration carried by a key block, if any.
    pub fn config(&self) -> (r: Option<&ConfigParams>)
        ensures
            match (r, self.config_spec()) {
                (Some(a), Some(b)) => *a == b,
                (None, None) => true,
                _ => false,
            },
    {
        self.config.as_ref()
    }

    /// The configuration slot, for change.
    pub fn config_mut(&mut self) -> (r: &mut Option<ConfigParams>)
        ensures
            *r == old(self).config_spec(),
            final(self).config_spec() == *final(r),
            *final(self) == (McBlockExtra { config: final(self).config, ..*old(self) }),
    {
        &mut self.config
    }

    /// Makes the block a key block with the given configuration.
    pub fn set_config(&mut self, config: ConfigParams)
        ensures
            *final(self) == (McBlockExtra { config: Some(config), ..*old(self) }),
            final(self).config_spec() == Some(config),
    {
        self.config = Some(config);
    }

    /// The fee-recovery message, if any.
    pub fn read_recover_create_msg(&self) -> (r: Result<Option<Cell>, BlockError>)
        ensures
            match r {
                Ok(Some(c)) => self.recover_create_msg matches Some(m) && c@ == m@,
                Ok(None) => self.recover_create_msg is None,
                Err(_) => false,
            },
    {
        match &self.recover_create_msg {
            Some(c) => Ok(Some(c.clone())),
            None => Ok(None),
        }
    }

    /// Stores or clears the fee-recovery message.
    pub fn write_recover_create_msg(&mut self, value: Option<&Cell>) -> (r: Result<
        (),
        BlockError,
    >)
        ensures
            r.is_ok(),
            match (final(self).recover_create_msg, value) {
                (Some(m), Some(v)) => m@ == v@,
                (None, None) => true,
                _ => false,
            },
            *final(self) == (McBlockExtra {
                recover_create_msg: final(self).recover_create_msg,
                ..*old(self)
            }),
    {
        self.recover_create_msg = match value {
            Some(v) => Some(v.clone()),
            None => None,
        };
        Ok(())
    }

    /// The fee-recovery message's cell, if any.
    pub fn recover_create_msg_cell(&self) -> (r: Option<Cell>)
        ensures
            match (r, self.recover_create_msg) {
                (Some(c), Some(m)) => c@ == m@,
                (None, None) => true,
                _ => false,
            },
    {
        match &self.recover_create_msg {
            Some(c) => Some(c.clone()),
            None => None,
        }
    }

    /// The mint message, if any.
    pub fn read_mint_msg(&self) -> (r: Result<Option<Cell>, BlockError>)
        ensures
            match r {
                Ok(Some(c)) => self.mint_msg matches Some(m) && c@ == m@,
                Ok(None) => self.mint_msg is None,
                Err(_) => false,
            },
    {
        match &self.mint_msg {
            Some(c) => Ok(Some(c.clone())),
            None => Ok(None),
        }
    }

    /// Stores or clears the mint message.
    pub fn write_mint_msg(&mut self, value: Option<&Cell>) -> (r: Result<(), BlockError>)
        ensures
            r.is_ok(),
            match (final(self).mint_msg, value) {
                (Some(m), Some(v)) => m@ == v@,
                (None, None) => true,
                _ => false,
            },
            *final(self) == (McBlockExtra { mint_msg: final(self).mint_msg, ..*old(self) }),
    {
        self.mint_msg = match value {
            Some(v) => Some(v.clone()),
            None => None,
        };
        Ok(())
    }

    /// The mint message's cell, if any.
    pub fn mint_msg_cell(&self) -> (r: Option<Cell>)
        ensures
            match (r, self.mint_msg) {
                (Some(c), Some(m)) => c@ == m@,
                (None, None) => true,
                _ => false,
            },
    {
        match &self.mint_msg {
            Some(c) => Some(c.clone()),
            None => None,
        }
    }

    /// The copyleft reward messages, in order.
    pub fn read_copyleft_msgs(&self) -> (r: Result<Vec<Cell>, BlockError>)
        ensures
            match r {
                Ok(out) => {
                    &&& out@.len() == self.copyleft_msgs.view_spec().len()
                    &&& forall|i: int|
                        0 <= i < out@.len() ==> (#[trigger] out@[i])@
                            == self.copyleft_msgs.view_spec()[i]
                },
                Err(_) => false,
            },
    {
        let mut out: Vec<Cell> = Vec::new();
        let mut i: usize = 0;
        let n = self.copyleft_msgs.len();
        while i < n
            invariant
                i <= n,
                n == self.copyleft_msgs.view_spec().len(),
                out@.len() == i,
                forall|j: int|
                    0 <= j < i ==> (#[trigger] out@[j])@ == self.copyleft_msgs.view_spec()[j],
            decreases n - i,
        {
            let c = match self.copyleft_msgs.get(i) {
                Some(c) => c.clone(),
                None => {
                    proof {
                        assert(false);
                    }
                    return Err(BlockError::InvalidData);
                },
            };
            out.push(c);
            i = i + 1;
        }
        Ok(out)
    }

    /// Replaces the copyleft reward messages.
    pub fn write_copyleft_msgs(&mut self, value: &Vec<Cell>) -> (r: Result<(), BlockError>)
        ensures
            r.is_ok(),
            final(self).copyleft_msgs.view_spec().len() == value@.len(),
            forall|i: int|
                0 <= i < value@.len() ==> #[trigger] final(self).copyleft_msgs.view_spec()[i] == (
                value@[i])@,
            *final(self) == (McBlockExtra { copyleft_msgs: final(self).copyleft_msgs, ..*old(self) }),
    {
        let mut msgs = CopyleftMessages::new();
        let mut i: usize = 0;
        while i < value.len()
            invariant
                i <= value@.len(),
                msgs.view_spec().len() == i,
                forall|j: int| 0 <= j < i ==> #[trigger] msgs.view_spec()[j] == (value@[j])@,
            decreases value@.len() - i,
        {
            msgs.push(value[i].clone());
            i = i + 1;
        }
        self.copyleft_msgs = msgs;
        Ok(())
    }

    /// The connected-network records.
    pub fn mesh_descr(&self) -> (r: &MeshHashesExt)
        ensures
            r == self.mesh,
    {
        &self.mesh
    }

    /// The connected-network records, for change.
    pub fn mesh_descr_mut(&mut self) -> (r: &mut MeshHashesExt)
        ensures
            *r == old(self).mesh,
            final(self).mesh == *final(r),
            *final(self) == (McBlockExtra { mesh: final(self).mesh, ..*old(self) }),
    {
        &mut self.mesh
    }

    /// The encoding options in force.
    pub fn serde_opts(&self) -> (r: u8)
        ensures
            r == self.serde_opts_spec(),
    {
        self.serde_opts
    }

    /// The per-validator statistics.
    pub fn validators_stat(&self) -> (r: &ValidatorsStat)
        ensures
            r == self.validators_stat,
    {
        &self.validators_stat
    }

    /// The per-validator statistics, for change.
    pub fn validators_stat_mut(&mut self) -> (r: &mut ValidatorsStat)
        ensures
            *r == old(self).validators_stat,
            final(self).validators_stat == *final(r),
            *final(self) == (McBlockExtra { validators_stat: final(self).validators_stat, ..*old(self) }),
    {
        &mut self.validators_stat
    }

    /// Replaces the per-validator statistics.
    pub fn set_validators_stat(&mut self, stat: ValidatorsStat)
        ensures
            final(self).validators_stat@ == stat@,
            *final(self) == (McBlockExtra { validators_stat: final(self).validators_stat, ..*old(self) }),
    {
        self.validators_stat = stat;
    }
}

} // verus!

verus! {

impl McBlockExtra {
    /// The wire tag chosen for the given options: the copyleft form when
    /// copyleft messages are attached, the common-message form under that
    /// option, the plain form otherwise.
    pub open spec fn tag_for(self, opts: u8) -> u64 {
        if self.copyleft_msgs.view_spec().len() > 0 {
            MC_BLOCK_EXTRA_TAG_2
        } else if opts & crate::descr::SERDE_OPTS_COMMON_MESSAGE != 0 {
            MC_BLOCK_EXTRA_TAG_3
        } else {
            MC_BLOCK_EXTRA_TAG
        }
    }

    /// The inline wire form of the fee ledger: the entry count, each shard
    /// id with its contribution, then the running total.
    pub open spec fn fees_enc_bits(self) -> Seq<bool> {
        uint_bits(self.fees@.len() as u64, 16) + fees_entries_bits(self.fees@)
            + self.fees.root_spec().enc_bits()
    }

    /// The bits of the signature-and-message child cell: the signature
    /// list, two presence bits, then the copyleft count or the extended
    /// connected-network records, as the tag demands.
    pub open spec fn c1_bits(self, opts: u8) -> Seq<bool> {
        uint_bits(self.prev_blk_signatures@.len() as u64, 16) + sigs_entries_bits(
            self.prev_blk_signatures@,
        ) + seq![self.recover_create_msg is Some] + seq![self.mint_msg is Some] + (
        if self.copyleft_msgs.view_spec().len() > 0 {
            uint_bits(self.copyleft_msgs.view_spec().len() as u64, 16)
        } else if opts & crate::descr::SERDE_OPTS_COMMON_MESSAGE != 0 {
            uint_bits(self.mesh@.len() as u64, 16) + meshext_entries_bits(self.mesh@)
        } else {
            Seq::<bool>::empty()
        })
    }

    /// The child cells of the signature-and-message cell: the two optional
    /// messages, then the copyleft messages or the connected-network
    /// queues, as the tag demands.
    pub open spec fn c1_refs(self, opts: u8) -> Seq<CellData> {
        (match self.recover_create_msg {
            Some(m) => seq![m@],
            None => Seq::<CellData>::empty(),
        }) + (match self.mint_msg {
            Some(m) => seq![m@],
            None => Seq::<CellData>::empty(),
        }) + (if self.copyleft_msgs.view_spec().len() > 0 {
            self.copyleft_msgs.view_spec()
        } else if opts & crate::descr::SERDE_OPTS_COMMON_MESSAGE != 0 {
            meshext_entries_refs(self.mesh@)
        } else {
            Seq::<CellData>::empty()
        })
    }

    /// The inline wire form: the tag, the key-block bit, the topology, the
    /// fee ledger, then the configuration when present.
    pub open spec fn enc_bits(self, opts: u8) -> Seq<bool> {
        uint_bits(self.tag_for(opts), 16) + seq![self.config is Some]
            + self.shards.enc_bits() + self.fees_enc_bits() + (match self.config {
            Some(c) => c.enc_bits(),
            None => Seq::<bool>::empty(),
        })
    }

    /// The child cells: the topology tries, the signature-and-message
    /// cell, then the parameter dictionary when present.
    pub open spec fn enc_refs(self, opts: u8) -> Seq<CellData> {
        self.shards.enc_refs() + seq![
            (CellData { bits: self.c1_bits(opts), refs: self.c1_refs(opts) }),
        ] + (match self.config {
            Some(c) => c.enc_refs(),
            None => Seq::<CellData>::empty(),
        })
    }

    /// Whether the extension can be written under the given options:
    /// copyleft messages refuse the common-message mode, mesh records
    /// require it, and every attached list fits its count field.
    pub open spec fn encodable_spec(self, opts: u8) -> bool {
        let copyleft = self.copyleft_msgs.view_spec().len() > 0;
        let common = opts & crate::descr::SERDE_OPTS_COMMON_MESSAGE != 0;
        &&& !(copyleft && common)
        &&& (self.mesh@.len() == 0 || common)
        &&& self.shards.entries_spec().len() < 0x1_0000
        &&& crate::topology::topology_encodable(self.shards.entries_spec())
        &&& self.fees@.len() < 0x1_0000
        &&& self.prev_blk_signatures@.len() < 0x1_0000
        &&& self.copyleft_msgs.view_spec().len() < 0x1_0000
        &&& self.mesh@.len() < 0x1_0000
    }

    /// Writes the extension; succeeds exactly when it is encodable under
    /// the options, appending its wire form bit for bit.
    pub fn write_with_opts(&self, b: &mut BuilderData, opts: u8) -> (r: Result<(), BlockError>)
        ensures
            r.is_ok() <==> self.encodable_spec(opts),
            r.is_ok() ==> final(b).bits_spec() == old(b).bits_spec() + self.enc_bits(opts)
                && final(b).refs_spec() == old(b).refs_spec() + self.enc_refs(opts),
            ({
                let copyleft = self.copyleft_msgs.view_spec().len() > 0;
                let common = opts & crate::descr::SERDE_OPTS_COMMON_MESSAGE != 0;
                r matches Err(e) ==> (copyleft && common || self.mesh@.len() > 0 && !common)
                    ==> e == BlockError::UnsupportedCombination
            }),
    {
        proof {
            lemma2_to64();
            lemma2_to64_rest();
        }
        let copyleft = !self.copyleft_msgs.is_empty();
        let common = opts & crate::descr::SERDE_OPTS_COMMON_MESSAGE != 0;
        if copyleft && common {
            return Err(BlockError::UnsupportedCombination);
        }
        if !self.mesh.is_empty() && !common {
            return Err(BlockError::UnsupportedCombination);
        }
        let tag: u64 = if copyleft {
            MC_BLOCK_EXTRA_TAG_2
        } else if common {
            MC_BLOCK_EXTRA_TAG_3
        } else {
            MC_BLOCK_EXTRA_TAG
        };
        b.append_bits(tag, 16);
        b.append_bit(self.config.is_some());
        let ghost pre1 = uint_bits(self.tag_for(opts), 16) + seq![self.config is Some];
        proof {
            assert(b.bits_spec() =~= old(b).bits_spec() + pre1);
        }
        self.shards.write_to(b)?;
        let ghost pre2 = pre1 + self.shards.enc_bits();
        proof {
            vstd::seq_lib::lemma_concat_associative(
                old(b).bits_spec(),
                pre1,
                self.shards.enc_bits(),
            );
            assert(b.refs_spec() =~= old(b).refs_spec() + self.shards.enc_refs());
        }
        self.write_fees(b)?;
        let ghost pre3 = pre2 + self.fees_enc_bits();
        proof {
            vstd::seq_lib::lemma_concat_associative(old(b).bits_spec(), pre2, self.fees_enc_bits());
        }
        // the signature-and-message child cell
        let mut c1 = BuilderData::new();
        self.write_sigs(&mut c1)?;
        let ghost q1 = uint_bits(self.prev_blk_signatures@.len() as u64, 16) + sigs_entries_bits(
            self.prev_blk_signatures@,
        );
        match &self.recover_create_msg {
            Some(m) => {
                c1.append_bit(true);
                c1.append_reference(m.clone());
            },
            None => {
                c1.append_bit(false);
            },
        }
        match &self.mint_msg {
            Some(m) => {
                c1.append_bit(true);
                c1.append_reference(m.clone());
            },
            None => {
                c1.append_bit(false);
            },
        }
        let ghost q2 = q1 + seq![self.recover_create_msg is Some] + seq![self.mint_msg is Some];
        let ghost r2 = (match &self.recover_create_msg {
            Some(m) => seq![m@],
            None => Seq::<CellData>::empty(),
        }) + (match &self.mint_msg {
            Some(m) => seq![m@],
            None => Seq::<CellData>::empty(),
        });
        proof {
            assert(c1.bits_spec() =~= q2);
            assert(c1.refs_spec() =~= r2);
        }
        if copyleft {
            let n = self.copyleft_msgs.len();
            if (n as u64) >= 0x1_0000u64 {
                return Err(BlockError::IntOverflow);
            }
            c1.append_bits(n as u64, 16);
            let ghost msgs = self.copyleft_msgs.view_spec();
            let mut i: usize = 0;
            while i < n
                invariant
                    i <= n,
                    n == msgs.len(),
                    msgs == self.copyleft_msgs.view_spec(),
                    n < 0x1_0000,
                    c1.bits_spec() == q2 + uint_bits(n as u64, 16),
                    c1.refs_spec() =~= r2 + msgs.take(i as int),
                decreases n - i,
            {
                match self.copyleft_msgs.get(i) {
                    Some(m) => {
                        c1.append_reference(m.clone());
                    },
                    None => {
                    },
                }
                proof {
                    assert(msgs.take(i as int).push(msgs[i as int]) =~= msgs.take(i as int + 1));
                }
                i = i + 1;
            }
            proof {
                assert(msgs.take(msgs.len() as int) =~= msgs);
                assert(c1.bits_spec() =~= self.c1_bits(opts));
                assert(c1.refs_spec() =~= self.c1_refs(opts));
            }
        } else if common {
            self.write_mesh(&mut c1)?;
            proof {
                vstd::seq_lib::lemma_concat_associative(
                    Seq::<bool>::empty(),
                    q2,
                    uint_bits(self.mesh@.len() as u64, 16) + meshext_entries_bits(self.mesh@),
                );
                assert(c1.bits_spec() =~= self.c1_bits(opts));
                assert(c1.refs_spec() =~= self.c1_refs(opts));
            }
        } else {
            proof {
                assert(c1.bits_spec() =~= self.c1_bits(opts));
                assert(c1.refs_spec() =~= self.c1_refs(opts));
            }
        }
        b.append_reference(c1.into_cell());
        let ghost rmid = old(b).refs_spec() + self.shards.enc_refs() + seq![
            (CellData { bits: self.c1_bits(opts), refs: self.c1_refs(opts) }),
        ];
        proof {
            assert(b.refs_spec() =~= rmid);
        }
        match &self.config {
            Some(c) => {
                let _ = c.write_to(b);
                proof {
                    vstd::seq_lib::lemma_concat_associative(old(b).bits_spec(), pre3, c.enc_bits());
                }
            },
            None => {},
        }
        proof {
            assert(final(b).bits_spec() =~= old(b).bits_spec() + self.enc_bits(opts));
            assert(final(b).refs_spec() =~= old(b).refs_spec() + self.enc_refs(opts));
        }
        Ok(())
    }

    /// Writes the extension in the plain mode.
    pub fn write_to(&self, b: &mut BuilderData) -> (r: Result<(), BlockError>)
        ensures
            r.is_ok() <==> self.encodable_spec(crate::descr::SERDE_OPTS_EMPTY),
            r.is_ok() ==> final(b).bits_spec() == old(b).bits_spec() + self.enc_bits(
                crate::descr::SERDE_OPTS_EMPTY,
            ) && final(b).refs_spec() == old(b).refs_spec() + self.enc_refs(
                crate::descr::SERDE_OPTS_EMPTY,
            ),
    {
        proof {
            assert(crate::descr::SERDE_OPTS_EMPTY & crate::descr::SERDE_OPTS_COMMON_MESSAGE
                == 0) by (bit_vector);
        }
        self.write_with_opts(b, crate::descr::SERDE_OPTS_EMPTY)
    }

    /// Writes the fee ledger: entry count, each shard id with its
    /// contribution, then the running total. Succeeds exactly when the
    /// count fits its field.
    fn write_fees(&self, b: &mut BuilderData) -> (r: Result<(), BlockError>)
        ensures
            r.is_ok() <==> self.fees@.len() < 0x1_0000,
            r.is_ok() ==> final(b).bits_spec() == old(b).bits_spec() + self.fees_enc_bits()
                && final(b).refs_spec() == old(b).refs_spec(),
            r matches Err(e) ==> e == BlockError::IntOverflow,
    {
        proof {
            lemma2_to64();
            lemma2_to64_rest();
        }
        let entries = self.fees.entries();
        if (entries.len() as u64) >= 0x1_0000u64 {
            return Err(BlockError::IntOverflow);
        }
        b.append_bits(entries.len() as u64, 16);
        let ghost es = self.fees@;
        let mut i: usize = 0;
        while i < entries.len()
            invariant
                i <= es.len(),
                entries@ == es,
                es == self.fees@,
                es.len() < 0x1_0000,
                b.bits_spec() =~= old(b).bits_spec() + uint_bits(es.len() as u64, 16)
                    + fees_entries_bits(es.take(i as int)),
                b.refs_spec() == old(b).refs_spec(),
            decreases es.len() - i,
        {
            let (k, v) = &entries[i];
            proof {
                lemma2_to64();
                lemma2_to64_rest();
            }
            b.append_bits(wc_word_exec(k.workchain_id) as u64, 32);
            b.append_bits(k.prefix, 64);
            let _ = v.write_to(b);
            proof {
                lemma_fees_entries_push(es.take(i as int), *k, *v);
                assert(es.take(i as int).push((*k, *v)) =~= es.take(i as int + 1));
            }
            i = i + 1;
        }
        let _ = self.fees.root_extra().write_to(b);
        proof {
            assert(es.take(es.len() as int) =~= es);
            assert(final(b).bits_spec() =~= old(b).bits_spec() + self.fees_enc_bits());
        }
        Ok(())
    }

    /// Writes the signature set: entry count, then each validator index
    /// and signature pair. Succeeds exactly when the count fits its field.
    fn write_sigs(&self, b: &mut BuilderData) -> (r: Result<(), BlockError>)
        ensures
            r.is_ok() <==> self.prev_blk_signatures@.len() < 0x1_0000,
            r.is_ok() ==> final(b).bits_spec() == old(b).bits_spec() + uint_bits(
                self.prev_blk_signatures@.len() as u64,
                16,
            ) + sigs_entries_bits(self.prev_blk_signatures@) && final(b).refs_spec() == old(
                b,
            ).refs_spec(),
            r matches Err(e) ==> e == BlockError::IntOverflow,
    {
        proof {
            lemma2_to64();
            lemma2_to64_rest();
        }
        let entries = self.prev_blk_signatures.entries();
        if (entries.len() as u64) >= 0x1_0000u64 {
            return Err(BlockError::IntOverflow);
        }
        b.append_bits(entries.len() as u64, 16);
        let ghost es = self.prev_blk_signatures@;
        let mut i: usize = 0;
        while i < entries.len()
            invariant
                i <= es.len(),
                entries@ == es,
                es == self.prev_blk_signatures@,
                es.len() < 0x1_0000,
                b.bits_spec() =~= old(b).bits_spec() + uint_bits(es.len() as u64, 16)
                    + sigs_entries_bits(es.take(i as int)),
                b.refs_spec() == old(b).refs_spec(),
            decreases es.len() - i,
        {
            let (k, v) = &entries[i];
            proof {
                lemma2_to64();
                lemma2_to64_rest();
            }
            b.append_bits(*k as u64, 16);
            let _ = v.write_to(b);
            proof {
                lemma_sigs_entries_push(es.take(i as int), *k, *v);
                assert(es.take(i as int).push((*k, *v)) =~= es.take(i as int + 1));
            }
            i = i + 1;
        }
        proof {
            assert(es.take(es.len() as int) =~= es);
            assert(final(b).bits_spec() =~= old(b).bits_spec() + uint_bits(es.len() as u64, 16)
                + sigs_entries_bits(es));
        }
        Ok(())
    }

    /// Writes the connected-network records: entry count, then each
    /// network id and extended record. Succeeds exactly when the count
    /// fits its field.
    fn write_mesh(&self, b: &mut BuilderData) -> (r: Result<(), BlockError>)
        ensures
            r.is_ok() <==> self.mesh@.len() < 0x1_0000,
            r.is_ok() ==> final(b).bits_spec() == old(b).bits_spec() + uint_bits(
                self.mesh@.len() as u64,
                16,
            ) + meshext_entries_bits(self.mesh@) && final(b).refs_spec() == old(b).refs_spec()
                + meshext_entries_refs(self.mesh@),
            r matches Err(e) ==> e == BlockError::IntOverflow,
    {
        proof {
            lemma2_to64();
            lemma2_to64_rest();
        }
        let entries = self.mesh.entries();
        if (entries.len() as u64) >= 0x1_0000u64 {
            return Err(BlockError::IntOverflow);
        }
        b.append_bits(entries.len() as u64, 16);
        let ghost es = self.mesh@;
        let mut i: usize = 0;
        while i < entries.len()
            invariant
                i <= es.len(),
                entries@ == es,
                es == self.mesh@,
                es.len() < 0x1_0000,
                b.bits_spec() =~= old(b).bits_spec() + uint_bits(es.len() as u64, 16)
                    + meshext_entries_bits(es.take(i as int)),
                b.refs_spec() =~= old(b).refs_spec() + meshext_entries_refs(es.take(i as int)),
            decreases es.len() - i,
        {
            let (k, v) = &entries[i];
            proof {
                lemma2_to64();
                lemma2_to64_rest();
            }
            b.append_bits(wc_word_exec(*k) as u64, 32);
            let _ = v.write_to(b);
            proof {
                lemma_meshext_entries_push(es.take(i as int), *k, *v);
                assert(es.take(i as int).push((*k, *v)) =~= es.take(i as int + 1));
            }
            i = i + 1;
        }
        proof {
            assert(es.take(es.len() as int) =~= es);
            assert(final(b).bits_spec() =~= old(b).bits_spec() + uint_bits(es.len() as u64, 16)
                + meshext_entries_bits(es));
            assert(final(b).refs_spec() =~= old(b).refs_spec() + meshext_entries_refs(es));
        }
        Ok(())
    }

    /// Reads an extension back; fails naming the tag when it is not an
    /// accepted one. The encoding options follow the tag.
    pub fn read_from(s: &mut SliceData) -> (r: Result<McBlockExtra, BlockError>)
        ensures
            old(s).rem_bits().len() < 16 ==> r == Err::<Self, BlockError>(
                BlockError::CellUnderflow,
            ),
            old(s).rem_bits().len() >= 16 && !(bits_val(old(s).rem_bits().take(16)) == 0xCCA5 || bits_val(old(s).rem_bits().take(16)) == 0xDC75 || bits_val(old(s).rem_bits().take(16)) == 0xDC76) ==> (r matches Err(e2) && e2 == (
            BlockError::InvalidConstructorTag { t: (bits_val(old(s).rem_bits().take(16)) as u64) })),
            match r {
                Ok(x) => {
                    &&& (x.copyleft_msgs.view_spec().len() > 0 ==> x.serde_opts_spec()
                        == crate::descr::SERDE_OPTS_EMPTY)
                    &&& (x.copyleft_msgs.view_spec().len() > 0 ==> bits_val(
                        old(s).rem_bits().take(16),
                    ) == 0xDC75)
                    &&& ((x.serde_opts_spec() == crate::descr::SERDE_OPTS_COMMON_MESSAGE)
                        <==> bits_val(old(s).rem_bits().take(16)) == 0xDC76)
                    &&& (x.mesh@.len() > 0 ==> bits_val(old(s).rem_bits().take(16)) == 0xDC76)
                    &&& x.shards.enc_bits().is_prefix_of(old(s).rem_bits().skip(17))
                    &&& x.shards.enc_refs().is_prefix_of(old(s).rem_refs())
                    &&& x.shards.enc_refs().len() < old(s).rem_refs().len()
                    &&& (uint_bits(x.prev_blk_signatures@.len() as u64, 16) + sigs_entries_bits(
                        x.prev_blk_signatures@,
                    )).is_prefix_of(
                        old(s).rem_refs()[x.shards.enc_refs().len() as int].bits,
                    )
                },
                Err(_) => true,
            },
    {
        proof {
            lemma2_to64();
            lemma2_to64_rest();
        }
        let tag = s.get_next_int(16)?;
        if tag != MC_BLOCK_EXTRA_TAG && tag != MC_BLOCK_EXTRA_TAG_2 && tag != MC_BLOCK_EXTRA_TAG_3 {
            return Err(BlockError::InvalidConstructorTag { t: tag });
        }
        let serde_opts: u8 = if tag == MC_BLOCK_EXTRA_TAG_3 {
            crate::descr::SERDE_OPTS_COMMON_MESSAGE
        } else {
            crate::descr::SERDE_OPTS_EMPTY
        };
        let key_block = s.get_next_bit()?;
        proof {
            assert(s.rem_bits() =~= old(s).rem_bits().skip(17));
        }
        let shards = crate::topology::ShardHashes::read_from(s)?;
        proof {
            assert(shards.enc_bits().is_prefix_of(old(s).rem_bits().skip(17))) by {
                assert((shards.enc_bits() + s.rem_bits()).take(shards.enc_bits().len() as int)
                    =~= shards.enc_bits());
            };
            assert(shards.enc_refs().is_prefix_of(old(s).rem_refs())) by {
                assert((shards.enc_refs() + s.rem_refs()).take(shards.enc_refs().len() as int)
                    =~= shards.enc_refs());
            };
        }
        let fees = Self::read_fees(s)?;
        let ghost refs_mid = s.rem_refs();
        let c1 = match s.checked_drain_reference() {
            Ok(c) => c,
            Err(e) => {
                return Err(e);
            },
        };
        proof {
            assert(c1@ == old(s).rem_refs()[shards.enc_refs().len() as int]);
        }
        let mut cs = SliceData::load_cell(c1);
        let prev_blk_signatures = Self::read_sigs(&mut cs)?;
        proof {
            let sigenc = uint_bits(prev_blk_signatures@.len() as u64, 16) + sigs_entries_bits(
                prev_blk_signatures@,
            );
            assert(sigenc.is_prefix_of(c1@.bits)) by {
                assert((sigenc + cs.rem_bits()).take(sigenc.len() as int) =~= sigenc);
            };
        }
        let has_recover = cs.get_next_bit()?;
        let recover_create_msg = if has_recover {
            match cs.checked_drain_reference() {
                Ok(c) => Some(c),
                Err(e) => {
                    return Err(e);
                },
            }
        } else {
            None
        };
        let has_mint = cs.get_next_bit()?;
        let mint_msg = if has_mint {
            match cs.checked_drain_reference() {
                Ok(c) => Some(c),
                Err(e) => {
                    return Err(e);
                },
            }
        } else {
            None
        };
        let mut copyleft_msgs = CopyleftMessages::new();
        let mut mesh = MeshHashesExt::default();
        if tag == MC_BLOCK_EXTRA_TAG_2 {
            let n = cs.get_next_int(16)?;
            let mut i: u64 = 0;
            while i < n
                invariant
                    old(s).rem_bits().len() >= 16,
                    bits_val(old(s).rem_bits().take(16)) == 0xCCA5 || bits_val(
                        old(s).rem_bits().take(16),
                    ) == 0xDC75 || bits_val(old(s).rem_bits().take(16)) == 0xDC76,
                decreases n - i,
            {
                let m = match cs.checked_drain_reference() {
                    Ok(c) => c,
                    Err(e) => {
                        return Err(e);
                    },
                };
                copyleft_msgs.push(m);
                i = i + 1;
            }
        } else if tag == MC_BLOCK_EXTRA_TAG_3 {
            let n = cs.get_next_int(16)?;
            let mut i: u64 = 0;
            while i < n
                invariant
                    old(s).rem_bits().len() >= 16,
                    bits_val(old(s).rem_bits().take(16)) == 0xCCA5 || bits_val(
                        old(s).rem_bits().take(16),
                    ) == 0xDC75 || bits_val(old(s).rem_bits().take(16)) == 0xDC76,
                decreases n - i,
            {
                proof {
                    lemma2_to64();
                    lemma2_to64_rest();
                }
                let ww = cs.get_next_int(32)?;
                let k = i32_of_word(ww as u32);
                let v = ConnectedNwDescrExt::read_from(&mut cs)?;
                mesh.push(k, v);
                i = i + 1;
            }
        }
        let config = if key_block {
            Some(ConfigParams::read_from(s)?)
        } else {
            None
        };
        Ok(
            McBlockExtra {
                shards,
                fees,
                prev_blk_signatures,
                recover_create_msg,
                copyleft_msgs,
                mint_msg,
                mesh,
                config,
                validators_stat: ValidatorsStat::default(),
                serde_opts,
            },
        )
    }

    /// Reads the fee ledger back.
    fn read_fees(s: &mut SliceData) -> (r: Result<ShardFees, BlockError>)
        ensures
            r.is_ok() ==> final(s).rem_refs() == old(s).rem_refs(),
    {
        proof {
            lemma2_to64();
            lemma2_to64_rest();
        }
        let n = s.get_next_int(16)?;
        let mut fees = ShardFees::default();
        let mut i: u64 = 0;
        while i < n
            invariant
                s.rem_refs() == old(s).rem_refs(),
            decreases n - i,
        {
            proof {
                lemma2_to64();
                lemma2_to64_rest();
            }
            let ww = s.get_next_int(32)?;
            let wc = i32_of_word(ww as u32);
            let prefix = s.get_next_int(64)?;
            let v = ShardFeeCreated::read_from(s)?;
            let _ = fees.set(ShardIdentFull { workchain_id: wc, prefix }, v);
            i = i + 1;
        }
        let _ = ShardFeeCreated::read_from(s)?;
        Ok(fees)
    }

    /// Reads the signature set back; the bits consumed are exactly the
    /// wire form of the set returned.
    fn read_sigs(s: &mut SliceData) -> (r: Result<CryptoSignatures, BlockError>)
        ensures
            r matches Ok(sigs) ==> {
                &&& old(s).rem_bits() == uint_bits(sigs@.len() as u64, 16) + sigs_entries_bits(
                    sigs@,
                ) + final(s).rem_bits()
                &&& final(s).rem_refs() == old(s).rem_refs()
            },
    {
        proof {
            lemma2_to64();
            lemma2_to64_rest();
        }
        let n = s.get_next_int(16)?;
        proof {
            crate::cells::lemma_read_exact(old(s).rem_bits(), 16, n);
            assert(old(s).rem_bits() =~= uint_bits(n, 16) + s.rem_bits());
        }
        let mut sigs = CryptoSignatures::default();
        let mut i: u64 = 0;
        while i < n
            invariant
                i <= n,
                n < 0x1_0000,
                sigs@.len() == i,
                old(s).rem_bits() == uint_bits(n, 16) + sigs_entries_bits(sigs@) + s.rem_bits(),
                s.rem_refs() == old(s).rem_refs(),
            decreases n - i,
        {
            proof {
                lemma2_to64();
                lemma2_to64_rest();
            }
            let ghost sigs0 = sigs@;
            let ghost rem0 = s.rem_bits();
            let k = s.get_next_int(16)?;
            proof {
                crate::cells::lemma_read_exact(rem0, 16, k);
                assert(rem0 =~= uint_bits(k, 16) + s.rem_bits());
            }
            let ghost rem1 = s.rem_bits();
            let v = CryptoSignaturePair::read_from(s)?;
            sigs.push(k as u16, v);
            proof {
                lemma_sigs_entries_push(sigs0, k as u16, v);
                assert(uint_bits(k as u16 as u64, 16) =~= uint_bits(k, 16));
                assert(old(s).rem_bits() =~= uint_bits(n, 16) + sigs_entries_bits(sigs@)
                    + s.rem_bits());
            }
            i = i + 1;
        }
        proof {
            assert(uint_bits(sigs@.len() as u64, 16) =~= uint_bits(n, 16));
        }
        Ok(sigs)
    }
}

/// The wire tag of the state-extension record.
pub const MC_STATE_EXTRA_TAG: u64 = 0xCC26;

/// The flag bit marking block-creation statistics as present.
pub const MC_STATE_CREATE_STATS_FLAG: u64 = 0b0001;

/// The flag bit marking copyleft rewards as present.
pub const MC_STATE_COPYLEFT_FLAG: u64 = 0b0010;

/// The flag bit marking mesh records as present.
pub const MC_STATE_MESH_FLAG: u64 = 0b0100;

/// The flag bit marking validator statistics as present.
pub const MC_STATE_VAL_STAT_FLAG: u64 = 0b1000;

/// Everything the masterchain state keeps beyond the accounts: the shard
/// topology, the configuration, the validator epoch, the key-block index,
/// statistics and balances.
#[derive(Debug)]
pub struct McStateExtra {
    pub shards: crate::topology::ShardHashes,
    pub mesh: MeshHashes,
    pub config: ConfigParams,
    pub validator_info: ValidatorInfo,
    pub prev_blocks: crate::keyblocks::OldMcBlocksInfo,
    pub after_key_block: bool,
    pub last_key_block: Option<ExtBlkRef>,
    pub block_create_stats: Option<crate::counters::BlockCreateStats>,
    pub global_balance: CurrencyCollection,
    pub state_copyleft_rewards: crate::descr::CopyleftRewards,
    pub validators_stat: ValidatorsStat,
}

impl McStateExtra {
    /// Registers or replaces a workchain as one full-prefix shard holding
    /// the given descriptor, and returns the workchain's full shard.
    pub fn add_workchain(&mut self, workchain_id: i32, descr: &ShardDescr) -> (r: Result<
        ShardIdent,
        BlockError,
    >)
        ensures
            match r {
                Ok(id) => {
                    &&& workchain_id != crate::shard::INVALID_WORKCHAIN_ID
                    &&& id.wc_spec() == workchain_id
                    &&& id.key_bits() == Seq::<bool>::empty()
                    &&& ({
                        let i = crate::topology::wc_index(
                            old(self).shards.entries_spec(),
                            workchain_id,
                        );
                        let t = final(self).shards.entries_spec()[(if i >= 0 {
                            i
                        } else {
                            old(self).shards.entries_spec().len() as int
                        })];
                        &&& t.0 == workchain_id
                        &&& t.1.leaves().len() == 1
                        &&& t.1.leaves()[0].0 == Seq::<bool>::empty()
                        &&& t.1.leaves()[0].1@ == descr@
                    })
                },
                Err(e) => e == BlockError::InvalidArg && workchain_id
                    == crate::shard::INVALID_WORKCHAIN_ID,
            },
            *final(self) == (McStateExtra { shards: final(self).shards, ..*old(self) }),
    {
        self.shards.put_workchain(workchain_id, descr.clone());
        ShardIdent::with_workchain_id(workchain_id)
    }

    /// The latest sequence number of the shard stored exactly at the given
    /// prefix, if any.
    pub fn shard_seq_no(&self, ident: &ShardIdent) -> (r: Result<Option<u32>, BlockError>)
        ensures
            match r {
                Ok(res) => match self.shards.tree_of(ident.wc_spec()) {
                    Some(t) => res == (match t.get_spec(ident.key_bits()) {
                        Some(d) => Some(d.seq_no),
                        None => None::<u32>,
                    }),
                    None => res is None,
                },
                Err(_) => false,
            },
    {
        match self.shards.get_shard(ident)? {
            Some(rec) => Ok(Some(rec.descr.seq_no)),
            None => Ok(None),
        }
    }

    /// The latest start logical time of the shard stored exactly at the
    /// given prefix, if any.
    pub fn shard_lt(&self, ident: &ShardIdent) -> (r: Result<Option<u64>, BlockError>)
        ensures
            match r {
                Ok(res) => match self.shards.tree_of(ident.wc_spec()) {
                    Some(t) => res == (match t.get_spec(ident.key_bits()) {
                        Some(d) => Some(d.start_lt),
                        None => None::<u64>,
                    }),
                    None => res is None,
                },
                Err(_) => false,
            },
    {
        match self.shards.get_shard(ident)? {
            Some(rec) => Ok(Some(rec.descr.start_lt)),
            None => Ok(None),
        }
    }

    /// The latest block root hash of the shard stored exactly at the given
    /// prefix, if any.
    pub fn shard_hash(&self, ident: &ShardIdent) -> (r: Result<Option<UInt256>, BlockError>)
        ensures
            match r {
                Ok(res) => match self.shards.tree_of(ident.wc_spec()) {
                    Some(t) => res == (match t.get_spec(ident.key_bits()) {
                        Some(d) => Some(d.root_hash),
                        None => None::<UInt256>,
                    }),
                    None => res is None,
                },
                Err(_) => false,
            },
    {
        match self.shards.get_shard(ident)? {
            Some(rec) => Ok(Some(rec.descr.root_hash)),
            None => Ok(None),
        }
    }

    /// The shard topology.
    pub fn shards(&self) -> (r: &crate::topology::ShardHashes)
        ensures
            r == self.shards,
    {
        &self.shards
    }

    /// The configuration.
    pub fn config(&self) -> (r: &ConfigParams)
        ensures
            r == self.config,
    {
        &self.config
    }

    /// The flag word of the inner cell: one bit per optional part that is
    /// present.
    pub open spec fn flags_spec(self) -> u64 {
        ((if self.block_create_stats is Some {
            MC_STATE_CREATE_STATS_FLAG
        } else {
            0
        }) + (if self.state_copyleft_rewards@.len() > 0 {
            MC_STATE_COPYLEFT_FLAG
        } else {
            0
        }) + (if self.mesh@.len() > 0 {
            MC_STATE_MESH_FLAG
        } else {
            0
        }) + (if self.validators_stat@.len() > 0 {
            MC_STATE_VAL_STAT_FLAG
        } else {
            0
        })) as u64
    }

    /// The bits of the inner cell: the flag word, the validator info, the
    /// key-block index, the key-block marker and reference, then each
    /// optional part its flag announces.
    pub open spec fn c1_bits(self) -> Seq<bool> {
        uint_bits(self.flags_spec(), 16) + self.validator_info.enc_bits()
            + self.prev_blocks.enc_bits() + seq![self.after_key_block] + (
        match self.last_key_block {
            Some(l) => seq![true] + l.enc_bits(),
            None => seq![false],
        }) + (match self.block_create_stats {
            Some(st) => st.enc_bits(),
            None => Seq::<bool>::empty(),
        }) + (if self.state_copyleft_rewards@.len() > 0 {
            self.state_copyleft_rewards.enc_bits()
        } else {
            Seq::<bool>::empty()
        }) + (if self.mesh@.len() > 0 {
            uint_bits(self.mesh@.len() as u64, 16) + mesh_nw_entries_bits(self.mesh@)
        } else {
            Seq::<bool>::empty()
        }) + (if self.validators_stat@.len() > 0 {
            self.validators_stat.enc_bits()
        } else {
            Seq::<bool>::empty()
        })
    }

    /// The inline wire form: the tag, the topology, the configuration,
    /// then the global balance; the inner cell follows as a child.
    pub open spec fn enc_bits(self) -> Seq<bool> {
        uint_bits(MC_STATE_EXTRA_TAG, 16) + self.shards.enc_bits() + self.config.enc_bits()
            + self.global_balance.enc_bits()
    }

    /// The child cells: the topology tries, the parameter dictionary,
    /// then the inner cell.
    pub open spec fn enc_refs(self) -> Seq<CellData> {
        self.shards.enc_refs() + self.config.enc_refs() + seq![
            (CellData { bits: self.c1_bits(), refs: Seq::<CellData>::empty() }),
        ]
    }

    /// Whether the extension can be written: copyleft rewards refuse
    /// validator statistics, and every part fits its count field.
    pub open spec fn encodable_spec(self) -> bool {
        &&& !(self.state_copyleft_rewards@.len() > 0 && self.validators_stat@.len() > 0)
        &&& self.shards.entries_spec().len() < 0x1_0000
        &&& crate::topology::topology_encodable(self.shards.entries_spec())
        &&& self.prev_blocks.entries_seq().len() < 0x1_0000_0000
        &&& (self.block_create_stats matches Some(st) ==> st.counters@.len() < 0x1_0000_0000)
        &&& self.state_copyleft_rewards@.len() < 0x1_0000
        &&& self.mesh@.len() < 0x1_0000
        &&& self.validators_stat@.len() < 0x1_0000
    }

    /// Writes the connected-network descriptors of the state: entry count,
    /// then each network id and descriptor. Succeeds exactly when the
    /// count fits its field.
    fn write_mesh_records(&self, b: &mut BuilderData) -> (r: Result<(), BlockError>)
        ensures
            r.is_ok() <==> self.mesh@.len() < 0x1_0000,
            r.is_ok() ==> final(b).bits_spec() == (old(b).bits_spec() + uint_bits(
                self.mesh@.len() as u64,
                16,
            )) + mesh_nw_entries_bits(self.mesh@) && final(b).refs_spec() == old(b).refs_spec(),
            r matches Err(e) ==> e == BlockError::IntOverflow,
    {
        proof {
            lemma2_to64();
            lemma2_to64_rest();
        }
        let entries = self.mesh.entries();
        if (entries.len() as u64) >= 0x1_0000u64 {
            return Err(BlockError::IntOverflow);
        }
        b.append_bits(entries.len() as u64, 16);
        let ghost base = old(b).bits_spec() + uint_bits(self.mesh@.len() as u64, 16);
        let ghost es = self.mesh@;
        let mut i: usize = 0;
        while i < entries.len()
            invariant
                i <= es.len(),
                entries@ == es,
                es == self.mesh@,
                es.len() < 0x1_0000,
                base == old(b).bits_spec() + uint_bits(es.len() as u64, 16),
                b.bits_spec() =~= base + mesh_nw_entries_bits(es.take(i as int)),
                b.refs_spec() == old(b).refs_spec(),
            decreases es.len() - i,
        {
            let (k, v) = &entries[i];
            proof {
                lemma2_to64();
                lemma2_to64_rest();
            }
            b.append_bits(wc_word_exec(*k) as u64, 32);
            let _ = v.write_to(b);
            proof {
                lemma_mesh_nw_entries_push(es.take(i as int), *k, *v);
                assert(es.take(i as int).push((*k, *v)) =~= es.take(i as int + 1));
            }
            i = i + 1;
        }
        proof {
            assert(es.take(es.len() as int) =~= es);
            assert(final(b).bits_spec() =~= base + mesh_nw_entries_bits(es));
        }
        Ok(())
    }

    /// Builds the inner cell; succeeds exactly when every optional part
    /// fits its count field.
    #[verifier::rlimit(100)]
    fn build_inner_cell(&self) -> (r: Result<Cell, BlockError>)
        ensures
            r.is_ok() <==> (self.prev_blocks.entries_seq().len() < 0x1_0000_0000 && (
            self.block_create_stats matches Some(st) ==> st.counters@.len() < 0x1_0000_0000)
                && self.state_copyleft_rewards@.len() < 0x1_0000 && self.mesh@.len() < 0x1_0000
                && self.validators_stat@.len() < 0x1_0000),
            r matches Ok(c) ==> c@ == (CellData {
                bits: self.c1_bits(),
                refs: Seq::<CellData>::empty(),
            }),
    {
        proof {
            lemma2_to64();
            lemma2_to64_rest();
        }
        let has_copyleft = !self.state_copyleft_rewards.is_empty();
        let has_val_stat = !self.validators_stat.is_empty();
        let mut c1 = BuilderData::new();
        let mut flags: u64 = 0;
        if self.block_create_stats.is_some() {
            flags = flags + MC_STATE_CREATE_STATS_FLAG;
        }
        if has_copyleft {
            flags = flags + MC_STATE_COPYLEFT_FLAG;
        }
        if !self.mesh.is_empty() {
            flags = flags + MC_STATE_MESH_FLAG;
        }
        if has_val_stat {
            flags = flags + MC_STATE_VAL_STAT_FLAG;
        }
        c1.append_bits(flags, 16);
        let _ = self.validator_info.write_to(&mut c1);
        let ghost q1 = uint_bits(self.flags_spec(), 16) + self.validator_info.enc_bits();
        proof {
            assert(c1.bits_spec() =~= q1);
        }
        self.prev_blocks.write_to(&mut c1)?;
        c1.append_bit(self.after_key_block);
        let ghost q2 = q1 + self.prev_blocks.enc_bits() + seq![self.after_key_block];
        proof {
            assert(c1.bits_spec() =~= q2);
        }
        match &self.last_key_block {
            Some(lkb) => {
                c1.append_bit(true);
                let _ = lkb.write_to(&mut c1);
            },
            None => {
                c1.append_bit(false);
            },
        }
        let ghost q3 = q2 + (match &self.last_key_block {
            Some(l) => seq![true] + l.enc_bits(),
            None => seq![false],
        });
        proof {
            assert(c1.bits_spec() =~= q3);
        }
        match &self.block_create_stats {
            Some(st) => {
                st.write_to(&mut c1)?;
            },
            None => {},
        }
        let ghost q4 = q3 + (match &self.block_create_stats {
            Some(st) => st.enc_bits(),
            None => Seq::<bool>::empty(),
        });
        proof {
            assert(c1.bits_spec() =~= q4);
        }
        if has_copyleft {
            self.state_copyleft_rewards.write_to(&mut c1)?;
        }
        let ghost q5 = q4 + (if self.state_copyleft_rewards@.len() > 0 {
            self.state_copyleft_rewards.enc_bits()
        } else {
            Seq::<bool>::empty()
        });
        proof {
            assert(c1.bits_spec() =~= q5);
        }
        if !self.mesh.is_empty() {
            self.write_mesh_records(&mut c1)?;
        }
        let ghost q6 = q5 + (if self.mesh@.len() > 0 {
            uint_bits(self.mesh@.len() as u64, 16) + mesh_nw_entries_bits(self.mesh@)
        } else {
            Seq::<bool>::empty()
        });
        proof {
            if self.mesh@.len() > 0 {
                vstd::seq_lib::lemma_concat_associative(
                    q5,
                    uint_bits(self.mesh@.len() as u64, 16),
                    mesh_nw_entries_bits(self.mesh@),
                );
            } else {
                assert(q6 =~= q5);
            }
            assert(c1.bits_spec() == q6);
        }
        if has_val_stat {
            self.validators_stat.write_to(&mut c1)?;
        }
        proof {
            assert(c1.bits_spec() =~= self.c1_bits());
            assert(c1.refs_spec() =~= Seq::<CellData>::empty());
        }
        Ok(c1.into_cell())
    }

    /// Writes the state extension; succeeds exactly when it is encodable,
    /// appending its wire form bit for bit.
    pub fn write_to(&self, b: &mut BuilderData) -> (r: Result<(), BlockError>)
        ensures
            r.is_ok() <==> self.encodable_spec(),
            r.is_ok() ==> final(b).bits_spec() == old(b).bits_spec() + self.enc_bits() && final(b).refs_spec() == old(b).refs_spec() + self.enc_refs(),
            r matches Err(e) ==> (self.state_copyleft_rewards@.len() > 0
                && self.validators_stat@.len() > 0 ==> e == BlockError::UnsupportedCombination),
    {
        proof {
            lemma2_to64();
            lemma2_to64_rest();
        }
        let has_copyleft = !self.state_copyleft_rewards.is_empty();
        let has_val_stat = !self.validators_stat.is_empty();
        if has_copyleft && has_val_stat {
            return Err(BlockError::UnsupportedCombination);
        }
        b.append_bits(MC_STATE_EXTRA_TAG, 16);
        let ghost pre1 = uint_bits(MC_STATE_EXTRA_TAG, 16);
        self.shards.write_to(b)?;
        let ghost pre2 = pre1 + self.shards.enc_bits();
        proof {
            vstd::seq_lib::lemma_concat_associative(
                old(b).bits_spec(),
                pre1,
                self.shards.enc_bits(),
            );
            assert(b.refs_spec() =~= old(b).refs_spec() + self.shards.enc_refs());
        }
        let _ = self.config.write_to(b);
        let ghost pre3 = pre2 + self.config.enc_bits();
        proof {
            vstd::seq_lib::lemma_concat_associative(
                old(b).bits_spec(),
                pre2,
                self.config.enc_bits(),
            );
        }
        let c1 = self.build_inner_cell()?;
        b.append_reference(c1);
        proof {
            assert(b.refs_spec() =~= old(b).refs_spec() + self.enc_refs());
        }
        let _ = self.global_balance.write_to(b);
        proof {
            vstd::seq_lib::lemma_concat_associative(
                old(b).bits_spec(),
                pre3,
                self.global_balance.enc_bits(),
            );
            assert(final(b).bits_spec() =~= old(b).bits_spec() + self.enc_bits());
            assert(final(b).refs_spec() =~= old(b).refs_spec() + self.enc_refs());
        }
        Ok(())
    }

    /// Reads a state extension back; fails naming the tag when it is not
    /// the expected one, and with a data error on flags past the accepted
    /// mask or on copyleft rewards meeting validator statistics.
    pub fn read_from(s: &mut SliceData) -> (r: Result<McStateExtra, BlockError>)
        ensures
            old(s).rem_bits().len() < 16 ==> r == Err::<Self, BlockError>(
                BlockError::CellUnderflow,
            ),
            old(s).rem_bits().len() >= 16 && !(bits_val(old(s).rem_bits().take(16)) == 0xCC26) ==> (r matches Err(e2) && e2 == (
            BlockError::InvalidConstructorTag { t: (bits_val(old(s).rem_bits().take(16)) as u64) })),
            match r {
                Ok(x) => {
                    let c1b = old(s).rem_refs()[x.shards.enc_refs().len() as int + 1].bits;
                    &&& !(x.state_copyleft_rewards@.len() > 0 && x.validators_stat@.len() > 0)
                    &&& x.shards.enc_bits().is_prefix_of(old(s).rem_bits().skip(16))
                    &&& x.shards.enc_refs().is_prefix_of(old(s).rem_refs())
                    &&& x.shards.enc_refs().len() + 2 <= old(s).rem_refs().len()
                    &&& x.config.enc_bits().is_prefix_of(
                        old(s).rem_bits().skip(16 + x.shards.enc_bits().len() as int),
                    )
                    &&& x.config.enc_refs() == seq![
                        old(s).rem_refs()[x.shards.enc_refs().len() as int],
                    ]
                    &&& c1b.len() >= 16
                    &&& (x.block_create_stats is Some <==> bits_val(c1b.take(16)) as u64
                        & MC_STATE_CREATE_STATS_FLAG != 0)
                    &&& (x.state_copyleft_rewards@.len() > 0 <==> bits_val(c1b.take(16)) as u64
                        & MC_STATE_COPYLEFT_FLAG != 0)
                    &&& (x.validators_stat@.len() > 0 <==> bits_val(c1b.take(16)) as u64
                        & MC_STATE_VAL_STAT_FLAG != 0)
                },
                Err(_) => true,
            },
    {
        proof {
            lemma2_to64();
            lemma2_to64_rest();
        }
        let tag = s.get_next_int(16)?;
        if tag != MC_STATE_EXTRA_TAG {
            return Err(BlockError::InvalidConstructorTag { t: tag });
        }
        let shards = crate::topology::ShardHashes::read_from(s)?;
        proof {
            assert(shards.enc_bits().is_prefix_of(old(s).rem_bits().skip(16))) by {
                assert((shards.enc_bits() + s.rem_bits()).take(shards.enc_bits().len() as int)
                    =~= shards.enc_bits());
            };
            assert(shards.enc_refs().is_prefix_of(old(s).rem_refs())) by {
                assert((shards.enc_refs() + s.rem_refs()).take(shards.enc_refs().len() as int)
                    =~= shards.enc_refs());
            };
            assert(s.rem_refs() =~= old(s).rem_refs().skip(shards.enc_refs().len() as int));
        }
        let config = ConfigParams::read_from(s)?;
        proof {
            assert(config.enc_bits().is_prefix_of(
                old(s).rem_bits().skip(16 + shards.enc_bits().len() as int),
            )) by {
                assert(old(s).rem_bits().skip(16).skip(shards.enc_bits().len() as int) =~= old(
                    s,
                ).rem_bits().skip(16 + shards.enc_bits().len() as int));
                assert((config.enc_bits() + s.rem_bits()).take(config.enc_bits().len() as int)
                    =~= config.enc_bits());
            };
            assert(config.enc_refs() =~= seq![
                old(s).rem_refs()[shards.enc_refs().len() as int],
            ]);
            assert(s.rem_refs() =~= old(s).rem_refs().skip(shards.enc_refs().len() as int + 1));
        }
        let c1 = match s.checked_drain_reference() {
            Ok(c) => c,
            Err(e) => {
                return Err(e);
            },
        };
        proof {
            assert(c1@ == old(s).rem_refs()[shards.enc_refs().len() as int + 1]);
        }
        let mut cs = SliceData::load_cell(c1);
        let flags = cs.get_next_int(16)?;
        if flags > 15 {
            return Err(BlockError::InvalidData);
        }
        let validator_info = ValidatorInfo::read_from(&mut cs)?;
        let prev_blocks = crate::keyblocks::OldMcBlocksInfo::read_from(&mut cs)?;
        let after_key_block = cs.get_next_bit()?;
        let has_lkb = cs.get_next_bit()?;
        let last_key_block = if has_lkb {
            Some(ExtBlkRef::read_from(&mut cs)?)
        } else {
            None
        };
        let block_create_stats = if flags & MC_STATE_CREATE_STATS_FLAG != 0 {
            Some(crate::counters::BlockCreateStats::read_from(&mut cs)?)
        } else {
            None
        };
        let flag_copyleft = flags & MC_STATE_COPYLEFT_FLAG != 0;
        let flag_val_stat = flags & MC_STATE_VAL_STAT_FLAG != 0;
        if flag_copyleft && flag_val_stat {
            return Err(BlockError::InvalidData);
        }
        let state_copyleft_rewards = if flag_copyleft {
            let cl = crate::descr::CopyleftRewards::read_from(&mut cs)?;
            if cl.is_empty() {
                return Err(BlockError::InvalidData);
            }
            cl
        } else {
            crate::descr::CopyleftRewards::default()
        };
        let ghost c1b = old(s).rem_refs()[shards.enc_refs().len() as int + 1].bits;
        proof {
            assert(c1b.len() >= 16);
            assert(bits_val(c1b.take(16)) == flags as nat);
        }
        let mut mesh = MeshHashes::default();
        if flags & MC_STATE_MESH_FLAG != 0 {
            let n = cs.get_next_int(16)?;
            let mut i: u64 = 0;
            while i < n
                invariant
                    old(s).rem_bits().len() >= 16,
                    bits_val(old(s).rem_bits().take(16)) == 0xCC26,
                    shards.enc_bits().is_prefix_of(old(s).rem_bits().skip(16)),
                    shards.enc_refs().is_prefix_of(old(s).rem_refs()),
                    shards.enc_refs().len() + 2 <= old(s).rem_refs().len(),
                    config.enc_bits().is_prefix_of(
                        old(s).rem_bits().skip(16 + shards.enc_bits().len() as int),
                    ),
                    config.enc_refs() == seq![
                        old(s).rem_refs()[shards.enc_refs().len() as int],
                    ],
                    c1b == old(s).rem_refs()[shards.enc_refs().len() as int + 1].bits,
                    c1b.len() >= 16,
                    bits_val(c1b.take(16)) == flags as nat,
                    flags <= 15,
                    block_create_stats is Some <==> flags & MC_STATE_CREATE_STATS_FLAG != 0,
                    state_copyleft_rewards@.len() > 0 <==> flags & MC_STATE_COPYLEFT_FLAG != 0,
                    flag_val_stat == (flags & MC_STATE_VAL_STAT_FLAG != 0),
                decreases n - i,
            {
                proof {
                    lemma2_to64();
                    lemma2_to64_rest();
                }
                let ww = cs.get_next_int(32)?;
                let k = i32_of_word(ww as u32);
                let v = ConnectedNwDescr::read_from(&mut cs)?;
                mesh.push(k, v);
                i = i + 1;
            }
        }
        let validators_stat = if flag_val_stat {
            let st = ValidatorsStat::read_from(&mut cs)?;
            if st.is_empty() {
                return Err(BlockError::InvalidData);
            }
            st
        } else {
            ValidatorsStat::default()
        };
        let global_balance = CurrencyCollection::read_from(s)?;
        Ok(
            McStateExtra {
                shards,
                mesh,
                config,
                validator_info,
                prev_blocks,
                after_key_block,
                last_key_block,
                block_create_stats,
                global_balance,
                state_copyleft_rewards,
                validators_stat,
            },
        )
    }
}

} // verus!
