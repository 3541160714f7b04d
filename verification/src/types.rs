//! Plain value types of the masterchain state: 256-bit hashes, block
//! references, and currency totals, each with its bit-exact encoding.

use vstd::prelude::*;
use vstd::arithmetic::power2::{pow2, lemma_pow2_unfold, lemma_pow2_pos, lemma2_to64, lemma2_to64_rest, lemma_pow2_adds, lemma_pow2_strictly_increases};
use vstd::bits::lemma_u64_shr_is_div;

use crate::cells::{uint_bits, lemma_uint_head, BuilderData, SliceData};
use crate::error::BlockError;
use crate::shard::ShardIdent;

verus! {

broadcast use vstd::seq::group_seq_axioms;

/// A 256-bit hash, held as four 64-bit words, most significant first.
#[derive(Clone, Copy, Debug, Default, PartialEq, Eq, Structural, Hash)]
pub struct UInt256 {
    pub w0: u64,
    pub w1: u64,
    pub w2: u64,
    pub w3: u64,
}

impl UInt256 {
    /// Packs four words, most significant first.
    pub fn with_words(w0: u64, w1: u64, w2: u64, w3: u64) -> (r: UInt256)
        ensures
            r == (UInt256 { w0, w1, w2, w3 }),
    {
        UInt256 { w0, w1, w2, w3 }
    }

    /// The 256 bits of the hash.
    pub open spec fn enc_bits(self) -> Seq<bool> {
        uint_bits(self.w0, 64) + uint_bits(self.w1, 64) + uint_bits(self.w2, 64) + uint_bits(
            self.w3,
            64,
        )
    }

    /// Equal encodings come from equal hashes.
    pub proof fn lemma_enc_injective(a: UInt256, b: UInt256)
        requires
            a.enc_bits() == b.enc_bits(),
        ensures
            a == b,
    {
        lemma2_to64();
        lemma2_to64_rest();
        let ta = uint_bits(a.w1, 64) + (uint_bits(a.w2, 64) + uint_bits(a.w3, 64));
        let tb = uint_bits(b.w1, 64) + (uint_bits(b.w2, 64) + uint_bits(b.w3, 64));
        assert(uint_bits(a.w0, 64) + ta == uint_bits(b.w0, 64) + tb) by {
            assert(a.enc_bits() =~= uint_bits(a.w0, 64) + ta);
            assert(b.enc_bits() =~= uint_bits(b.w0, 64) + tb);
        };
        lemma_uint_head(a.w0, b.w0, 64, ta, tb);
        lemma_uint_head(a.w1, b.w1, 64, uint_bits(a.w2, 64) + uint_bits(a.w3, 64), uint_bits(b.w2, 64) + uint_bits(b.w3, 64));
        lemma_uint_head(a.w2, b.w2, 64, uint_bits(a.w3, 64), uint_bits(b.w3, 64));
        lemma_uint_head(a.w3, b.w3, 64, Seq::<bool>::empty(), Seq::<bool>::empty());
    }

    /// Writes the 256 bits.
    pub fn write_to(&self, b: &mut BuilderData) -> (r: Result<(), BlockError>)
        ensures
            r.is_ok(),
            final(b).bits_spec() == old(b).bits_spec() + self.enc_bits(),
            final(b).refs_spec() == old(b).refs_spec(),
    {
        proof {
            lemma2_to64();
            lemma2_to64_rest();
        }
        b.append_bits(self.w0, 64);
        b.append_bits(self.w1, 64);
        b.append_bits(self.w2, 64);
        b.append_bits(self.w3, 64);
        proof {
            assert(final(b).bits_spec() =~= old(b).bits_spec() + self.enc_bits());
        }
        Ok(())
    }

    /// Reads 256 bits; succeeds exactly when that many are left, and
    /// consumes exactly the hash's encoding.
    pub fn read_from(s: &mut SliceData) -> (r: Result<UInt256, BlockError>)
        ensures
            match r {
                Ok(h) => {
                    &&& old(s).rem_bits().len() >= 256
                    &&& old(s).rem_bits().take(256) == h.enc_bits()
                    &&& final(s).rem_bits() == old(s).rem_bits().skip(256)
                    &&& final(s).rem_refs() == old(s).rem_refs()
                },
                Err(e) => e == BlockError::CellUnderflow && old(s).rem_bits().len() < 256,
            },
    {
        proof {
            lemma2_to64();
            lemma2_to64_rest();
        }
        let ghost rem0 = s.rem_bits();
        let w0 = s.get_next_int(64)?;
        let ghost rem1 = s.rem_bits();
        let w1 = s.get_next_int(64)?;
        let ghost rem2 = s.rem_bits();
        let w2 = s.get_next_int(64)?;
        let ghost rem3 = s.rem_bits();
        let w3 = s.get_next_int(64)?;
        let h = UInt256 { w0, w1, w2, w3 };
        proof {
            crate::cells::lemma_read_exact(rem0, 64, w0);
            crate::cells::lemma_read_exact(rem1, 64, w1);
            crate::cells::lemma_read_exact(rem2, 64, w2);
            crate::cells::lemma_read_exact(rem3, 64, w3);
            assert(h.enc_bits() =~= rem0.take(64) + (rem1.take(64) + (rem2.take(64) + rem3.take(
                64,
            ))));
            assert(rem0.take(256) =~= rem0.take(64) + (rem1.take(64) + (rem2.take(64) + rem3.take(
                64,
            ))));
            assert(final(s).rem_bits() =~= old(s).rem_bits().skip(256));
        }
        Ok(h)
    }
}

/// How many bytes the minimal big-endian form of a value needs.
pub open spec fn min_bytes(v: u64) -> nat
    decreases v,
{
    if v == 0 {
        0
    } else {
        1 + min_bytes(v / 256)
    }
}

/// The minimal byte length is at most eight, and bounds the value.
pub proof fn lemma_min_bytes(v: u64)
    ensures
        min_bytes(v) <= 8,
        (v as nat) < pow2(8 * min_bytes(v)),
        min_bytes(v) > 0 ==> (v as nat) >= pow2((8 * (min_bytes(v) - 1)) as nat),
    decreases v,
{
    lemma2_to64();
    lemma2_to64_rest();
    if v != 0 {
        lemma_min_bytes(v / 256);
        let m = min_bytes(v / 256);
        assert(pow2(8 * (m + 1)) == pow2(8 * m) * 256) by {
            lemma_pow2_adds(8 * m, 8);
        };
        assert((v as nat) < pow2(8 * m) * 256) by (nonlinear_arith)
            requires
                (v as nat) / 256 < pow2(8 * m),
        ;
        if m > 0 {
            assert(pow2(8 * m) == pow2((8 * (m - 1)) as nat) * 256) by {
                lemma_pow2_adds((8 * (m - 1)) as nat, 8);
            };
            assert((v as nat) >= pow2((8 * (m - 1)) as nat) * 256) by (nonlinear_arith)
                requires
                    (v as nat) / 256 >= pow2((8 * (m - 1)) as nat),
            ;
        }
    }
}

/// The variable-width integer wire form: a byte count of `lw` bits, then
/// that many bytes of value, minimal-length.
pub open spec fn var_uint_bits(v: u64, lw: nat) -> Seq<bool> {
    uint_bits(min_bytes(v) as u64, lw) + uint_bits(v, 8 * min_bytes(v))
}

/// Writes a value in variable-width form with an `lw`-bit length field.
pub fn write_var_uint(b: &mut BuilderData, v: u64, lw: usize) -> (r: Result<(), BlockError>)
    requires
        4 <= lw <= 5,
    ensures
        r.is_ok(),
        final(b).bits_spec() == old(b).bits_spec() + var_uint_bits(v, lw as nat),
        final(b).refs_spec() == old(b).refs_spec(),
{
    proof {
        lemma2_to64();
        lemma2_to64_rest();
        lemma_min_bytes(v);
    }
    let mut len: usize = 0;
    let mut cur: u64 = v;
    proof {
        assert(pow2(0) == 1);
        assert(v as nat / 1 == v as nat);
    }
    while cur != 0
        invariant
            len <= 8,
            min_bytes(v) == len + min_bytes(cur),
            cur as nat == v as nat / pow2((8 * len) as nat),
        decreases cur,
    {
        proof {
            lemma2_to64();
            lemma_pow2_pos((8 * len) as nat);
            lemma_pow2_adds((8 * len) as nat, 8);
            vstd::arithmetic::div_mod::lemma_div_denominator(
                v as int,
                pow2((8 * len) as nat) as int,
                256,
            );
            lemma_min_bytes(v);
            assert(min_bytes(cur) == 1 + min_bytes(cur / 256));
        }
        cur = cur / 256;
        len = len + 1;
    }
    proof {
        assert(min_bytes(v) == len);
        lemma_min_bytes(v);
    }
    b.append_bits(len as u64, lw);
    b.append_bits(v, 8 * len);
    proof {
        assert(final(b).bits_spec() =~= old(b).bits_spec() + var_uint_bits(v, lw as nat));
    }
    Ok(())
}

/// Reads a variable-width integer with an `lw`-bit length field. Succeeds
/// exactly on a minimal-length form of at most eight bytes with enough bits
/// left, and consumes exactly that form.
pub fn read_var_uint(s: &mut SliceData, lw: usize) -> (r: Result<u64, BlockError>)
    requires
        4 <= lw <= 5,
    ensures
        match r {
            Ok(v) => {
                &&& old(s).rem_bits().len() >= lw + 8 * min_bytes(v)
                &&& old(s).rem_bits().take((lw + 8 * min_bytes(v)) as int) == var_uint_bits(
                    v,
                    lw as nat,
                )
                &&& final(s).rem_bits() == old(s).rem_bits().skip(
                    (lw + 8 * min_bytes(v)) as int,
                )
                &&& final(s).rem_refs() == old(s).rem_refs()
            },
            Err(e) => e == BlockError::CellUnderflow || e == BlockError::InvalidData,
        },
        forall|vv: u64|
            (#[trigger] var_uint_bits(vv, lw as nat)).is_prefix_of(old(s).rem_bits()) ==> r
                == Ok::<u64, BlockError>(vv),
{
    proof {
        lemma2_to64();
        lemma2_to64_rest();
    }
    let ghost rem0 = s.rem_bits();
    let ghost pre = |vv: u64| var_uint_bits(vv, lw as nat).is_prefix_of(rem0);
    proof {
        assert forall|vv: u64| #[trigger] var_uint_bits(vv, lw as nat).is_prefix_of(rem0)
            implies rem0.len() >= lw && crate::cells::bits_val(rem0.take(lw as int)) == min_bytes(vv)
            && min_bytes(vv) <= 8 by {
            lemma_min_bytes(vv);
            crate::cells::lemma_prefix_parts(
                uint_bits(min_bytes(vv) as u64, lw as nat),
                uint_bits(vv, 8 * min_bytes(vv)),
                rem0,
            );
            crate::cells::lemma_uint_prefix(min_bytes(vv) as u64, lw as nat, rem0);
            assert(pow2(lw as nat) >= 16) by {
                if lw == 5 {
                    assert(pow2(5) == 32);
                } else {
                    assert(pow2(4) == 16);
                }
            };
        };
    }
    let len = s.get_next_int(lw)?;
    if len > 8 {
        return Err(BlockError::InvalidData);
    }
    let len_us: usize = len as usize;
    let ghost rem1 = s.rem_bits();
    proof {
        assert forall|vv: u64| #[trigger] var_uint_bits(vv, lw as nat).is_prefix_of(rem0)
            implies rem1.len() >= 8 * min_bytes(vv) && crate::cells::bits_val(
            rem1.take((8 * min_bytes(vv)) as int),
        ) == vv by {
            lemma_min_bytes(vv);
            crate::cells::lemma_prefix_parts(
                uint_bits(min_bytes(vv) as u64, lw as nat),
                uint_bits(vv, 8 * min_bytes(vv)),
                rem0,
            );
            crate::cells::lemma_uint_prefix(vv, 8 * min_bytes(vv), rem1);
        };
    }
    let v = s.get_next_int(8 * len_us)?;
    // reject non-minimal forms so that every accepted stream re-encodes
    // to itself
    if len_us > 0 {
        let sh: u64 = (8 * (len_us - 1)) as u64;
        if (v >> sh) == 0 {
            proof {
                lemma_u64_shr_is_div(v, sh);
                lemma_pow2_pos(sh as nat);
                assert forall|vv: u64|
                    !(#[trigger] var_uint_bits(vv, lw as nat)).is_prefix_of(rem0) by {
                    if var_uint_bits(vv, lw as nat).is_prefix_of(rem0) {
                        assert(min_bytes(vv) == len_us);
                        assert(vv == v);
                        lemma_min_bytes(v);
                        assert(v as nat >= pow2((8 * (len_us - 1)) as nat));
                        let p = pow2(sh as nat) as int;
                        vstd::arithmetic::div_mod::lemma_fundamental_div_mod(v as int, p);
                        vstd::arithmetic::div_mod::lemma_mod_bound(v as int, p);
                        assert((v as int) < p) by (nonlinear_arith)
                            requires
                                p > 0,
                                v as int / p == 0,
                                v as int == p * (v as int / p) + (v as int % p),
                                0 <= v as int % p < p,
                        ;
                    }
                };
            }
            return Err(BlockError::InvalidData);
        }
        proof {
            lemma_u64_shr_is_div(v, sh);
            lemma_pow2_pos(sh as nat);
            let p = pow2(sh as nat) as int;
            vstd::arithmetic::div_mod::lemma_fundamental_div_mod(v as int, p);
            assert(v as nat >= pow2(sh as nat)) by (nonlinear_arith)
                requires
                    p > 0,
                    v as int / p >= 1,
                    v as int == p * (v as int / p) + (v as int % p),
                    v as int % p >= 0,
                    p == pow2(sh as nat),
            ;
        }
    }
    proof {
        // v has exactly len_us minimal bytes
        lemma_min_bytes(v);
        if min_bytes(v) < len_us {
            lemma_pow2_strictly_increases(8 * min_bytes(v), (8 * (len_us - 1)) as nat);
        }
        if min_bytes(v) > len_us {
            lemma_pow2_strictly_increases((8 * len_us) as nat, (8 * (min_bytes(v) - 1)) as nat);
        }
        assert(min_bytes(v) == len_us);
        crate::cells::lemma_read_exact(rem0, lw as nat, len);
        crate::cells::lemma_read_exact(rem1, (8 * len_us) as nat, v);
        assert(rem0.take((lw + 8 * len_us) as int) =~= rem0.take(lw as int) + rem1.take(
            (8 * len_us) as int,
        ));
        assert(var_uint_bits(v, lw as nat) =~= rem0.take(lw as int) + rem1.take(
            (8 * len_us) as int,
        ));
        assert(final(s).rem_bits() =~= old(s).rem_bits().skip((lw + 8 * len_us) as int));
    }
    Ok(v)
}

/// A currency total: a grams amount plus an always-empty extra-currency
/// dictionary marker.
#[derive(Clone, Copy, Debug, Default, PartialEq, Eq, Structural, Hash)]
pub struct CurrencyCollection {
    pub grams: u64,
}

impl CurrencyCollection {
    /// A total of the given grams.
    pub fn with_grams(grams: u64) -> (r: CurrencyCollection)
        ensures
            r.grams == grams,
    {
        CurrencyCollection { grams }
    }

    /// Adds another total into this one; fails on overflow with the value
    /// unchanged, exactly when the mathematical sum exceeds the range.
    pub fn calc(&mut self, other: &CurrencyCollection) -> (r: Result<bool, BlockError>)
        ensures
            match r {
                Ok(b) => b && old(self).grams + other.grams <= u64::MAX && final(self).grams == old(
                    self,
                ).grams + other.grams,
                Err(e) => e == BlockError::IntOverflow && old(self).grams + other.grams > u64::MAX
                    && *final(self) == *old(self),
            },
    {
        if self.grams > u64::MAX - other.grams {
            return Err(BlockError::IntOverflow);
        }
        self.grams = self.grams + other.grams;
        Ok(true)
    }

    /// The wire form: grams in variable-width form, then one zero bit for
    /// the empty extra-currency dictionary.
    pub open spec fn enc_bits(self) -> Seq<bool> {
        var_uint_bits(self.grams, 4).push(false)
    }

    /// Writes the total.
    pub fn write_to(&self, b: &mut BuilderData) -> (r: Result<(), BlockError>)
        ensures
            r.is_ok(),
            final(b).bits_spec() == old(b).bits_spec() + self.enc_bits(),
            final(b).refs_spec() == old(b).refs_spec(),
    {
        write_var_uint(b, self.grams, 4)?;
        b.append_bit(false);
        Ok(())
    }

    /// Reads a total; consumes exactly its encoding on success, and a
    /// stream that begins with any total's encoding yields exactly that
    /// total.
    pub fn read_from(s: &mut SliceData) -> (r: Result<CurrencyCollection, BlockError>)
        ensures
            match r {
                Ok(c) => {
                    &&& old(s).rem_bits().len() >= c.enc_bits().len()
                    &&& old(s).rem_bits().take(c.enc_bits().len() as int) == c.enc_bits()
                    &&& final(s).rem_bits() == old(s).rem_bits().skip(c.enc_bits().len() as int)
                    &&& final(s).rem_refs() == old(s).rem_refs()
                },
                Err(e) => e == BlockError::CellUnderflow || e == BlockError::InvalidData,
            },
            forall|c: CurrencyCollection|
                (#[trigger] c.enc_bits()).is_prefix_of(old(s).rem_bits()) ==> r == Ok::<
                    CurrencyCollection,
                    BlockError,
                >(c),
    {
        let ghost rem0 = s.rem_bits();
        proof {
            assert forall|c: CurrencyCollection| #[trigger] c.enc_bits().is_prefix_of(rem0)
                implies var_uint_bits(c.grams, 4).is_prefix_of(rem0) && rem0.skip(
                (4 + 8 * min_bytes(c.grams)) as int,
            )[0] == false by {
                assert(c.enc_bits() =~= var_uint_bits(c.grams, 4) + seq![false]);
                crate::cells::lemma_prefix_parts(var_uint_bits(c.grams, 4), seq![false], rem0);
                let m = var_uint_bits(c.grams, 4).len() as int;
                assert(seq![false].is_prefix_of(rem0.skip(m)));
                assert(m == 4 + 8 * min_bytes(c.grams));
                assert(rem0.skip(m)[0] == seq![false][0]);
            };
        }
        let grams = read_var_uint(s, 4)?;
        let ghost rem1 = s.rem_bits();
        let extra = match s.get_next_bit() {
            Ok(b) => b,
            Err(e) => {
                proof {
                    assert forall|c: CurrencyCollection|
                        !(#[trigger] c.enc_bits()).is_prefix_of(rem0) by {
                        if c.enc_bits().is_prefix_of(rem0) {
                            assert(c.grams == grams);
                            assert(rem0.len() >= c.enc_bits().len());
                        }
                    };
                }
                return Err(e);
            },
        };
        if extra {
            proof {
                assert forall|c: CurrencyCollection|
                    !(#[trigger] c.enc_bits()).is_prefix_of(rem0) by {
                    if c.enc_bits().is_prefix_of(rem0) {
                        assert(c.grams == grams);
                        assert(rem1 == rem0.skip((4 + 8 * min_bytes(grams)) as int));
                    }
                };
            }
            return Err(BlockError::InvalidData);
        }
        let c = CurrencyCollection { grams };
        proof {
            let n = (4 + 8 * min_bytes(grams)) as int;
            assert(c.enc_bits().len() == n + 1);
            assert(rem0.take(n + 1) =~= rem0.take(n).push(rem1[0]));
            assert(c.enc_bits() =~= rem0.take(n).push(false));
            assert(final(s).rem_bits() =~= old(s).rem_bits().skip(n + 1));
            assert forall|c2: CurrencyCollection| (#[trigger] c2.enc_bits()).is_prefix_of(rem0)
                implies c2 == c by {
                assert(c2.grams == grams);
            };
        }
        Ok(c)
    }
}

/// A reference to an external block: its logical-time upper bound, sequence
/// number, and hashes.
#[derive(Clone, Copy, Debug, Default, PartialEq, Eq, Structural, Hash)]
pub struct ExtBlkRef {
    pub end_lt: u64,
    pub seq_no: u32,
    pub root_hash: UInt256,
    pub file_hash: UInt256,
}

impl ExtBlkRef {
    /// The 608-bit wire form.
    pub open spec fn enc_bits(self) -> Seq<bool> {
        uint_bits(self.end_lt, 64) + uint_bits(self.seq_no as u64, 32) + self.root_hash.enc_bits()
            + self.file_hash.enc_bits()
    }

    /// Equal encodings come from equal references.
    pub proof fn lemma_enc_injective(a: ExtBlkRef, b: ExtBlkRef)
        requires
            a.enc_bits() == b.enc_bits(),
        ensures
            a == b,
    {
        lemma2_to64();
        lemma2_to64_rest();
        let ta = uint_bits(a.seq_no as u64, 32) + (a.root_hash.enc_bits() + a.file_hash.enc_bits());
        let tb = uint_bits(b.seq_no as u64, 32) + (b.root_hash.enc_bits() + b.file_hash.enc_bits());
        assert(uint_bits(a.end_lt, 64) + ta == uint_bits(b.end_lt, 64) + tb) by {
            assert(a.enc_bits() =~= uint_bits(a.end_lt, 64) + ta);
            assert(b.enc_bits() =~= uint_bits(b.end_lt, 64) + tb);
        };
        lemma_uint_head(a.end_lt, b.end_lt, 64, ta, tb);
        lemma_uint_head(
            a.seq_no as u64,
            b.seq_no as u64,
            32,
            a.root_hash.enc_bits() + a.file_hash.enc_bits(),
            b.root_hash.enc_bits() + b.file_hash.enc_bits(),
        );
        let ra = a.root_hash.enc_bits();
        let rb = b.root_hash.enc_bits();
        assert(ra.len() == 256 && rb.len() == 256);
        assert(ra =~= (ra + a.file_hash.enc_bits()).take(256));
        assert(rb =~= (rb + b.file_hash.enc_bits()).take(256));
        UInt256::lemma_enc_injective(a.root_hash, b.root_hash);
        assert(a.file_hash.enc_bits() =~= (ra + a.file_hash.enc_bits()).skip(256));
        assert(b.file_hash.enc_bits() =~= (rb + b.file_hash.enc_bits()).skip(256));
        UInt256::lemma_enc_injective(a.file_hash, b.file_hash);
    }

    /// Writes the reference.
    pub fn write_to(&self, b: &mut BuilderData) -> (r: Result<(), BlockError>)
        ensures
            r.is_ok(),
            final(b).bits_spec() == old(b).bits_spec() + self.enc_bits(),
            final(b).refs_spec() == old(b).refs_spec(),
    {
        proof {
            lemma2_to64();
            lemma2_to64_rest();
        }
        b.append_bits(self.end_lt, 64);
        b.append_bits(self.seq_no as u64, 32);
        self.root_hash.write_to(b)?;
        self.file_hash.write_to(b)?;
        proof {
            assert(final(b).bits_spec() =~= old(b).bits_spec() + self.enc_bits());
        }
        Ok(())
    }

    /// Reads a reference; consumes exactly its 608-bit encoding on success.
    pub fn read_from(s: &mut SliceData) -> (r: Result<ExtBlkRef, BlockError>)
        ensures
            match r {
                Ok(x) => {
                    &&& old(s).rem_bits().len() >= 608
                    &&& old(s).rem_bits().take(608) == x.enc_bits()
                    &&& final(s).rem_bits() == old(s).rem_bits().skip(608)
                    &&& final(s).rem_refs() == old(s).rem_refs()
                },
                Err(e) => e == BlockError::CellUnderflow && old(s).rem_bits().len() < 608,
            },
    {
        proof {
            lemma2_to64();
            lemma2_to64_rest();
        }
        let ghost rem0 = s.rem_bits();
        let end_lt = s.get_next_int(64)?;
        let ghost rem1 = s.rem_bits();
        let seq_no = s.get_next_int(32)?;
        let ghost rem2 = s.rem_bits();
        let root_hash = UInt256::read_from(s)?;
        let ghost rem3 = s.rem_bits();
        let file_hash = UInt256::read_from(s)?;
        let x = ExtBlkRef { end_lt, seq_no: seq_no as u32, root_hash, file_hash };
        proof {
            crate::cells::lemma_read_exact(rem0, 64, end_lt);
            crate::cells::lemma_read_exact(rem1, 32, seq_no);
            assert(x.enc_bits() =~= rem0.take(64) + (rem1.take(32) + (rem2.take(256) + rem3.take(
                256,
            ))));
            assert(rem0.take(608) =~= rem0.take(64) + (rem1.take(32) + (rem2.take(256)
                + rem3.take(256))));
            assert(final(s).rem_bits() =~= old(s).rem_bits().skip(608));
        }
        Ok(x)
    }
}

/// A full block identifier: shard, sequence number, and hashes.
#[derive(Clone, Copy, Debug, PartialEq, Eq, Structural, Hash)]
pub struct BlockIdExt {
    pub shard_id: ShardIdent,
    pub seq_no: u32,
    pub root_hash: UInt256,
    pub file_hash: UInt256,
}

impl BlockIdExt {
    /// Packs the parts of a block identifier.
    pub fn with_params(shard_id: ShardIdent, seq_no: u32, root_hash: UInt256, file_hash: UInt256)
        -> (r: BlockIdExt)
        ensures
            r == (BlockIdExt { shard_id, seq_no, root_hash, file_hash }),
    {
        BlockIdExt { shard_id, seq_no, root_hash, file_hash }
    }

    /// The masterchain block identifier behind an external reference.
    pub fn from_ext_blk(blk: ExtBlkRef) -> (r: BlockIdExt)
        ensures
            r.shard_id.wc_spec() == crate::shard::MASTERCHAIN_ID,
            r.shard_id.key_bits() == Seq::<bool>::empty(),
            r.seq_no == blk.seq_no,
            r.root_hash == blk.root_hash,
            r.file_hash == blk.file_hash,
    {
        BlockIdExt {
            shard_id: ShardIdent::masterchain(),
            seq_no: blk.seq_no,
            root_hash: blk.root_hash,
            file_hash: blk.file_hash,
        }
    }

    /// The block's shard.
    pub fn shard(&self) -> (r: &ShardIdent)
        ensures
            r == self.shard_id,
    {
        &self.shard_id
    }

    /// The block's sequence number.
    pub fn seq_no(&self) -> (r: u32)
        ensures
            r == self.seq_no,
    {
        self.seq_no
    }

    /// The block's root hash.
    pub fn root_hash(&self) -> (r: &UInt256)
        ensures
            r == self.root_hash,
    {
        &self.root_hash
    }

    /// The block's file hash.
    pub fn file_hash(&self) -> (r: &UInt256)
        ensures
            r == self.file_hash,
    {
        &self.file_hash
    }
}

} // verus!
