//! Decaying block-creator counters: a total plus two fixed-point sums that
//! decay with half-lives of roughly 2048 and 65536 time units.

use vstd::prelude::*;
use vstd::arithmetic::power2::{pow2, lemma2_to64, lemma2_to64_rest};

use crate::cells::{bits_val, uint_bits, lemma_uint_head, lemma_read_exact, BuilderData, SliceData, lemma_bits_val_bound};
use crate::types::UInt256;
use crate::error::BlockError;

verus! {

/// One, in the 0.63 fixed-point scale of the decay computation.
pub const FIXED_ONE: u128 = 0x8000_0000_0000_0000;

/// One half, in the same scale: added before truncation to round.
pub const FIXED_HALF: u128 = 0x4000_0000_0000_0000;

/// `exp(-2^i / 65536)` in 0.63 fixed point, for each bit position of the
/// scaled time difference.
pub open spec fn decay_const(i: int) -> u128 {
    if i == 0 {
        0x7fff80003fffeaab
    } else if i == 1 {
        0x7fff0000ffff5556
    } else if i == 2 {
        0x7ffe0003fffaaab0
    } else if i == 3 {
        0x7ffc000fffd555ab
    } else if i == 4 {
        0x7ff8003ffeaab000
    } else if i == 5 {
        0x7ff000fff555aaa9
    } else if i == 6 {
        0x7fe003ffaaafffbc
    } else if i == 7 {
        0x7fc00ffd55aaa223
    } else if i == 8 {
        0x7f803feaaffeef1c
    } else if i == 9 {
        0x7f00ff55aa8893e6
    } else if i == 10 {
        0x7e03faaffbbe924a
    } else if i == 11 {
        0x7c0fd5aa22d75e45
    } else if i == 12 {
        0x783eafef1c0a8f39
    } else if i == 13 {
        0x70f5a893b608861e
    } else if i == 14 {
        0x63afbe7ab2082ba2
    } else if i == 15 {
        0x4da2cbf1be5827fa
    } else if i == 16 {
        0x2f16ac6c59de6f8d
    } else if i == 17 {
        0x1152aaa3bf81cba0
    } else if i == 18 {
        0x2582ab704279e8f
    } else if i == 19 {
        0xafe10820813d6
    } else if i == 20 {
        0xf1aaddd774
    } else {
        0x1c846
    }
}

/// The decay accumulator after folding in bits `0 .. i` of `k`.
pub open spec fn acc_after(k: u32, i: nat) -> u128
    decreases i,
{
    if i == 0 {
        FIXED_ONE
    } else {
        let a = acc_after(k, (i - 1) as nat);
        if ((k >> ((i - 1) as u32)) & 1u32) == 1u32 {
            ((a * decay_const(i - 1)) / (FIXED_ONE as int)) as u128
        } else {
            a
        }
    }
}

proof fn lemma_acc_bound(k: u32, i: nat)
    ensures
        acc_after(k, i) <= FIXED_ONE,
    decreases i,
{
    if i > 0 {
        lemma_acc_bound(k, (i - 1) as nat);
        let a = acc_after(k, (i - 1) as nat);
        let c = decay_const(i - 1);
        assert(c <= FIXED_ONE);
        assert(0 <= (a * c) / (FIXED_ONE as int) <= a) by (nonlinear_arith)
            requires
                0 <= a <= FIXED_ONE,
                0 <= c <= FIXED_ONE,
                FIXED_ONE > 0,
        ;
    }
}

/// `round(x * exp(-k / 65536))`, computed in 0.63 fixed point.
pub open spec fn spec_umulnexps32(x: u64, k: u32) -> u64 {
    if k >= 0x40_0000 {
        0
    } else {
        ((((x as u128) * acc_after(k, 22) + FIXED_HALF) / (FIXED_ONE as int)) as u64)
    }
}

fn decay_const_at(i: usize) -> (r: u64)
    requires
        i < 22,
    ensures
        r as u128 == decay_const(i as int),
        r as u128 <= FIXED_ONE,
{
    match i {
        0 => 0x7fff80003fffeaab,
        1 => 0x7fff0000ffff5556,
        2 => 0x7ffe0003fffaaab0,
        3 => 0x7ffc000fffd555ab,
        4 => 0x7ff8003ffeaab000,
        5 => 0x7ff000fff555aaa9,
        6 => 0x7fe003ffaaafffbc,
        7 => 0x7fc00ffd55aaa223,
        8 => 0x7f803feaaffeef1c,
        9 => 0x7f00ff55aa8893e6,
        10 => 0x7e03faaffbbe924a,
        11 => 0x7c0fd5aa22d75e45,
        12 => 0x783eafef1c0a8f39,
        13 => 0x70f5a893b608861e,
        14 => 0x63afbe7ab2082ba2,
        15 => 0x4da2cbf1be5827fa,
        16 => 0x2f16ac6c59de6f8d,
        17 => 0x1152aaa3bf81cba0,
        18 => 0x2582ab704279e8f,
        19 => 0xafe10820813d6,
        20 => 0xf1aaddd774,
        _ => 0x1c846,
    }
}

/// `round(x * exp(-k / 65536))` in integer fixed-point arithmetic: the
/// decayed value never exceeds the input.
pub fn umulnexps32(x: u64, k: u32, _trunc: bool) -> (r: u64)
    ensures
        r == spec_umulnexps32(x, k),
        r <= x,
{
    if k >= 0x40_0000 {
        return 0;
    }
    let mut acc: u128 = FIXED_ONE;
    let mut i: usize = 0;
    while i < 22
        invariant
            i <= 22,
            k < 0x40_0000,
            acc == acc_after(k, i as nat),
            acc <= FIXED_ONE,
        decreases 22 - i,
    {
        proof {
            lemma_acc_bound(k, (i + 1) as nat);
        }
        if ((k >> (i as u32)) & 1) == 1 {
            let c = decay_const_at(i);
            proof {
                assert(acc * (c as u128) <= FIXED_ONE * FIXED_ONE) by (nonlinear_arith)
                    requires
                        0 <= acc <= FIXED_ONE,
                        0 <= c as u128 <= FIXED_ONE,
                ;
            }
            acc = acc * (c as u128) / FIXED_ONE;
        }
        i = i + 1;
    }
    proof {
        assert((x as u128) * acc <= 0xffff_ffff_ffff_ffffu128 * FIXED_ONE) by (nonlinear_arith)
            requires
                0 <= acc <= FIXED_ONE,
                x <= 0xffff_ffff_ffff_ffffu64,
        ;
    }
    let prod: u128 = (x as u128) * acc + FIXED_HALF;
    let r128: u128 = prod / FIXED_ONE;
    proof {
        assert(0 <= ((x as u128) * acc + FIXED_HALF) / (FIXED_ONE as int) <= x) by (nonlinear_arith)
            requires
                0 <= acc <= FIXED_ONE,
                FIXED_ONE == 0x8000_0000_0000_0000,
                FIXED_HALF == 0x4000_0000_0000_0000,
                x <= 0xffff_ffff_ffff_ffffu64,
        ;
    }
    r128 as u64
}

/// The short decay window: time scaled by 32, one half-life is about 2048
/// units. Far past all representable precision the value is zero.
pub open spec fn spec_decay2048(c: u64, dt: u32) -> u64 {
    if dt >= 0x2_0000 {
        0
    } else {
        spec_umulnexps32(c, (dt * 32) as u32)
    }
}

/// The long decay window: time unscaled, one half-life is about 65536
/// units; any gap of 48 short half-lives or more resets it to zero.
pub open spec fn spec_decay65536(c: u64, dt: u32) -> u64 {
    if dt >= 98304 {
        0
    } else {
        spec_umulnexps32(c, dt)
    }
}

/// A decayed counter: the raw total, the time of the last change, and the
/// two decayed sums in 32.32 fixed point.
#[derive(Clone, Copy, Debug, PartialEq, Eq, Structural, Hash)]
pub struct Counters {
    last_updated: u32,
    total: u64,
    cnt2048: u64,
    cnt65536: u64,
}

impl Default for Counters {
    /// The zeroed counter.
    fn default() -> (r: Self)
        ensures
            r.last_updated_spec() == 0,
            r.total_spec() == 0,
            r.cnt2048_spec() == 0,
            r.cnt65536_spec() == 0,
    {
        Counters { last_updated: 0, total: 0, cnt2048: 0, cnt65536: 0 }
    }
}

impl Counters {
    /// The time of the last successful change.
    pub closed spec fn last_updated_spec(self) -> u32 {
        self.last_updated
    }

    /// The undecayed total.
    pub closed spec fn total_spec(self) -> u64 {
        self.total
    }

    /// The short-window decayed sum.
    pub closed spec fn cnt2048_spec(self) -> u64 {
        self.cnt2048
    }

    /// The long-window decayed sum.
    pub closed spec fn cnt65536_spec(self) -> u64 {
        self.cnt65536
    }

    /// A counter is valid when a zero total carries zero decayed sums, and
    /// a nonzero total carries a nonzero update time.
    pub open spec fn valid_spec(self) -> bool {
        &&& self.total_spec() == 0 ==> self.cnt2048_spec() == 0 && self.cnt65536_spec() == 0
        &&& self.total_spec() != 0 ==> self.last_updated_spec() != 0
    }

    /// Whether both decayed sums are within rounding of zero.
    pub open spec fn almost_zero_spec(self) -> bool {
        self.cnt2048_spec() <= 1 && self.cnt65536_spec() <= 1
    }

    /// Whether two counters agree exactly on total and time, and within one
    /// unit of fixed-point rounding on the decayed sums.
    pub open spec fn almost_equals_spec(self, other: Counters) -> bool {
        &&& self.last_updated_spec() == other.last_updated_spec()
        &&& self.total_spec() == other.total_spec()
        &&& self.cnt2048_spec() <= other.cnt2048_spec() + 1
        &&& other.cnt2048_spec() <= self.cnt2048_spec() + 1
        &&& self.cnt65536_spec() <= other.cnt65536_spec() + 1
        &&& other.cnt65536_spec() <= self.cnt65536_spec() + 1
    }

    /// The saturating time difference used for decay.
    pub open spec fn dt_spec(self, now: u32) -> u32 {
        if now >= self.last_updated_spec() {
            (now - self.last_updated_spec()) as u32
        } else {
            0
        }
    }

    /// Whether `increase_by(count, now)` succeeds: the counter is valid and
    /// neither the total nor either scaled sum would overflow.
    pub open spec fn can_increase_spec(self, count: u64) -> bool {
        &&& self.valid_spec()
        &&& count < 0x1_0000_0000
        &&& self.total_spec() != 0 ==> {
            &&& self.total_spec() + count <= u64::MAX
            &&& self.cnt2048_spec() + count * 0x1_0000_0000 <= u64::MAX
            &&& self.cnt65536_spec() + count * 0x1_0000_0000 <= u64::MAX
        }
    }

    /// Equal counters compare within rounding tolerance: so two counters
    /// fed the same `(count, now)` sequence from the same start, which this
    /// deterministic structure keeps equal, are `almost_equals` after every
    /// step.
    pub proof fn lemma_equal_almost_equals(a: Counters, b: Counters)
        requires
            a == b,
        ensures
            a.almost_equals_spec(b),
    {
    }

    /// See [`Self::valid_spec`].
    pub fn is_valid(&self) -> (r: bool)
        ensures
            r == self.valid_spec(),
    {
        if self.total == 0 {
            self.cnt2048 == 0 && self.cnt65536 == 0
        } else {
            self.last_updated != 0
        }
    }

    /// Whether nothing was ever counted.
    pub fn is_zero(&self) -> (r: bool)
        ensures
            r == (self.total_spec() == 0),
    {
        self.total == 0
    }

    /// See [`Self::almost_zero_spec`].
    pub fn almost_zero(&self) -> (r: bool)
        ensures
            r == self.almost_zero_spec(),
    {
        self.cnt2048 <= 1 && self.cnt65536 <= 1
    }

    /// See [`Self::almost_equals_spec`].
    pub fn almost_equals(&self, other: &Counters) -> (r: bool)
        ensures
            r == self.almost_equals_spec(*other),
    {
        self.last_updated == other.last_updated && self.total == other.total && (if self.cnt2048
            >= other.cnt2048 {
            self.cnt2048 - other.cnt2048 <= 1
        } else {
            other.cnt2048 - self.cnt2048 <= 1
        }) && (if self.cnt65536 >= other.cnt65536 {
            self.cnt65536 - other.cnt65536 <= 1
        } else {
            other.cnt65536 - self.cnt65536 <= 1
        })
    }

    /// Whether the counter changed at or after the given time.
    pub fn modified_since(&self, utime: u32) -> (r: bool)
        ensures
            r == (self.last_updated_spec() >= utime),
    {
        self.last_updated >= utime
    }

    /// Counts `count` more at time `now`: decays both windows over the time
    /// since the last change, then adds the scaled count. Refuses — and
    /// leaves the counter unchanged — exactly when the counter is invalid
    /// or an accumulator would overflow. The total never decreases.
    pub fn increase_by(&mut self, count: u64, now: u32) -> (r: bool)
        ensures
            r == old(self).can_increase_spec(count),
            final(self).total_spec() >= old(self).total_spec(),
            !r ==> *final(self) == *old(self),
            r ==> ({
                let scaled = count * 0x1_0000_0000;
                let dt = old(self).dt_spec(now);
                &&& final(self).last_updated_spec() == now
                &&& final(self).total_spec() == old(self).total_spec() + count
                &&& final(self).cnt2048_spec() == (if old(self).total_spec() == 0 {
                    scaled
                } else if dt == 0 {
                    old(self).cnt2048_spec() + scaled
                } else {
                    spec_decay2048(old(self).cnt2048_spec(), dt) + scaled
                })
                &&& final(self).cnt65536_spec() == (if old(self).total_spec() == 0 {
                    scaled
                } else if dt == 0 {
                    old(self).cnt65536_spec() + scaled
                } else {
                    spec_decay65536(old(self).cnt65536_spec(), dt) + scaled
                })
            }),
            // a gap at or past the long-window reset threshold leaves
            // exactly the fresh scaled count in the long window
            r && old(self).total_spec() != 0 && old(self).dt_spec(now) >= 98304
                ==> final(self).cnt65536_spec() == count * 0x1_0000_0000,
    {
        if !self.is_valid() {
            return false;
        }
        if count >= 0x1_0000_0000 {
            return false;
        }
        let scaled: u64 = count << 32;
        proof {
            lemma2_to64();
            lemma2_to64_rest();
            vstd::bits::lemma_u64_shl_is_mul(count, 32);
            assert(scaled == count * 0x1_0000_0000);
        }
        if self.total == 0 {
            self.last_updated = now;
            self.total = count;
            self.cnt2048 = scaled;
            self.cnt65536 = scaled;
            return true;
        }
        if count > u64::MAX - self.total || self.cnt2048 > u64::MAX - scaled || self.cnt65536
            > u64::MAX - scaled {
            return false;
        }
        let dt: u32 = if now >= self.last_updated {
            now - self.last_updated
        } else {
            0
        };
        if dt != 0 {
            self.cnt2048 = if dt >= 0x2_0000 {
                0
            } else {
                umulnexps32(self.cnt2048, dt * 32, false)
            };
            self.cnt65536 = if dt >= 98304 {
                0
            } else {
                umulnexps32(self.cnt65536, dt, false)
            };
        }
        self.total = self.total + count;
        self.cnt2048 = self.cnt2048 + scaled;
        self.cnt65536 = self.cnt65536 + scaled;
        self.last_updated = now;
        true
    }

    /// The undecayed total.
    pub fn total(&self) -> (r: u64)
        ensures
            r == self.total_spec(),
    {
        self.total
    }

    /// The time of the last successful change.
    pub fn last_updated(&self) -> (r: u32)
        ensures
            r == self.last_updated_spec(),
    {
        self.last_updated
    }

    /// The short-window decayed sum.
    pub fn cnt2048(&self) -> (r: u64)
        ensures
            r == self.cnt2048_spec(),
    {
        self.cnt2048
    }

    /// The long-window decayed sum.
    pub fn cnt65536(&self) -> (r: u64)
        ensures
            r == self.cnt65536_spec(),
    {
        self.cnt65536
    }

    /// The wire shape: update time, total, and both decayed sums, as plain
    /// big-endian integers.
    pub open spec fn enc_bits(self) -> Seq<bool> {
        uint_bits(self.last_updated_spec() as u64, 32) + uint_bits(self.total_spec(), 64)
            + uint_bits(self.cnt2048_spec(), 64) + uint_bits(self.cnt65536_spec(), 64)
    }

    /// Equal encodings come from equal counters.
    pub proof fn lemma_enc_injective(a: Counters, b: Counters)
        requires
            a.enc_bits() == b.enc_bits(),
        ensures
            a == b,
    {
        lemma2_to64();
        lemma2_to64_rest();
        let ta = uint_bits(a.total, 64) + (uint_bits(a.cnt2048, 64) + uint_bits(a.cnt65536, 64));
        let tb = uint_bits(b.total, 64) + (uint_bits(b.cnt2048, 64) + uint_bits(b.cnt65536, 64));
        assert(uint_bits(a.last_updated as u64, 32) + ta == uint_bits(b.last_updated as u64, 32)
            + tb) by {
            assert(a.enc_bits() =~= uint_bits(a.last_updated as u64, 32) + ta);
            assert(b.enc_bits() =~= uint_bits(b.last_updated as u64, 32) + tb);
        };
        lemma_uint_head(a.last_updated as u64, b.last_updated as u64, 32, ta, tb);
        let ua = uint_bits(a.cnt2048, 64) + uint_bits(a.cnt65536, 64);
        let ub = uint_bits(b.cnt2048, 64) + uint_bits(b.cnt65536, 64);
        lemma_uint_head(a.total, b.total, 64, ua, ub);
        lemma_uint_head(a.cnt2048, b.cnt2048, 64, uint_bits(a.cnt65536, 64), uint_bits(b.cnt65536, 64));
        lemma_uint_head(a.cnt65536, b.cnt65536, 64, Seq::<bool>::empty(), Seq::<bool>::empty()) ;
    }

    /// Writes the counter's 224 bits.
    pub fn write_to(&self, b: &mut BuilderData) -> (r: Result<(), BlockError>)
        ensures
            r.is_ok(),
            final(b).bits_spec() == old(b).bits_spec() + self.enc_bits(),
            final(b).refs_spec() == old(b).refs_spec(),
    {
        proof {
            lemma2_to64();
            lemma2_to64_rest();
        }
        b.append_bits(self.last_updated as u64, 32);
        b.append_bits(self.total, 64);
        b.append_bits(self.cnt2048, 64);
        b.append_bits(self.cnt65536, 64);
        proof {
            assert(final(b).bits_spec() =~= old(b).bits_spec() + self.enc_bits());
        }
        Ok(())
    }

    /// Reads a counter's 224 bits. Succeeds exactly when that many bits are
    /// left, and consumes exactly the counter's encoding.
    pub fn read_from(s: &mut SliceData) -> (r: Result<Counters, BlockError>)
        ensures
            match r {
                Ok(c) => {
                    &&& old(s).rem_bits().len() >= 224
                    &&& old(s).rem_bits().take(224) == c.enc_bits()
                    &&& final(s).rem_bits() == old(s).rem_bits().skip(224)
                    &&& final(s).rem_refs() == old(s).rem_refs()
                },
                Err(e) => e == BlockError::CellUnderflow && old(s).rem_bits().len() < 224,
            },
    {
        proof {
            lemma2_to64();
            lemma2_to64_rest();
        }
        let ghost rem0 = s.rem_bits();
        let last_updated_w = s.get_next_int(32)?;
        let ghost rem1 = s.rem_bits();
        let total = s.get_next_int(64)?;
        let ghost rem2 = s.rem_bits();
        let cnt2048 = s.get_next_int(64)?;
        let ghost rem3 = s.rem_bits();
        let cnt65536 = s.get_next_int(64)?;
        let c = Counters { last_updated: last_updated_w as u32, total, cnt2048, cnt65536 };
        proof {
            crate::cells::lemma_read_exact(rem0, 32, last_updated_w);
            crate::cells::lemma_read_exact(rem1, 64, total);
            crate::cells::lemma_read_exact(rem2, 64, cnt2048);
            crate::cells::lemma_read_exact(rem3, 64, cnt65536);
            assert(c.enc_bits() =~= rem0.take(32) + (rem1.take(64) + (rem2.take(64) + rem3.take(
                64,
            ))));
            assert(rem0.take(224) =~= rem0.take(32) + (rem1.take(64) + (rem2.take(64) + rem3.take(
                64,
            ))));
            assert(final(s).rem_bits() =~= old(s).rem_bits().skip(224));
        }
        Ok(c)
    }
}

/// Per-creator block production statistics: one decaying counter pair for
/// masterchain blocks and one for shard blocks.
#[derive(Clone, Copy, Debug, PartialEq, Eq, Structural, Hash)]
pub struct CreatorStats {
    pub mc_blocks: Counters,
    pub shard_blocks: Counters,
}

impl Default for CreatorStats {
    /// Zeroed counters.
    fn default() -> (r: Self)
        ensures
            r.mc_blocks.total_spec() == 0,
            r.shard_blocks.total_spec() == 0,
            r.mc_blocks.last_updated_spec() == 0,
            r.shard_blocks.last_updated_spec() == 0,
            r.mc_blocks.cnt2048_spec() == 0,
            r.shard_blocks.cnt2048_spec() == 0,
            r.mc_blocks.cnt65536_spec() == 0,
            r.shard_blocks.cnt65536_spec() == 0,
    {
        CreatorStats { mc_blocks: Counters::default(), shard_blocks: Counters::default() }
    }
}

impl CreatorStats {
    /// The constructor tag of the wire form.
    pub fn tag() -> (r: u32)
        ensures
            r == 4,
    {
        0x4
    }

    /// How many bits the tag takes.
    pub fn tag_len_bits() -> (r: usize)
        ensures
            r == 4,
    {
        4
    }

    /// The masterchain-block counters.
    pub fn mc_blocks(&self) -> (r: &Counters)
        ensures
            r == self.mc_blocks,
    {
        &self.mc_blocks
    }

    /// The shard-block counters.
    pub fn shard_blocks(&self) -> (r: &Counters)
        ensures
            r == self.shard_blocks,
    {
        &self.shard_blocks
    }

    /// The 452-bit wire form: tag, then both counter pairs.
    pub open spec fn enc_bits(self) -> Seq<bool> {
        uint_bits(4, 4) + self.mc_blocks.enc_bits() + self.shard_blocks.enc_bits()
    }

    /// Writes the statistics.
    pub fn write_to(&self, b: &mut BuilderData) -> (r: Result<(), BlockError>)
        ensures
            r.is_ok(),
            final(b).bits_spec() == old(b).bits_spec() + self.enc_bits(),
            final(b).refs_spec() == old(b).refs_spec(),
    {
        proof {
            lemma2_to64();
        }
        b.append_bits(4, 4);
        self.mc_blocks.write_to(b)?;
        self.shard_blocks.write_to(b)?;
        proof {
            assert(final(b).bits_spec() =~= old(b).bits_spec() + self.enc_bits());
        }
        Ok(())
    }

    /// Reads statistics; consumes exactly their encoding on success, and
    /// fails naming the tag when it is not the expected one.
    pub fn read_from(s: &mut SliceData) -> (r: Result<CreatorStats, BlockError>)
        ensures
            old(s).rem_bits().len() >= 452 && bits_val(old(s).rem_bits().take(4)) == 4
                ==> r.is_ok(),
            match r {
                Ok(x) => {
                    &&& old(s).rem_bits().len() >= 452
                    &&& old(s).rem_bits().take(452) == x.enc_bits()
                    &&& final(s).rem_bits() == old(s).rem_bits().skip(452)
                    &&& final(s).rem_refs() == old(s).rem_refs()
                },
                Err(e) => match e {
                    BlockError::CellUnderflow => true,
                    BlockError::InvalidConstructorTag { t } => {
                        &&& old(s).rem_bits().len() >= 4
                        &&& t as nat == bits_val(old(s).rem_bits().take(4))
                        &&& t != 4
                    },
                    _ => false,
                },
            },
    {
        proof {
            lemma2_to64();
        }
        let ghost rem0 = s.rem_bits();
        let tag = s.get_next_int(4)?;
        if tag != 4 {
            return Err(BlockError::InvalidConstructorTag { t: tag });
        }
        let ghost rem1 = s.rem_bits();
        let mc_blocks = Counters::read_from(s)?;
        let ghost rem2 = s.rem_bits();
        let shard_blocks = Counters::read_from(s)?;
        let x = CreatorStats { mc_blocks, shard_blocks };
        proof {
            lemma_read_exact(rem0, 4, tag);
            assert(x.enc_bits() =~= rem0.take(4) + (rem1.take(224) + rem2.take(224)));
            assert(rem0.take(452) =~= rem0.take(4) + (rem1.take(224) + rem2.take(224)));
            assert(final(s).rem_bits() =~= old(s).rem_bits().skip(452));
        }
        Ok(x)
    }
}

/// The per-creator statistics dictionary, keyed by the creator's 256-bit
/// public key, in insertion order.
#[derive(Debug)]
pub struct BlockCounters {
    entries: Vec<(UInt256, CreatorStats)>,
}

impl View for BlockCounters {
    type V = Seq<(UInt256, CreatorStats)>;

    closed spec fn view(&self) -> Seq<(UInt256, CreatorStats)> {
        self.entries@
    }
}

impl Clone for BlockCounters {
    /// A copy with the same entries.
    fn clone(&self) -> (r: Self)
        ensures
            r@ == self@,
    {
        BlockCounters { entries: crate::descr::copy_vec(&self.entries) }
    }
}

impl Default for BlockCounters {
    /// No creators.
    fn default() -> (r: Self)
        ensures
            r@ == Seq::<(UInt256, CreatorStats)>::empty(),
    {
        BlockCounters { entries: Vec::new() }
    }
}

impl BlockCounters {
    /// Whether no creator is recorded.
    pub fn is_empty(&self) -> (r: bool)
        ensures
            r == (self@.len() == 0),
    {
        self.entries.len() == 0
    }

    /// Appends one creator's statistics.
    pub fn push(&mut self, creator: UInt256, stats: CreatorStats)
        ensures
            final(self)@ == old(self)@.push((creator, stats)),
    {
        self.entries.push((creator, stats));
    }

    /// The first statistics recorded for a creator, if any.
    pub fn get(&self, creator: &UInt256) -> (r: Option<&CreatorStats>)
        ensures
            match r {
                Some(st) => exists|i: int|
                    0 <= i < self@.len() && (#[trigger] self@[i]).0 == *creator && self@[i].1
                        == *st,
                None => forall|i: int| 0 <= i < self@.len() ==> (#[trigger] self@[i]).0 != *creator,
            },
    {
        let mut i: usize = 0;
        while i < self.entries.len()
            invariant
                i <= self@.len(),
                forall|j: int| 0 <= j < i ==> (#[trigger] self@[j]).0 != *creator,
            decreases self@.len() - i,
        {
            let (k, _) = &self.entries[i];
            if *k == *creator {
                return Some(&self.entries[i].1);
            }
            i = i + 1;
        }
        None
    }

    /// The entries in order.
    pub fn entries(&self) -> (r: &Vec<(UInt256, CreatorStats)>)
        ensures
            r@ == self@,
    {
        &self.entries
    }
}

/// The encodings of a creator-statistics list, in order.
pub open spec fn counters_entries_bits(s: Seq<(UInt256, CreatorStats)>) -> Seq<bool>
    decreases s.len(),
{
    if s.len() == 0 {
        Seq::<bool>::empty()
    } else {
        s[0].0.enc_bits() + s[0].1.enc_bits() + counters_entries_bits(s.skip(1))
    }
}

proof fn lemma_counters_entries_push(s: Seq<(UInt256, CreatorStats)>, k: UInt256, v: CreatorStats)
    ensures
        counters_entries_bits(s.push((k, v))) == counters_entries_bits(s) + k.enc_bits()
            + v.enc_bits(),
    decreases s.len(),
{
    if s.len() == 0 {
        assert(counters_entries_bits(Seq::<(UInt256, CreatorStats)>::empty())
            == Seq::<bool>::empty());
        assert(s.push((k, v))[0] == (k, v));
        assert(s.push((k, v)).skip(1) =~= Seq::<(UInt256, CreatorStats)>::empty());
        assert(counters_entries_bits(s.push((k, v))) =~= counters_entries_bits(s) + k.enc_bits()
            + v.enc_bits());
    } else {
        lemma_counters_entries_push(s.skip(1), k, v);
        assert(s.push((k, v)).skip(1) =~= s.skip(1).push((k, v)));
        assert(s.push((k, v))[0] == s[0]);
        assert(counters_entries_bits(s.push((k, v))) =~= counters_entries_bits(s) + k.enc_bits()
            + v.enc_bits());
    }
}

/// The whole-dictionary statistics of block creators.
#[derive(Debug)]
pub struct BlockCreateStats {
    pub counters: BlockCounters,
}

impl Clone for BlockCreateStats {
    /// A copy with the same entries.
    fn clone(&self) -> (r: Self)
        ensures
            r.counters@ == self.counters@,
    {
        BlockCreateStats { counters: self.counters.clone() }
    }
}

impl Default for BlockCreateStats {
    /// No creators.
    fn default() -> (r: Self)
        ensures
            r.counters@ == Seq::<(UInt256, CreatorStats)>::empty(),
    {
        BlockCreateStats { counters: BlockCounters::default() }
    }
}

impl BlockCreateStats {
    /// The constructor tag of the wire form.
    pub fn tag() -> (r: u32)
        ensures
            r == 0x17,
    {
        0x17
    }

    /// How many bits the tag takes.
    pub fn tag_len_bits() -> (r: usize)
        ensures
            r == 8,
    {
        8
    }

    /// The wire form: tag, entry count, then each creator's key and
    /// statistics.
    pub open spec fn enc_bits(self) -> Seq<bool> {
        uint_bits(0x17, 8) + uint_bits(self.counters@.len() as u64, 32) + counters_entries_bits(
            self.counters@,
        )
    }

    /// Writes the statistics dictionary; fails exactly when the entry
    /// count does not fit its field.
    pub fn write_to(&self, b: &mut BuilderData) -> (r: Result<(), BlockError>)
        ensures
            match r {
                Ok(_) => {
                    &&& self.counters@.len() < 0x1_0000_0000
                    &&& final(b).bits_spec() == old(b).bits_spec() + self.enc_bits()
                    &&& final(b).refs_spec() == old(b).refs_spec()
                },
                Err(e) => e == BlockError::IntOverflow && self.counters@.len() >= 0x1_0000_0000,
            },
    {
        proof {
            lemma2_to64();
            lemma2_to64_rest();
        }
        let entries = self.counters.entries();
        if (entries.len() as u64) >= 0x1_0000_0000u64 {
            return Err(BlockError::IntOverflow);
        }
        b.append_bits(0x17, 8);
        b.append_bits(entries.len() as u64, 32);
        let ghost es = self.counters@;
        let mut i: usize = 0;
        while i < entries.len()
            invariant
                i <= es.len(),
                entries@ == es,
                b.bits_spec() =~= old(b).bits_spec() + uint_bits(0x17, 8) + uint_bits(
                    es.len() as u64,
                    32,
                ) + counters_entries_bits(es.take(i as int)),
                b.refs_spec() == old(b).refs_spec(),
            decreases es.len() - i,
        {
            let (k, v) = &entries[i];
            let _ = k.write_to(b);
            let _ = v.write_to(b);
            proof {
                lemma_counters_entries_push(es.take(i as int), *k, *v);
                assert(es.take(i as int).push((*k, *v)) =~= es.take(i as int + 1));
            }
            i = i + 1;
        }
        proof {
            assert(es.take(es.len() as int) =~= es);
            assert(final(b).bits_spec() =~= old(b).bits_spec() + self.enc_bits());
        }
        Ok(())
    }

    /// Reads a statistics dictionary; consumes exactly the encoding of the
    /// result on success, and fails naming the tag when it is not the
    /// expected one.
    pub fn read_from(s: &mut SliceData) -> (r: Result<BlockCreateStats, BlockError>)
        ensures
            ({
                let bits = old(s).rem_bits();
                let n = bits_val(bits.skip(8).take(32)) as int;
                &&& bits.len() >= 40 + 708 * n
                &&& bits_val(bits.take(8)) == 0x17
                &&& forall|j: int|
                    0 <= j < n ==> bits_val(#[trigger] bits.skip(40 + 708 * j + 256).take(4)) == 4
            }) ==> r.is_ok(),
            old(s).rem_bits().len() < 8 ==> r == Err::<Self, BlockError>(
                BlockError::CellUnderflow,
            ),
            old(s).rem_bits().len() >= 8 && !(bits_val(old(s).rem_bits().take(8)) == 0x17) ==> (r matches Err(e2) && e2 == (
            BlockError::InvalidConstructorTag { t: (bits_val(old(s).rem_bits().take(8)) as u64) })),
            match r {
                Ok(x) => {
                    &&& old(s).rem_bits() == x.enc_bits() + final(s).rem_bits()
                    &&& final(s).rem_refs() == old(s).rem_refs()
                },
                Err(e) => e == BlockError::CellUnderflow || e matches
                    BlockError::InvalidConstructorTag { .. },
            },
    {
        proof {
            lemma2_to64();
            lemma2_to64_rest();
        }
        let ghost rem0 = s.rem_bits();
        let tag = s.get_next_int(8)?;
        if tag != 0x17 {
            return Err(BlockError::InvalidConstructorTag { t: tag });
        }
        let ghost rem1 = s.rem_bits();
        let n = s.get_next_int(32)?;
        let ghost rem2 = s.rem_bits();
        let mut counters = BlockCounters::default();
        let mut i: u64 = 0;
        while i < n
            invariant
                i <= n,
                n < 0x1_0000_0000,
                old(s).rem_bits().len() >= 8,
                bits_val(old(s).rem_bits().take(8)) == 0x17,
                rem2 == old(s).rem_bits().skip(40),
                n as nat == bits_val(old(s).rem_bits().skip(8).take(32)),
                counters@.len() == i,
                rem2 =~= counters_entries_bits(counters@) + s.rem_bits(),
                s.rem_bits().len() <= rem2.len(),
                s.rem_refs() == old(s).rem_refs(),
                old(s).rem_bits().len() >= 40 + 708 * (n as int) ==> s.rem_bits() =~= old(
                    s,
                ).rem_bits().skip(40 + 708 * (i as int)),
            decreases n - i,
        {
            proof {
                if old(s).rem_bits().len() >= 40 + 708 * (n as int) {
                    assert(s.rem_bits().len() == old(s).rem_bits().len() - 40 - 708 * (i as int));
                }
            }
            let ghost before = counters@;
            let ghost cur = s.rem_bits();
            let k = UInt256::read_from(s)?;
            proof {
                if old(s).rem_bits().len() >= 40 + 708 * (n as int) && (forall|j: int|
                    0 <= j < n ==> bits_val(
                        #[trigger] old(s).rem_bits().skip(40 + 708 * j + 256).take(4),
                    ) == 4) {
                    assert(s.rem_bits() =~= cur.skip(256));
                    assert(s.rem_bits() =~= old(s).rem_bits().skip(40 + 708 * (i as int) + 256));
                    assert(bits_val(old(s).rem_bits().skip(40 + 708 * (i as int) + 256).take(4))
                        == 4);
                    assert(s.rem_bits().take(4) =~= old(s).rem_bits().skip(
                        40 + 708 * (i as int) + 256,
                    ).take(4));
                }
            }
            let v = CreatorStats::read_from(s)?;
            counters.push(k, v);
            proof {
                lemma_counters_entries_push(before, k, v);
                assert(rem2 =~= counters_entries_bits(counters@) + s.rem_bits());
                if old(s).rem_bits().len() >= 40 + 708 * (n as int) {
                    assert(s.rem_bits() =~= old(s).rem_bits().skip(40 + 708 * (i as int + 1)));
                }
            }
            i = i + 1;
        }
        let x = BlockCreateStats { counters };
        proof {
            lemma_read_exact(rem0, 8, tag);
            lemma_read_exact(rem1, 32, n);
            assert(rem0 =~= rem0.take(8) + (rem1.take(32) + rem2));
            assert(rem0 =~= x.enc_bits() + final(s).rem_bits());
        }
        Ok(x)
    }
}

} // verus!
