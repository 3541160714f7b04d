//! The cell codec: bit-level writer and reader over trees of cells.
//!
//! A cell is a bit string together with child cells reached by reference.
//! Every structure of this library expresses its wire layout through
//! [`BuilderData`] (append bits, append an unsigned integer of a given width,
//! append a sub-tree by reference) and [`SliceData`] (the symmetric readers).
//! Contracts speak of [`CellData`], the mathematical content of a cell.

use vstd::prelude::*;
use vstd::arithmetic::power2::{pow2, lemma_pow2_unfold, lemma_pow2_pos, lemma2_to64, lemma2_to64_rest};
use vstd::arithmetic::div_mod::lemma_div_denominator;
use vstd::bits::{lemma_u64_shr_is_div, lemma_u64_low_bits_mask_is_mod};

use crate::error::BlockError;

verus! {

broadcast use vstd::std_specs::vec::group_vec_axioms, vstd::seq::group_seq_axioms;

/// Mathematical content of a cell: its bit string and the contents of its
/// child cells.
#[verifier::ext_equal]
pub struct CellData {
    pub bits: Seq<bool>,
    pub refs: Seq<CellData>,
}

/// A tree of bit strings: the unit the codec reads and writes.
#[derive(Debug)]
pub struct Cell {
    bits: Vec<bool>,
    refs: Vec<Cell>,
}

impl Cell {
    /// The mathematical content of this cell.
    pub closed spec fn data(self) -> CellData
        decreases self,
    {
        CellData {
            bits: self.bits@,
            refs: Seq::new(
                self.refs@.len(),
                |i: int|
                    if 0 <= i < self.refs@.len() {
                        self.refs@[i].data()
                    } else {
                        CellData { bits: Seq::empty(), refs: Seq::empty() }
                    },
            ),
        }
    }

    /// A cell with no bits and no children.
    pub fn empty() -> (c: Cell)
        ensures
            c@.bits == Seq::<bool>::empty(),
            c@.refs == Seq::<CellData>::empty(),
    {
        let c = Cell { bits: Vec::new(), refs: Vec::new() };
        proof {
            assert(c.data().bits =~= Seq::<bool>::empty());
            assert(c.data().refs =~= Seq::<CellData>::empty());
        }
        c
    }
}

fn clone_cell(c: &Cell) -> (r: Cell)
    ensures
        r.data() == c.data(),
    decreases *c,
{
    let mut bits: Vec<bool> = Vec::new();
    let mut i: usize = 0;
    while i < c.bits.len()
        invariant
            i <= c.bits@.len(),
            bits@ =~= c.bits@.take(i as int),
        decreases c.bits@.len() - i,
    {
        bits.push(c.bits[i]);
        proof {
            assert(bits@ =~= c.bits@.take(i as int + 1));
        }
        i = i + 1;
    }
    proof {
        assert(c.bits@.take(c.bits@.len() as int) =~= c.bits@);
    }
    let mut refs: Vec<Cell> = Vec::new();
    let mut j: usize = 0;
    while j < c.refs.len()
        invariant
            j <= c.refs@.len(),
            refs@.len() == j,
            forall|m: int| 0 <= m < j ==> (#[trigger] refs@[m]).data() == c.refs@[m].data(),
        decreases c.refs@.len() - j,
    {
        let child = clone_cell(&c.refs[j]);
        refs.push(child);
        j = j + 1;
    }
    let r = Cell { bits, refs };
    proof {
        assert(r.data().bits =~~= c.data().bits);
        assert(r.data().refs =~~= c.data().refs);
        assert(r.data() =~~= c.data());
    }
    r
}

impl Clone for Cell {
    /// A deep copy with the same content.
    fn clone(&self) -> (r: Self)
        ensures
            r@ == self@,
    {
        clone_cell(self)
    }
}

impl View for Cell {
    type V = CellData;

    open spec fn view(&self) -> CellData {
        self.data()
    }
}

/// The value of a bit string read as a big-endian unsigned integer.
pub open spec fn bits_val(s: Seq<bool>) -> nat
    decreases s.len(),
{
    if s.len() == 0 {
        0
    } else {
        2 * bits_val(s.drop_last()) + (if s.last() { 1nat } else { 0nat })
    }
}

/// The `w`-bit big-endian encoding of the low `w` bits of `v`.
pub open spec fn uint_bits(v: u64, w: nat) -> Seq<bool> {
    Seq::new(w, |i: int| (v as nat / pow2((w - 1 - i) as nat)) % 2 == 1)
}

/// A bit string's value is below two to its length.
pub proof fn lemma_bits_val_bound(s: Seq<bool>)
    ensures
        bits_val(s) < pow2(s.len()),
    decreases s.len(),
{
    if s.len() == 0 {
        assert(pow2(0) == 1) by { lemma2_to64(); };
    } else {
        lemma_bits_val_bound(s.drop_last());
        lemma_pow2_unfold(s.len());
    }
}

/// Reading back the big-endian encoding of an in-range value returns it.
pub proof fn lemma_uint_bits_val(v: u64, w: nat)
    requires
        v < pow2(w),
    ensures
        bits_val(uint_bits(v, w)) == v,
    decreases w,
{
    if w == 0 {
        assert(pow2(0) == 1) by { lemma2_to64(); };
        assert(uint_bits(v, 0) =~= Seq::<bool>::empty());
    } else {
        let s = uint_bits(v, w);
        let v2 = v / 2;
        lemma_pow2_unfold(w);
        assert(v2 < pow2((w - 1) as nat)) by {
            lemma_pow2_pos((w - 1) as nat);
        };
        assert(s.drop_last() =~= uint_bits(v2, (w - 1) as nat)) by {
            assert forall|i: int| 0 <= i < w - 1 implies s[i] == uint_bits(v2, (w - 1) as nat)[i] by {
                let p = pow2((w - 2 - i) as nat);
                lemma_pow2_pos((w - 2 - i) as nat);
                lemma_pow2_unfold((w - 1 - i) as nat);
                // (v / 2) / p == v / (2 * p)
                lemma_div_denominator(v as int, 2, p as int);
            };
        };
        lemma_uint_bits_val(v2, (w - 1) as nat);
        assert(s.last() == ((v as nat / pow2(0)) % 2 == 1));
        assert(pow2(0) == 1) by { lemma2_to64(); };
        assert(bits_val(s) == 2 * (v2 as nat) + (v as nat % 2));
    }
}

/// Two encodings of the same width at the head of equal streams carry equal
/// values and equal tails.
pub proof fn lemma_uint_head(a: u64, b: u64, w: nat, ra: Seq<bool>, rb: Seq<bool>)
    requires
        a < pow2(w),
        b < pow2(w),
        uint_bits(a, w) + ra == uint_bits(b, w) + rb,
    ensures
        a == b,
        ra == rb,
{
    let sa = uint_bits(a, w) + ra;
    let sb = uint_bits(b, w) + rb;
    assert(sa.take(w as int) =~= uint_bits(a, w));
    assert(sb.take(w as int) =~= uint_bits(b, w));
    lemma_uint_bits_val(a, w);
    lemma_uint_bits_val(b, w);
    assert(ra =~= sa.skip(w as int));
    assert(rb =~= sb.skip(w as int));
}

/// A bit string of length `w` whose value is `v` is the canonical encoding
/// of `v`.
proof fn lemma_uint_bits_eq(s: Seq<bool>, v: u64, w: nat)
    requires
        s.len() == w,
        w <= 64,
        v as nat == bits_val(s),
    ensures
        uint_bits(v, w) == s,
    decreases w,
{
    lemma_bits_val_bound(s);
    if w == 0 {
        assert(uint_bits(v, 0) =~= s);
    } else {
        let v2 = (v / 2) as u64;
        assert(v as nat == 2 * bits_val(s.drop_last()) + (if s.last() {
            1nat
        } else {
            0nat
        }));
        assert(v2 as nat == bits_val(s.drop_last()));
        lemma_uint_bits_eq(s.drop_last(), v2, (w - 1) as nat);
        lemma_uint_bits_val(v, w);
        assert(uint_bits(v, w).drop_last() =~= uint_bits(v2, (w - 1) as nat)) by {
            assert forall|i: int| 0 <= i < w - 1 implies uint_bits(v, w)[i] == uint_bits(
                v2,
                (w - 1) as nat,
            )[i] by {
                let p = pow2((w - 2 - i) as nat);
                lemma_pow2_pos((w - 2 - i) as nat);
                lemma_pow2_unfold((w - 1 - i) as nat);
                lemma_div_denominator(v as int, 2, p as int);
            };
        };
        assert(uint_bits(v, w).last() == ((v as nat / pow2(0)) % 2 == 1));
        assert(pow2(0) == 1) by { lemma2_to64(); };
        assert(uint_bits(v, w).last() == s.last()) by {
            assert(v as nat % 2 == (if s.last() {
                1nat
            } else {
                0nat
            }));
        };
        assert(uint_bits(v, w) =~= uint_bits(v, w).drop_last().push(uint_bits(v, w).last()));
        assert(s =~= s.drop_last().push(s.last()));
    }
}


/// A value read as `w` bits re-encodes to exactly the bits consumed.
pub proof fn lemma_read_exact(rem: Seq<bool>, w: nat, v: u64)
    requires
        w <= 64,
        rem.len() >= w,
        v as nat == bits_val(rem.take(w as int)),
        v < pow2(w),
    ensures
        uint_bits(v, w) == rem.take(w as int),
{
    lemma_uint_bits_eq(rem.take(w as int), v, w);
}

/// A stream prefixed by a concatenation is prefixed by its first part,
/// and past it by the second.
pub proof fn lemma_prefix_parts<A>(a: Seq<A>, b: Seq<A>, s: Seq<A>)
    requires
        (a + b).is_prefix_of(s),
    ensures
        a.is_prefix_of(s),
        b.is_prefix_of(s.skip(a.len() as int)),
{
    assert((a + b).len() <= s.len());
    assert(a =~= s.take(a.len() as int));
    assert forall|j: int| 0 <= j < b.len() implies b[j] == s.skip(a.len() as int).take(
        b.len() as int,
    )[j] by {
        assert(b[j] == (a + b)[a.len() + j]);
        assert((a + b)[a.len() + j] == s[a.len() + j]);
    };
    assert(b =~= s.skip(a.len() as int).take(b.len() as int));
}

/// A stream that begins with the canonical encoding of a value yields
/// that value when its width is read.
pub proof fn lemma_uint_prefix(v: u64, w: nat, s: Seq<bool>)
    requires
        w <= 64,
        v < pow2(w),
        uint_bits(v, w).is_prefix_of(s),
    ensures
        s.len() >= w,
        bits_val(s.take(w as int)) == v as nat,
{
    assert(s.take(w as int) == uint_bits(v, w));
    lemma_uint_bits_val(v, w);
}

/// Chains one more consumed piece onto a decomposed stream.
pub proof fn lemma_take_step<A>(total: Seq<A>, done: Seq<A>, rest: Seq<A>, piece: Seq<A>, rest2: Seq<A>)
    requires
        total == done + rest,
        rest == piece + rest2,
    ensures
        total == (done + piece) + rest2,
{
    vstd::seq_lib::lemma_concat_associative(done, piece, rest2);
}

/// Chains one more appended piece onto a built stream.
pub proof fn lemma_app_step<A>(base: Seq<A>, acc: Seq<A>, cur: Seq<A>, piece: Seq<A>, next: Seq<A>)
    requires
        cur == base + acc,
        next == cur + piece,
    ensures
        next == base + (acc + piece),
{
    vstd::seq_lib::lemma_concat_associative(base, acc, piece);
}

/// A bit-level writer: bits appended so far plus child cells added by
/// reference. `into_cell` seals it into a [`Cell`].
pub struct BuilderData {
    bits: Vec<bool>,
    refs: Vec<Cell>,
}

impl BuilderData {
    /// The bits written so far.
    pub closed spec fn bits_spec(self) -> Seq<bool> {
        self.bits@
    }

    /// The contents of the child cells appended so far.
    pub closed spec fn refs_spec(self) -> Seq<CellData> {
        Seq::new(self.refs@.len(), |i: int| self.refs@[i].data())
    }

    /// A writer with nothing written.
    pub fn new() -> (b: BuilderData)
        ensures
            b.bits_spec() == Seq::<bool>::empty(),
            b.refs_spec() == Seq::<CellData>::empty(),
    {
        let b = BuilderData { bits: Vec::new(), refs: Vec::new() };
        proof {
            assert(b.bits_spec() =~= Seq::<bool>::empty());
            assert(b.refs_spec() =~= Seq::<CellData>::empty());
        }
        b
    }

    /// Appends a single bit.
    pub fn append_bit(&mut self, b: bool)
        ensures
            final(self).bits_spec() == old(self).bits_spec().push(b),
            final(self).refs_spec() == old(self).refs_spec(),
    {
        self.bits.push(b);
        proof {
            assert(final(self).refs_spec() =~= old(self).refs_spec());
        }
    }

    /// Appends the low `w` bits of `v`, most significant first.
    pub fn append_bits(&mut self, v: u64, w: usize)
        requires
            w <= 64,
            v < pow2(w as nat),
        ensures
            final(self).bits_spec() == old(self).bits_spec() + uint_bits(v, w as nat),
            final(self).refs_spec() == old(self).refs_spec(),
    {
        let ghost enc = uint_bits(v, w as nat);
        let mut j: usize = 0;
        while j < w
            invariant
                j <= w <= 64,
                v < pow2(w as nat),
                enc == uint_bits(v, w as nat),
                self.bits@ == old(self).bits@ + enc.take(j as int),
                self.refs@ == old(self).refs@,
            decreases w - j,
        {
            let sh: u64 = (w - 1 - j) as u64;
            let bit: bool = ((v >> sh) & 1) == 1;
            proof {
                lemma_u64_shr_is_div(v, sh);
                lemma_u64_low_bits_mask_is_mod(v >> sh, 1);
                vstd::bits::lemma_low_bits_mask_values();
                assert(pow2(1) == 2) by { lemma2_to64(); };
                assert(bit == enc[j as int]);
                assert((old(self).bits@ + enc.take(j as int)).push(enc[j as int])
                    =~= old(self).bits@ + enc.take(j as int + 1));
            }
            self.bits.push(bit);
            j = j + 1;
        }
        proof {
            assert(enc.take(w as int) =~= enc);
            assert(final(self).refs_spec() =~= old(self).refs_spec());
        }
    }

    /// Appends a cell as the next child reference.
    pub fn append_reference(&mut self, c: Cell)
        ensures
            final(self).bits_spec() == old(self).bits_spec(),
            final(self).refs_spec() == old(self).refs_spec().push(c@),
    {
        self.refs.push(c);
        proof {
            assert(final(self).refs_spec() =~= old(self).refs_spec().push(c@));
        }
    }

    /// Seals the writer into a cell.
    pub fn into_cell(self) -> (c: Cell)
        ensures
            c@.bits == self.bits_spec(),
            c@.refs == self.refs_spec(),
    {
        let c = Cell { bits: self.bits, refs: self.refs };
        proof {
            assert(c.data().refs =~= self.refs_spec());
        }
        c
    }
}

/// A bit-level reader over one cell: bits and child references not yet
/// consumed.
pub struct SliceData {
    bits: Vec<bool>,
    refs: Vec<Cell>,
    bpos: usize,
    rpos: usize,
}

impl SliceData {
    /// The bits not yet read.
    pub closed spec fn rem_bits(self) -> Seq<bool> {
        if self.bpos as int <= self.bits@.len() {
            self.bits@.skip(self.bpos as int)
        } else {
            Seq::<bool>::empty()
        }
    }

    /// The contents of the child cells not yet drained.
    pub closed spec fn rem_refs(self) -> Seq<CellData> {
        let all = Seq::new(self.refs@.len(), |i: int| self.refs@[i].data());
        if self.rpos as int <= all.len() {
            all.skip(self.rpos as int)
        } else {
            Seq::<CellData>::empty()
        }
    }

    /// Opens a cell for reading.
    pub fn load_cell(c: Cell) -> (s: SliceData)
        ensures
            s.rem_bits() == c@.bits,
            s.rem_refs() == c@.refs,
    {
        let s = SliceData { bits: c.bits, refs: c.refs, bpos: 0, rpos: 0 };
        proof {
            assert(s.rem_bits() =~= c@.bits);
            assert(s.rem_refs() =~= c@.refs);
        }
        s
    }

    /// How many bits are left to read.
    pub fn bits_remaining(&self) -> (n: usize)
        ensures
            n == self.rem_bits().len(),
    {
        if self.bpos <= self.bits.len() {
            self.bits.len() - self.bpos
        } else {
            0
        }
    }

    /// How many child references are left to drain.
    pub fn refs_remaining(&self) -> (n: usize)
        ensures
            n == self.rem_refs().len(),
    {
        if self.rpos <= self.refs.len() {
            self.refs.len() - self.rpos
        } else {
            0
        }
    }

    /// Reads the next bit; fails with `CellUnderflow` when none is left.
    pub fn get_next_bit(&mut self) -> (r: Result<bool, BlockError>)
        ensures
            match r {
                Ok(b) => {
                    &&& old(self).rem_bits().len() >= 1
                    &&& b == old(self).rem_bits()[0]
                    &&& final(self).rem_bits() == old(self).rem_bits().skip(1)
                    &&& final(self).rem_refs() == old(self).rem_refs()
                },
                Err(e) => {
                    &&& e == BlockError::CellUnderflow
                    &&& old(self).rem_bits().len() == 0
                    &&& *final(self) == *old(self)
                },
            },
    {
        if self.bpos < self.bits.len() {
            let b = self.bits[self.bpos];
            self.bpos = self.bpos + 1;
            proof {
                assert(final(self).rem_bits() =~= old(self).rem_bits().skip(1));
            }
            Ok(b)
        } else {
            Err(BlockError::CellUnderflow)
        }
    }

    /// Reads the next `w` bits as a big-endian unsigned integer; fails with
    /// `CellUnderflow` when fewer than `w` bits are left.
    pub fn get_next_int(&mut self, w: usize) -> (r: Result<u64, BlockError>)
        requires
            w <= 64,
        ensures
            match r {
                Ok(v) => {
                    &&& old(self).rem_bits().len() >= w
                    &&& v as nat == bits_val(old(self).rem_bits().take(w as int))
                    &&& v < pow2(w as nat)
                    &&& final(self).rem_bits() == old(self).rem_bits().skip(w as int)
                    &&& final(self).rem_refs() == old(self).rem_refs()
                },
                Err(e) => {
                    &&& e == BlockError::CellUnderflow
                    &&& old(self).rem_bits().len() < w
                    &&& *final(self) == *old(self)
                },
            },
    {
        if w == 0 {
            proof {
                assert(pow2(0) == 1) by { lemma2_to64(); };
                assert(old(self).rem_bits().take(0) =~= Seq::<bool>::empty());
                assert(final(self).rem_bits() =~= old(self).rem_bits().skip(0));
            }
            return Ok(0);
        }
        let rem = if self.bpos <= self.bits.len() {
            self.bits.len() - self.bpos
        } else {
            0
        };
        if rem < w {
            return Err(BlockError::CellUnderflow);
        }
        let ghost s = self.rem_bits().take(w as int);
        let base = self.bpos;
        let mut acc: u64 = 0;
        let mut j: usize = 0;
        proof {
            assert(pow2(0) == 1) by { lemma2_to64(); };
        }
        while j < w
            invariant
                j <= w <= 64,
                base == self.bpos,
                base + w <= self.bits@.len(),
                self.bits@.len() <= usize::MAX,
                s == old(self).rem_bits().take(w as int),
                *self == *old(self),
                s.len() == w,
                forall|k: int| 0 <= k < w ==> s[k] == self.bits@[base + k],
                acc as nat == bits_val(s.take(j as int)),
                acc < pow2(j as nat),
            decreases w - j,
        {
            proof {
                assert(base + j < self.bits@.len());
            }
            let b = self.bits[base + j];
            proof {
                lemma2_to64();
                lemma2_to64_rest();
                if j < 63 {
                    vstd::arithmetic::power2::lemma_pow2_strictly_increases(j as nat, 63);
                }
                assert(acc < pow2(63));
                assert(s.take(j as int + 1).drop_last() =~= s.take(j as int));
                assert(s.take(j as int + 1).last() == s[j as int]);
                lemma_pow2_unfold((j + 1) as nat);
            }
            acc = acc * 2 + (if b { 1 } else { 0 });
            j = j + 1;
        }
        self.bpos = base + w;
        proof {
            assert(s.take(w as int) =~= s);
            assert(final(self).rem_bits() =~= old(self).rem_bits().skip(w as int));
            assert(final(self).rem_refs() =~= old(self).rem_refs());
            lemma_bits_val_bound(s);
        }
        Ok(acc)
    }

    /// Takes the next child cell out of the reader; fails with
    /// `CellUnderflow` when none is left.
    pub fn checked_drain_reference(&mut self) -> (r: Result<Cell, BlockError>)
        ensures
            match r {
                Ok(c) => {
                    &&& old(self).rem_refs().len() >= 1
                    &&& c@ == old(self).rem_refs()[0]
                    &&& final(self).rem_refs() == old(self).rem_refs().skip(1)
                    &&& final(self).rem_bits() == old(self).rem_bits()
                },
                Err(e) => {
                    &&& e == BlockError::CellUnderflow
                    &&& old(self).rem_refs().len() == 0
                    &&& *final(self) == *old(self)
                },
            },
    {
        if self.rpos < self.refs.len() {
            let mut taken = Cell::empty();
            self.refs.set_and_swap(self.rpos, &mut taken);
            self.rpos = self.rpos + 1;
            proof {
                assert(final(self).rem_refs() =~= old(self).rem_refs().skip(1));
                assert(final(self).rem_bits() =~= old(self).rem_bits());
            }
            Ok(taken)
        } else {
            Err(BlockError::CellUnderflow)
        }
    }
}

} // verus!
