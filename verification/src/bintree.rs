//! A binary trie keyed by bit-prefixes: the leaves partition a key space,
//! and splitting a leaf into two children or merging two sibling leaves are
//! the only topology transitions.
//!
//! Contracts speak of [`BinTree::leaves`]: the ordered sequence of
//! `(prefix, value)` pairs, left branch (`false`) before right (`true`).

use vstd::prelude::*;

verus! {

broadcast use vstd::seq::group_seq_axioms;

/// A node of the trie: a leaf holding a value, or a fork of two subtrees
/// rooted one prefix bit deeper (`0` then `1`).
#[derive(Debug)]
pub enum BinTree<T> {
    Leaf(T),
    Fork(Box<BinTree<T>>, Box<BinTree<T>>),
}

/// Every prefix of `s` extended with the bit `b` at the front.
pub open spec fn with_prefix_bit<T>(s: Seq<(Seq<bool>, T)>, b: bool) -> Seq<(Seq<bool>, T)> {
    s.map_values(|e: (Seq<bool>, T)| (seq![b] + e.0, e.1))
}

/// The first index of `s` whose prefix is exactly `key`, or `-1`.
pub open spec fn index_of_key<T>(s: Seq<(Seq<bool>, T)>, key: Seq<bool>) -> int
    decreases s.len(),
{
    if s.len() == 0 {
        -1
    } else if s[0].0 == key {
        0
    } else {
        let sub = index_of_key(s.skip(1), key);
        if sub == -1 {
            -1
        } else {
            sub + 1
        }
    }
}

/// The leaf sequence after splitting the leaf at `key` into two children.
pub open spec fn split_leaves<T>(s: Seq<(Seq<bool>, T)>, key: Seq<bool>, l: T, r: T) -> Seq<
    (Seq<bool>, T),
> {
    let i = index_of_key(s, key);
    s.take(i) + seq![(key.push(false), l), (key.push(true), r)] + s.skip(i + 1)
}

/// The leaf sequence after merging the two children of `key` into one leaf.
pub open spec fn merge_leaves<T>(s: Seq<(Seq<bool>, T)>, key: Seq<bool>, v: T) -> Seq<
    (Seq<bool>, T),
> {
    let i = index_of_key(s, key.push(false));
    s.take(i) + seq![(key, v)] + s.skip(i + 2)
}

/// The leaf sequence after replacing the value of the leaf at `key`.
pub open spec fn update_leaves<T>(s: Seq<(Seq<bool>, T)>, key: Seq<bool>, v: T) -> Seq<
    (Seq<bool>, T),
> {
    s.update(index_of_key(s, key), (key, v))
}

/// No prefix in `s` is a prefix of another entry's prefix.
pub open spec fn prefix_free<T>(s: Seq<(Seq<bool>, T)>) -> bool {
    forall|i: int, j: int|
        0 <= i < s.len() && 0 <= j < s.len() && i != j ==> !(#[trigger] s[i].0).is_prefix_of(
            #[trigger] s[j].0,
        )
}

impl<T> BinTree<T> {
    /// The ordered `(prefix, value)` pairs of the trie's leaves.
    pub open spec fn leaves(self) -> Seq<(Seq<bool>, T)>
        decreases self,
    {
        match self {
            BinTree::Leaf(v) => seq![(Seq::<bool>::empty(), v)],
            BinTree::Fork(l, r) => with_prefix_bit((*l).leaves(), false) + with_prefix_bit(
                (*r).leaves(),
                true,
            ),
        }
    }

    /// The depth of the deepest leaf.
    pub open spec fn height(self) -> nat
        decreases self,
    {
        match self {
            BinTree::Leaf(_) => 0,
            BinTree::Fork(l, r) => {
                let hl = (*l).height();
                let hr = (*r).height();
                if hl >= hr {
                    hl + 1
                } else {
                    hr + 1
                }
            },
        }
    }

    /// Descends along `key` until a leaf: the depth it stops at and the
    /// value found, or `None` when the key is exhausted at a fork.
    pub open spec fn find_spec(self, key: Seq<bool>) -> Option<(int, T)>
        decreases self,
    {
        match self {
            BinTree::Leaf(v) => Some((0, v)),
            BinTree::Fork(l, r) => {
                if key.len() == 0 {
                    None
                } else {
                    let child = if key[0] {
                        *r
                    } else {
                        *l
                    };
                    match child.find_spec(key.skip(1)) {
                        Some((d, v)) => Some((d + 1, v)),
                        None => None,
                    }
                }
            },
        }
    }

    /// The value of the leaf exactly at `key`, if the trie has one there.
    pub open spec fn get_spec(self, key: Seq<bool>) -> Option<T>
        decreases self,
    {
        match self {
            BinTree::Leaf(v) => if key.len() == 0 {
                Some(v)
            } else {
                None
            },
            BinTree::Fork(l, r) => {
                if key.len() == 0 {
                    None
                } else {
                    let child = if key[0] {
                        *r
                    } else {
                        *l
                    };
                    child.get_spec(key.skip(1))
                }
            },
        }
    }

    /// The two leaf values of the fork exactly at `key`, if the node there
    /// is a fork of two leaves.
    pub open spec fn pair_at(self, key: Seq<bool>) -> Option<(T, T)>
        decreases self,
    {
        match self {
            BinTree::Leaf(_) => None,
            BinTree::Fork(l, r) => {
                if key.len() == 0 {
                    match (*l, *r) {
                        (BinTree::Leaf(a), BinTree::Leaf(b)) => Some((a, b)),
                        _ => None,
                    }
                } else {
                    let child = if key[0] {
                        *r
                    } else {
                        *l
                    };
                    child.pair_at(key.skip(1))
                }
            },
        }
    }

    /// A trie of one leaf covering the whole key space.
    pub fn with_item(value: T) -> (t: Self)
        ensures
            t.leaves() == seq![(Seq::<bool>::empty(), value)],
            t.height() == 0,
    {
        BinTree::Leaf(value)
    }
}

} // verus!

verus! {

/// `index_of_key` returns `-1` or a position holding exactly `key`, and the
/// first such position.
pub proof fn lemma_index_props<T>(s: Seq<(Seq<bool>, T)>, key: Seq<bool>)
    ensures
        index_of_key(s, key) == -1 || (0 <= index_of_key(s, key) < s.len() && s[index_of_key(
            s,
            key,
        )].0 == key),
        forall|j: int| 0 <= j < index_of_key(s, key) ==> (#[trigger] s[j]).0 != key,
        index_of_key(s, key) == -1 ==> forall|j: int| 0 <= j < s.len() ==> (#[trigger] s[j]).0
            != key,
    decreases s.len(),
{
    if s.len() > 0 && s[0].0 != key {
        lemma_index_props(s.skip(1), key);
        assert forall|j: int| 0 <= j < index_of_key(s, key) implies (#[trigger] s[j]).0 != key by {
            if j > 0 {
                assert(s.skip(1)[j - 1] == s[j]);
            }
        };
        if index_of_key(s, key) == -1 {
            assert forall|j: int| 0 <= j < s.len() implies (#[trigger] s[j]).0 != key by {
                if j > 0 {
                    assert(s.skip(1)[j - 1] == s[j]);
                }
            };
        }
    }
}

/// How `index_of_key` looks through a concatenation.
pub proof fn lemma_index_append<T>(s1: Seq<(Seq<bool>, T)>, s2: Seq<(Seq<bool>, T)>, key: Seq<
    bool,
>)
    ensures
        index_of_key(s1, key) >= 0 ==> index_of_key(s1 + s2, key) == index_of_key(s1, key),
        index_of_key(s1, key) < 0 && index_of_key(s2, key) >= 0 ==> index_of_key(s1 + s2, key)
            == s1.len() + index_of_key(s2, key),
        index_of_key(s1, key) < 0 && index_of_key(s2, key) < 0 ==> index_of_key(s1 + s2, key)
            == -1,
    decreases s1.len(),
{
    lemma_index_props(s2, key);
    if s1.len() == 0 {
        assert(s1 + s2 =~~= s2);
        assert(index_of_key(s1, key) == -1);
    } else {
        assert((s1 + s2).len() == s1.len() + s2.len());
        assert((s1 + s2)[0] == s1[0]);
        assert((s1 + s2).skip(1) =~~= s1.skip(1) + s2);
        lemma_index_append(s1.skip(1), s2, key);
        if s1[0].0 == key {
            assert(index_of_key(s1 + s2, key) == 0);
            assert(index_of_key(s1, key) == 0);
        } else {
            let sub = index_of_key(s1.skip(1) + s2, key);
            assert(index_of_key(s1 + s2, key) == if sub == -1 { -1 } else { sub + 1 });
            let sub1 = index_of_key(s1.skip(1), key);
            assert(index_of_key(s1, key) == if sub1 == -1 { -1 } else { sub1 + 1 });
        }
    }
}

/// How `index_of_key` looks through a prefix-bit map: only keys starting
/// with that bit are found, at the same position.
pub proof fn lemma_index_prefix_bit<T>(s: Seq<(Seq<bool>, T)>, b: bool, key: Seq<bool>)
    ensures
        key.len() > 0 && key[0] == b ==> index_of_key(with_prefix_bit(s, b), key) == index_of_key(
            s,
            key.skip(1),
        ),
        key.len() == 0 || key[0] != b ==> index_of_key(with_prefix_bit(s, b), key) == -1,
    decreases s.len(),
{
    if s.len() > 0 {
        assert(with_prefix_bit(s, b)[0] == (seq![b] + s[0].0, s[0].1));
        assert(with_prefix_bit(s, b).skip(1) =~~= with_prefix_bit(s.skip(1), b));
        lemma_index_prefix_bit(s.skip(1), b, key);
        if key.len() > 0 && key[0] == b {
            assert((seq![b] + s[0].0 == key) <==> (s[0].0 == key.skip(1))) by {
                if seq![b] + s[0].0 == key {
                    assert(s[0].0 =~~= key.skip(1));
                }
                if s[0].0 == key.skip(1) {
                    assert(seq![b] + s[0].0 =~~= key);
                }
            };
        } else {
            assert(seq![b] + s[0].0 != key) by {
                if seq![b] + s[0].0 == key {
                    assert(key.len() > 0 && key[0] == b);
                }
            };
        }
    }
}

/// `with_prefix_bit` distributes over concatenation, `take` and `skip`.
pub proof fn lemma_prefix_bit_parts<T>(s1: Seq<(Seq<bool>, T)>, s2: Seq<(Seq<bool>, T)>, b: bool)
    ensures
        with_prefix_bit(s1 + s2, b) == with_prefix_bit(s1, b) + with_prefix_bit(s2, b),
        forall|i: int| 0 <= i <= s1.len() ==> #[trigger] with_prefix_bit(s1.take(i), b)
            == with_prefix_bit(s1, b).take(i),
        forall|i: int| 0 <= i <= s1.len() ==> #[trigger] with_prefix_bit(s1.skip(i), b)
            == with_prefix_bit(s1, b).skip(i),
{
    assert(with_prefix_bit(s1 + s2, b) =~~= with_prefix_bit(s1, b) + with_prefix_bit(s2, b));
    assert forall|i: int| 0 <= i <= s1.len() implies #[trigger] with_prefix_bit(s1.take(i), b)
        == with_prefix_bit(s1, b).take(i) by {
        assert(with_prefix_bit(s1.take(i), b) =~~= with_prefix_bit(s1, b).take(i));
    };
    assert forall|i: int| 0 <= i <= s1.len() implies #[trigger] with_prefix_bit(s1.skip(i), b)
        == with_prefix_bit(s1, b).skip(i) by {
        assert(with_prefix_bit(s1.skip(i), b) =~~= with_prefix_bit(s1, b).skip(i));
    };
}

impl<T> BinTree<T> {
    /// Replaces the leaf exactly at `key` by a fork of two new leaves.
    /// Returns the changed trie and whether the leaf was found; an unfound
    /// key leaves the trie as it was.
    pub fn split(self, key: &Vec<bool>, left: T, right: T) -> (res: (Self, bool))
        ensures
            res.1 == self.get_spec(key@).is_some(),
            res.1 ==> index_of_key(self.leaves(), key@) >= 0 && res.0.leaves() == split_leaves(
                self.leaves(),
                key@,
                left,
                right,
            ) && res.0.pair_at(key@) == Some((left, right)),
            !res.1 ==> res.0.leaves() == self.leaves(),
    {
        proof {
            assert(key@.skip(0) =~~= key@);
        }
        Self::split_at(self, key, 0, left, right)
    }

    fn split_at(node: Self, key: &Vec<bool>, pos: usize, left: T, right: T) -> (res: (Self, bool))
        requires
            pos <= key@.len(),
        ensures
            res.1 == node.get_spec(key@.skip(pos as int)).is_some(),
            res.1 ==> index_of_key(node.leaves(), key@.skip(pos as int)) >= 0 && res.0.leaves()
                == split_leaves(node.leaves(), key@.skip(pos as int), left, right)
                && res.0.pair_at(key@.skip(pos as int)) == Some((left, right)),
            !res.1 ==> res.0.leaves() == node.leaves(),
        decreases node,
    {
        let ghost k = key@.skip(pos as int);
        match node {
            BinTree::Leaf(v) => {
                if pos == key.len() {
                    let t = BinTree::Fork(
                        Box::new(BinTree::Leaf(left)),
                        Box::new(BinTree::Leaf(right)),
                    );
                    proof {
                        assert(k =~~= Seq::<bool>::empty());
                        assert(node.leaves() =~~= seq![(Seq::<bool>::empty(), v)]);
                        assert(index_of_key(node.leaves(), k) == 0);
                        assert(BinTree::<T>::Leaf(left).leaves() =~~= seq![
                            (Seq::<bool>::empty(), left),
                        ]);
                        assert(BinTree::<T>::Leaf(right).leaves() =~~= seq![
                            (Seq::<bool>::empty(), right),
                        ]);
                        assert(t.leaves() =~~= with_prefix_bit(
                            seq![(Seq::<bool>::empty(), left)],
                            false,
                        ) + with_prefix_bit(seq![(Seq::<bool>::empty(), right)], true));
                        assert(t.leaves() =~~= seq![(k.push(false), left), (k.push(true), right)]);
                        assert(split_leaves(node.leaves(), k, left, right) =~~= seq![
                            (k.push(false), left),
                            (k.push(true), right),
                        ]);
                        assert(t.pair_at(k) == Some((left, right)));
                    }
                    (t, true)
                } else {
                    (BinTree::Leaf(v), false)
                }
            },
            BinTree::Fork(l, r) => {
                if pos == key.len() {
                    (BinTree::Fork(l, r), false)
                } else {
                    let bit = key[pos];
                    let ghost ll = (*l).leaves();
                    let ghost rl = (*r).leaves();
                    proof {
                        assert(k[0] == bit);
                        assert(key@.skip(pos as int + 1) =~~= k.skip(1));
                    }
                    if bit {
                        let (nr, ok) = Self::split_at(*r, key, pos + 1, left, right);
                        let t = BinTree::Fork(l, Box::new(nr));
                        proof {
                            if ok {
                                Self::lemma_split_lift(ll, rl, k, k.skip(1), left, right, nr.leaves(), true);
                            }
                        }
                        (t, ok)
                    } else {
                        let (nl, ok) = Self::split_at(*l, key, pos + 1, left, right);
                        let t = BinTree::Fork(Box::new(nl), r);
                        proof {
                            if ok {
                                Self::lemma_split_lift(ll, rl, k, k.skip(1), left, right, nl.leaves(), false);
                            }
                        }
                        (t, ok)
                    }
                }
            },
        }
    }

    /// Lifts a child-level split of the leaf sequence to the fork level.
    proof fn lemma_split_lift(
        ll: Seq<(Seq<bool>, T)>,
        rl: Seq<(Seq<bool>, T)>,
        k: Seq<bool>,
        rest: Seq<bool>,
        left: T,
        right: T,
        child_new: Seq<(Seq<bool>, T)>,
        bit: bool,
    )
        requires
            k.len() > 0,
            k[0] == bit,
            rest == k.skip(1),
            index_of_key(if bit { rl } else { ll }, rest) >= 0,
            child_new == split_leaves(if bit { rl } else { ll }, rest, left, right),
        ensures
            index_of_key(with_prefix_bit(ll, false) + with_prefix_bit(rl, true), k) >= 0,
            (if bit {
                with_prefix_bit(ll, false) + with_prefix_bit(child_new, true)
            } else {
                with_prefix_bit(child_new, false) + with_prefix_bit(rl, true)
            }) == split_leaves(with_prefix_bit(ll, false) + with_prefix_bit(rl, true), k, left, right),
    {
        let pl = with_prefix_bit(ll, false);
        let pr = with_prefix_bit(rl, true);
        let whole = pl + pr;
        lemma_index_prefix_bit(ll, false, k);
        lemma_index_prefix_bit(rl, true, k);
        lemma_index_append(pl, pr, k);
        let cl = if bit { rl } else { ll };
        let i = index_of_key(cl, rest);
        lemma_index_props(cl, rest);
        lemma_prefix_bit_parts(cl, cl, bit);
        let iw = index_of_key(whole, k);
        assert(iw == if bit { pl.len() + i } else { i });
        // expand both sides and compare element-wise
        let mid = seq![(rest.push(false), left), (rest.push(true), right)];
        let midw = seq![(k.push(false), left), (k.push(true), right)];
        assert(with_prefix_bit(mid, bit) =~~= midw) by {
            assert(seq![bit] + rest.push(false) =~~= k.push(false));
            assert(seq![bit] + rest.push(true) =~~= k.push(true));
        };
        assert(with_prefix_bit(child_new, bit) =~~= with_prefix_bit(cl.take(i), bit) + with_prefix_bit(mid, bit)
            + with_prefix_bit(cl.skip(i + 1), bit)) by {
            assert(child_new == cl.take(i) + mid + cl.skip(i + 1));
            assert(with_prefix_bit(cl.take(i) + mid + cl.skip(i + 1), bit) =~~= with_prefix_bit(
                cl.take(i),
                bit,
            ) + with_prefix_bit(mid, bit) + with_prefix_bit(cl.skip(i + 1), bit));
        };
        if bit {
            assert(whole.take(iw) =~~= pl + with_prefix_bit(rl, true).take(i));
            assert(whole.skip(iw + 1) =~~= with_prefix_bit(rl, true).skip(i + 1));
            lemma_prefix_bit_parts(rl, rl, true);
            assert(pl + with_prefix_bit(child_new, true) =~~= whole.take(iw) + midw + whole.skip(
                iw + 1,
            ));
        } else {
            assert(whole.take(iw) =~~= with_prefix_bit(ll, false).take(i));
            assert(whole.skip(iw + 1) =~~= with_prefix_bit(ll, false).skip(i + 1) + pr);
            lemma_prefix_bit_parts(ll, ll, false);
            assert(with_prefix_bit(child_new, false) + pr =~~= whole.take(iw) + midw + whole.skip(
                iw + 1,
            ));
        }
    }
}

} // verus!

verus! {

/// Copies a bit vector.
pub fn copy_bits(v: &Vec<bool>) -> (r: Vec<bool>)
    ensures
        r@ == v@,
{
    let mut r: Vec<bool> = Vec::new();
    let mut i: usize = 0;
    while i < v.len()
        invariant
            i <= v@.len(),
            r@ =~= v@.take(i as int),
        decreases v@.len() - i,
    {
        r.push(v[i]);
        proof {
            assert(r@ =~= v@.take(i as int + 1));
        }
        i = i + 1;
    }
    proof {
        assert(v@.take(v@.len() as int) =~= v@);
    }
    r
}

impl<T> BinTree<T> {
    /// Replaces the fork of two leaves exactly at `key` by one leaf holding
    /// `value`. Returns the changed trie and whether such a fork was found;
    /// an unfound key leaves the trie as it was.
    pub fn merge(self, key: &Vec<bool>, value: T) -> (res: (Self, bool))
        ensures
            res.1 == self.pair_at(key@).is_some(),
            res.1 ==> ({
                let i = index_of_key(self.leaves(), key@.push(false));
                &&& i >= 0
                &&& i + 2 <= self.leaves().len()
                &&& res.0.leaves() == merge_leaves(self.leaves(), key@, value)
                &&& res.0.get_spec(key@) == Some(value)
            }),
            !res.1 ==> res.0.leaves() == self.leaves(),
    {
        proof {
            assert(key@.skip(0) =~~= key@);
        }
        Self::merge_at(self, key, 0, value)
    }

    fn merge_at(node: Self, key: &Vec<bool>, pos: usize, value: T) -> (res: (Self, bool))
        requires
            pos <= key@.len(),
        ensures
            res.1 == node.pair_at(key@.skip(pos as int)).is_some(),
            res.1 ==> ({
                let k = key@.skip(pos as int);
                let i = index_of_key(node.leaves(), k.push(false));
                &&& i >= 0
                &&& i + 2 <= node.leaves().len()
                &&& res.0.leaves() == merge_leaves(node.leaves(), k, value)
                &&& res.0.get_spec(k) == Some(value)
            }),
            !res.1 ==> res.0.leaves() == node.leaves(),
        decreases node,
    {
        let ghost k = key@.skip(pos as int);
        match node {
            BinTree::Leaf(v) => (BinTree::Leaf(v), false),
            BinTree::Fork(l, r) => {
                if pos == key.len() {
                    let l_is_leaf = (matches!(&*l, BinTree::Leaf(_)));
                    let r_is_leaf = (matches!(&*r, BinTree::Leaf(_)));
                    if l_is_leaf && r_is_leaf {
                        let t = BinTree::Leaf(value);
                        proof {
                            assert(k =~~= Seq::<bool>::empty());
                            let lv = (*l).leaves()[0].1;
                            let rv = (*r).leaves()[0].1;
                            assert((*l).leaves() =~~= seq![(Seq::<bool>::empty(), lv)]);
                            assert((*r).leaves() =~~= seq![(Seq::<bool>::empty(), rv)]);
                            let whole = with_prefix_bit((*l).leaves(), false) + with_prefix_bit(
                                (*r).leaves(),
                                true,
                            );
                            assert(node.leaves() == whole);
                            assert(whole =~~= seq![(k.push(false), lv), (k.push(true), rv)]);
                            assert(index_of_key(node.leaves(), k.push(false)) == 0);
                            assert(t.leaves() =~~= seq![(k, value)]);
                            assert(merge_leaves(node.leaves(), k, value) =~~= seq![(k, value)]);
                        }
                        (t, true)
                    } else {
                        (BinTree::Fork(l, r), false)
                    }
                } else {
                    let bit = key[pos];
                    let ghost ll = (*l).leaves();
                    let ghost rl = (*r).leaves();
                    proof {
                        assert(k[0] == bit);
                        assert(key@.skip(pos as int + 1) =~~= k.skip(1));
                    }
                    if bit {
                        let (nr, ok) = Self::merge_at(*r, key, pos + 1, value);
                        let t = BinTree::Fork(l, Box::new(nr));
                        proof {
                            if ok {
                                Self::lemma_merge_lift(ll, rl, k, k.skip(1), value, nr.leaves(), true);
                            }
                        }
                        (t, ok)
                    } else {
                        let (nl, ok) = Self::merge_at(*l, key, pos + 1, value);
                        let t = BinTree::Fork(Box::new(nl), r);
                        proof {
                            if ok {
                                Self::lemma_merge_lift(ll, rl, k, k.skip(1), value, nl.leaves(), false);
                            }
                        }
                        (t, ok)
                    }
                }
            },
        }
    }

    /// Lifts a child-level merge of the leaf sequence to the fork level.
    proof fn lemma_merge_lift(
        ll: Seq<(Seq<bool>, T)>,
        rl: Seq<(Seq<bool>, T)>,
        k: Seq<bool>,
        rest: Seq<bool>,
        value: T,
        child_new: Seq<(Seq<bool>, T)>,
        bit: bool,
    )
        requires
            k.len() > 0,
            k[0] == bit,
            rest == k.skip(1),
            index_of_key(if bit { rl } else { ll }, rest.push(false)) >= 0,
            index_of_key(if bit { rl } else { ll }, rest.push(false)) + 2 <= (if bit { rl } else { ll }).len(),
            child_new == merge_leaves(if bit { rl } else { ll }, rest, value),
        ensures
            ({
                let whole = with_prefix_bit(ll, false) + with_prefix_bit(rl, true);
                let i = index_of_key(whole, k.push(false));
                &&& i >= 0
                &&& i + 2 <= whole.len()
                &&& (if bit {
                    with_prefix_bit(ll, false) + with_prefix_bit(child_new, true)
                } else {
                    with_prefix_bit(child_new, false) + with_prefix_bit(rl, true)
                }) == merge_leaves(whole, k, value)
            }),
    {
        let pl = with_prefix_bit(ll, false);
        let pr = with_prefix_bit(rl, true);
        let whole = pl + pr;
        let kf = k.push(false);
        assert(kf.len() > 0 && kf[0] == bit && kf.skip(1) =~~= rest.push(false));
        lemma_index_prefix_bit(ll, false, kf);
        lemma_index_prefix_bit(rl, true, kf);
        lemma_index_append(pl, pr, kf);
        let cl = if bit { rl } else { ll };
        let i = index_of_key(cl, rest.push(false));
        lemma_index_props(cl, rest.push(false));
        lemma_prefix_bit_parts(cl, cl, bit);
        let iw = index_of_key(whole, kf);
        assert(iw == if bit { pl.len() + i } else { i });
        let mid = seq![(rest, value)];
        let midw = seq![(k, value)];
        assert(with_prefix_bit(mid, bit) =~~= midw) by {
            assert(seq![bit] + rest =~~= k);
        };
        assert(with_prefix_bit(child_new, bit) =~~= with_prefix_bit(cl.take(i), bit)
            + with_prefix_bit(mid, bit) + with_prefix_bit(cl.skip(i + 2), bit)) by {
            assert(child_new == cl.take(i) + mid + cl.skip(i + 2));
            assert(with_prefix_bit(cl.take(i) + mid + cl.skip(i + 2), bit) =~~= with_prefix_bit(
                cl.take(i),
                bit,
            ) + with_prefix_bit(mid, bit) + with_prefix_bit(cl.skip(i + 2), bit));
        };
        if bit {
            assert(whole.take(iw) =~~= pl + with_prefix_bit(rl, true).take(i));
            assert(whole.skip(iw + 2) =~~= with_prefix_bit(rl, true).skip(i + 2));
            assert(pl + with_prefix_bit(child_new, true) =~~= whole.take(iw) + midw + whole.skip(
                iw + 2,
            ));
        } else {
            assert(whole.take(iw) =~~= with_prefix_bit(ll, false).take(i));
            assert(whole.skip(iw + 2) =~~= with_prefix_bit(ll, false).skip(i + 2) + pr);
            assert(with_prefix_bit(child_new, false) + pr =~~= whole.take(iw) + midw + whole.skip(
                iw + 2,
            ));
        }
    }

    /// Replaces the value of the leaf exactly at `key`. Returns the changed
    /// trie and whether the leaf was found.
    pub fn update(self, key: &Vec<bool>, value: T) -> (res: (Self, bool))
        ensures
            res.1 == self.get_spec(key@).is_some(),
            res.1 ==> ({
                let i = index_of_key(self.leaves(), key@);
                &&& i >= 0
                &&& res.0.leaves() == update_leaves(self.leaves(), key@, value)
                &&& res.0.get_spec(key@) == Some(value)
            }),
            !res.1 ==> res.0.leaves() == self.leaves(),
    {
        proof {
            assert(key@.skip(0) =~~= key@);
        }
        Self::update_at(self, key, 0, value)
    }

    fn update_at(node: Self, key: &Vec<bool>, pos: usize, value: T) -> (res: (Self, bool))
        requires
            pos <= key@.len(),
        ensures
            res.1 == node.get_spec(key@.skip(pos as int)).is_some(),
            res.1 ==> ({
                let k = key@.skip(pos as int);
                let i = index_of_key(node.leaves(), k);
                &&& i >= 0
                &&& res.0.leaves() == update_leaves(node.leaves(), k, value)
                &&& res.0.get_spec(k) == Some(value)
            }),
            !res.1 ==> res.0.leaves() == node.leaves(),
        decreases node,
    {
        let ghost k = key@.skip(pos as int);
        match node {
            BinTree::Leaf(v) => {
                if pos == key.len() {
                    let t = BinTree::Leaf(value);
                    proof {
                        assert(k =~~= Seq::<bool>::empty());
                        assert(node.leaves() =~~= seq![(Seq::<bool>::empty(), v)]);
                        assert(index_of_key(node.leaves(), k) == 0);
                        assert(t.leaves() =~~= seq![(k, value)]);
                        assert(update_leaves(node.leaves(), k, value) =~~= seq![(k, value)]);
                    }
                    (t, true)
                } else {
                    (BinTree::Leaf(v), false)
                }
            },
            BinTree::Fork(l, r) => {
                if pos == key.len() {
                    (BinTree::Fork(l, r), false)
                } else {
                    let bit = key[pos];
                    let ghost ll = (*l).leaves();
                    let ghost rl = (*r).leaves();
                    proof {
                        assert(k[0] == bit);
                        assert(key@.skip(pos as int + 1) =~~= k.skip(1));
                    }
                    if bit {
                        let (nr, ok) = Self::update_at(*r, key, pos + 1, value);
                        let t = BinTree::Fork(l, Box::new(nr));
                        proof {
                            if ok {
                                Self::lemma_update_lift(ll, rl, k, k.skip(1), value, nr.leaves(), true);
                            }
                        }
                        (t, ok)
                    } else {
                        let (nl, ok) = Self::update_at(*l, key, pos + 1, value);
                        let t = BinTree::Fork(Box::new(nl), r);
                        proof {
                            if ok {
                                Self::lemma_update_lift(ll, rl, k, k.skip(1), value, nl.leaves(), false);
                            }
                        }
                        (t, ok)
                    }
                }
            },
        }
    }

    /// Lifts a child-level leaf update of the leaf sequence to the fork
    /// level.
    proof fn lemma_update_lift(
        ll: Seq<(Seq<bool>, T)>,
        rl: Seq<(Seq<bool>, T)>,
        k: Seq<bool>,
        rest: Seq<bool>,
        value: T,
        child_new: Seq<(Seq<bool>, T)>,
        bit: bool,
    )
        requires
            k.len() > 0,
            k[0] == bit,
            rest == k.skip(1),
            index_of_key(if bit { rl } else { ll }, rest) >= 0,
            child_new == update_leaves(if bit { rl } else { ll }, rest, value),
        ensures
            index_of_key(with_prefix_bit(ll, false) + with_prefix_bit(rl, true), k) >= 0,
            (if bit {
                with_prefix_bit(ll, false) + with_prefix_bit(child_new, true)
            } else {
                with_prefix_bit(child_new, false) + with_prefix_bit(rl, true)
            }) == update_leaves(with_prefix_bit(ll, false) + with_prefix_bit(rl, true), k, value),
    {
        let pl = with_prefix_bit(ll, false);
        let pr = with_prefix_bit(rl, true);
        let whole = pl + pr;
        lemma_index_prefix_bit(ll, false, k);
        lemma_index_prefix_bit(rl, true, k);
        lemma_index_append(pl, pr, k);
        let cl = if bit { rl } else { ll };
        let i = index_of_key(cl, rest);
        lemma_index_props(cl, rest);
        let iw = index_of_key(whole, k);
        assert(iw == if bit { pl.len() + i } else { i });
        assert(with_prefix_bit(child_new, bit) =~~= with_prefix_bit(cl, bit).update(
            i,
            (k, value),
        )) by {
            assert(seq![bit] + rest =~~= k);
            assert(child_new == cl.update(i, (rest, value)));
        };
        if bit {
            assert(pl + with_prefix_bit(child_new, true) =~~= whole.update(iw, (k, value)));
        } else {
            assert(with_prefix_bit(child_new, false) + pr =~~= whole.update(iw, (k, value)));
        }
    }
}

} // verus!

verus! {

impl<T> BinTree<T> {
    fn find_at<'a>(node: &'a BinTree<T>, key: &Vec<bool>, pos: usize) -> (res: Option<
        (usize, &'a T),
    >)
        requires
            pos <= key@.len(),
        ensures
            match (res, node.find_spec(key@.skip(pos as int))) {
                (Some((d, v)), Some((ds, vs))) => d == ds && *v == vs && d <= key@.len() - pos,
                (None, None) => true,
                _ => false,
            },
        decreases *node,
    {
        let ghost k = key@.skip(pos as int);
        match node {
            BinTree::Leaf(v) => Some((0, v)),
            BinTree::Fork(l, r) => {
                if pos == key.len() {
                    None
                } else {
                    let bit = key[pos];
                    proof {
                        assert(k[0] == bit);
                        assert(key@.skip(pos as int + 1) =~~= k.skip(1));
                    }
                    let sub = if bit {
                        Self::find_at(&**r, key, pos + 1)
                    } else {
                        Self::find_at(&**l, key, pos + 1)
                    };
                    match sub {
                        Some((d, v)) => Some((d + 1, v)),
                        None => None,
                    }
                }
            },
        }
    }

    /// Descends along `key` to the leaf matched by the shortest prefix of
    /// it, returning that prefix and the value, or `None` when the key is
    /// exhausted before reaching a leaf.
    pub fn find(&self, key: &Vec<bool>) -> (res: Option<(Vec<bool>, &T)>)
        ensures
            res.is_some() == self.find_spec(key@).is_some(),
            res.is_some() ==> ({
                let (p, v) = res.unwrap();
                let (d, vs) = self.find_spec(key@).unwrap();
                &&& p@ == key@.take(d)
                &&& *v == vs
                &&& 0 <= d <= key@.len()
            }),
    {
        proof {
            assert(key@.skip(0) =~~= key@);
        }
        match Self::find_at(self, key, 0) {
            None => None,
            Some((d, v)) => {
                let mut p: Vec<bool> = Vec::new();
                let mut i: usize = 0;
                while i < d
                    invariant
                        i <= d <= key@.len(),
                        p@ =~~= key@.take(d as int).take(i as int),
                    decreases d - i,
                {
                    p.push(key[i]);
                    proof {
                        assert(p@ =~~= key@.take(d as int).take(i as int + 1));
                    }
                    i = i + 1;
                }
                proof {
                    assert(key@.take(d as int).take(d as int) =~~= key@.take(d as int));
                }
                Some((p, v))
            },
        }
    }

    /// The value of the leaf exactly at `key`, if the trie has one there.
    pub fn get(&self, key: &Vec<bool>) -> (res: Option<&T>)
        ensures
            match (res, self.get_spec(key@)) {
                (Some(v), Some(vs)) => *v == vs,
                (None, None) => true,
                _ => false,
            },
    {
        proof {
            assert(key@.skip(0) =~~= key@);
        }
        Self::get_at(self, key, 0)
    }

    fn get_at<'a>(node: &'a BinTree<T>, key: &Vec<bool>, pos: usize) -> (res: Option<&'a T>)
        requires
            pos <= key@.len(),
        ensures
            match (res, node.get_spec(key@.skip(pos as int))) {
                (Some(v), Some(vs)) => *v == vs,
                (None, None) => true,
                _ => false,
            },
        decreases *node,
    {
        let ghost k = key@.skip(pos as int);
        match node {
            BinTree::Leaf(v) => {
                if pos == key.len() {
                    Some(v)
                } else {
                    None
                }
            },
            BinTree::Fork(l, r) => {
                if pos == key.len() {
                    None
                } else {
                    let bit = key[pos];
                    proof {
                        assert(k[0] == bit);
                        assert(key@.skip(pos as int + 1) =~~= k.skip(1));
                    }
                    if bit {
                        Self::get_at(&**r, key, pos + 1)
                    } else {
                        Self::get_at(&**l, key, pos + 1)
                    }
                }
            },
        }
    }

    /// The two leaf values of the fork exactly at `key`, if the node there
    /// is a fork of two leaves.
    pub fn get_pair(&self, key: &Vec<bool>) -> (res: Option<(&T, &T)>)
        ensures
            match (res, self.pair_at(key@)) {
                (Some((a, b)), Some((sa, sb))) => *a == sa && *b == sb,
                (None, None) => true,
                _ => false,
            },
    {
        proof {
            assert(key@.skip(0) =~~= key@);
        }
        Self::get_pair_at(self, key, 0)
    }

    fn get_pair_at<'a>(node: &'a BinTree<T>, key: &Vec<bool>, pos: usize) -> (res: Option<
        (&'a T, &'a T),
    >)
        requires
            pos <= key@.len(),
        ensures
            match (res, node.pair_at(key@.skip(pos as int))) {
                (Some((a, b)), Some((sa, sb))) => *a == sa && *b == sb,
                (None, None) => true,
                _ => false,
            },
        decreases *node,
    {
        let ghost k = key@.skip(pos as int);
        match node {
            BinTree::Leaf(_) => None,
            BinTree::Fork(l, r) => {
                if pos == key.len() {
                    match (&**l, &**r) {
                        (BinTree::Leaf(a), BinTree::Leaf(b)) => Some((a, b)),
                        _ => None,
                    }
                } else {
                    let bit = key[pos];
                    proof {
                        assert(k[0] == bit);
                        assert(key@.skip(pos as int + 1) =~~= k.skip(1));
                    }
                    if bit {
                        Self::get_pair_at(&**r, key, pos + 1)
                    } else {
                        Self::get_pair_at(&**l, key, pos + 1)
                    }
                }
            },
        }
    }

    fn collect_leaves<'a>(
        node: &'a BinTree<T>,
        path: &mut Vec<bool>,
        out: &mut Vec<(Vec<bool>, &'a T)>,
    )
        ensures
            final(path)@ == old(path)@,
            final(out)@.len() == old(out)@.len() + node.leaves().len(),
            forall|i: int| 0 <= i < old(out)@.len() ==> #[trigger] final(out)@[i] == old(out)@[i],
            forall|i: int|
                0 <= i < node.leaves().len() ==> (#[trigger] final(out)@[old(out)@.len() + i]).0@
                    == old(path)@ + node.leaves()[i].0 && *final(out)@[old(out)@.len() + i].1
                    == node.leaves()[i].1,
        decreases *node,
    {
        match node {
            BinTree::Leaf(v) => {
                let p = copy_bits(path);
                out.push((p, v));
                proof {
                    assert(node.leaves() =~~= seq![(Seq::<bool>::empty(), *v)]);
                    assert(old(path)@ + Seq::<bool>::empty() =~~= old(path)@);
                }
            },
            BinTree::Fork(l, r) => {
                let ghost mid_marker = out@;
                path.push(false);
                Self::collect_leaves(&**l, path, out);
                let ghost after_l = out@;
                let _ = path.pop();
                proof {
                    assert(path@ =~~= old(path)@);
                }
                path.push(true);
                Self::collect_leaves(&**r, path, out);
                let _ = path.pop();
                proof {
                    assert(path@ =~~= old(path)@);
                    let ll = (*l).leaves();
                    let rl = (*r).leaves();
                    let whole = with_prefix_bit(ll, false) + with_prefix_bit(rl, true);
                    assert(node.leaves() == whole);
                    assert forall|i: int| 0 <= i < whole.len() implies (#[trigger] out@[mid_marker.len() + i]).0@ == old(path)@ + whole[i].0 && *out@[mid_marker.len() + i].1 == whole[i].1 by {
                        if i < ll.len() {
                            assert(out@[mid_marker.len() + i] == after_l[mid_marker.len() + i]);
                            assert(after_l[mid_marker.len() + i].0@ == old(path)@.push(false)
                                + ll[i].0);
                            assert(old(path)@.push(false) + ll[i].0 =~~= old(path)@ + whole[i].0);
                        } else {
                            let j = i - ll.len();
                            assert(out@[after_l.len() + j].0@ == old(path)@.push(true) + rl[j].0);
                            assert(old(path)@.push(true) + rl[j].0 =~~= old(path)@ + whole[i].0);
                        }
                    };
                }
            },
        }
    }

    /// Every `(prefix, value)` pair of the trie in order, left before right.
    pub fn leaves_vec(&self) -> (out: Vec<(Vec<bool>, &T)>)
        ensures
            out@.len() == self.leaves().len(),
            forall|i: int|
                0 <= i < out@.len() ==> (#[trigger] out@[i]).0@ == self.leaves()[i].0
                    && *out@[i].1 == self.leaves()[i].1,
    {
        let mut path: Vec<bool> = Vec::new();
        let mut out: Vec<(Vec<bool>, &T)> = Vec::new();
        Self::collect_leaves(self, &mut path, &mut out);
        proof {
            assert forall|i: int| 0 <= i < out@.len() implies (#[trigger] out@[i]).0@
                == self.leaves()[i].0 && *out@[i].1 == self.leaves()[i].1 by {
                assert((out@[0 + i]).0@ == Seq::<bool>::empty() + self.leaves()[i].0);
                assert(*(out@[0 + i]).1 == self.leaves()[i].1);
                assert(Seq::<bool>::empty() + self.leaves()[i].0 =~~= self.leaves()[i].0);
            };
        }
        out
    }
}

} // verus!

verus! {

/// A successful descent stops at a depth within the key.
pub proof fn lemma_find_spec_depth<T>(t: BinTree<T>, key: Seq<bool>)
    ensures
        t.find_spec(key) matches Some((d, v)) ==> 0 <= d <= key.len(),
    decreases t,
{
    match t {
        BinTree::Leaf(_) => {},
        BinTree::Fork(l, r) => {
            if key.len() > 0 {
                if key[0] {
                    lemma_find_spec_depth(*r, key.skip(1));
                } else {
                    lemma_find_spec_depth(*l, key.skip(1));
                }
            }
        },
    }
}

/// Extending both strings with the same front bit preserves the
/// prefix relation, and differing front bits exclude it.
proof fn lemma_prefix_bit_rel(x: Seq<bool>, y: Seq<bool>, bx: bool, by_: bool)
    ensures
        bx == by_ ==> (seq![bx] + x).is_prefix_of(seq![by_] + y) == x.is_prefix_of(y),
        bx != by_ ==> !(seq![bx] + x).is_prefix_of(seq![by_] + y),
{
    let ex = seq![bx] + x;
    let ey = seq![by_] + y;
    if ex.len() <= ey.len() {
        if bx == by_ {
            if x.is_prefix_of(y) {
                assert(ex =~~= ey.take(ex.len() as int));
            }
            if ex.is_prefix_of(ey) {
                assert(x =~~= y.take(x.len() as int)) by {
                    assert forall|i: int| 0 <= i < x.len() implies x[i] == y.take(
                        x.len() as int,
                    )[i] by {
                        assert(ex[i + 1] == ey.take(ex.len() as int)[i + 1]);
                    };
                };
            }
        } else {
            if ex.is_prefix_of(ey) {
                assert(ex[0] == ey.take(ex.len() as int)[0]);
            }
        }
    }
}

/// The leaves of a trie: at least one, and no prefix among them is a prefix
/// of another. This is one half of the partition property: leaf key spaces
/// never overlap.
pub proof fn lemma_leaves_prefix_free<T>(t: BinTree<T>)
    ensures
        t.leaves().len() >= 1,
        prefix_free(t.leaves()),
    decreases t,
{
    match t {
        BinTree::Leaf(_) => {},
        BinTree::Fork(l, r) => {
            lemma_leaves_prefix_free(*l);
            lemma_leaves_prefix_free(*r);
            let pl = with_prefix_bit((*l).leaves(), false);
            let pr = with_prefix_bit((*r).leaves(), true);
            let whole = pl + pr;
            assert(t.leaves() == whole);
            assert forall|i: int, j: int|
                0 <= i < whole.len() && 0 <= j < whole.len() && i != j implies !(
            #[trigger] whole[i].0).is_prefix_of(#[trigger] whole[j].0) by {
                let ll = (*l).leaves();
                let rl = (*r).leaves();
                let bi = if i < ll.len() { false } else { true };
                let bj = if j < ll.len() { false } else { true };
                let oi = if i < ll.len() { ll[i] } else { rl[i - ll.len()] };
                let oj = if j < ll.len() { ll[j] } else { rl[j - ll.len()] };
                assert(whole[i] == (seq![bi] + oi.0, oi.1));
                assert(whole[j] == (seq![bj] + oj.0, oj.1));
                lemma_prefix_bit_rel(oi.0, oj.0, bi, bj);
            };
        },
    }
}

/// The other half of the partition property: every key at least as long as
/// the trie is deep is covered by exactly one leaf prefix.
pub proof fn lemma_leaves_partition<T>(t: BinTree<T>, k: Seq<bool>)
    requires
        k.len() >= t.height(),
    ensures
        exists|i: int| 0 <= i < t.leaves().len() && (#[trigger] t.leaves()[i].0).is_prefix_of(k),
        forall|i: int, j: int|
            0 <= i < t.leaves().len() && 0 <= j < t.leaves().len() && (
            #[trigger] t.leaves()[i].0).is_prefix_of(k) && (#[trigger] t.leaves()[j].0).is_prefix_of(
                k,
            ) ==> i == j,
    decreases t,
{
    lemma_leaves_prefix_free(t);
    match t {
        BinTree::Leaf(_) => {
            assert(t.leaves()[0].0.is_prefix_of(k));
        },
        BinTree::Fork(l, r) => {
            let ll = (*l).leaves();
            let rl = (*r).leaves();
            let pl = with_prefix_bit(ll, false);
            let pr = with_prefix_bit(rl, true);
            let whole = pl + pr;
            assert(t.leaves() == whole);
            let rest = k.skip(1);
            assert(k =~~= seq![k[0]] + rest);
            if k[0] {
                lemma_leaves_partition(*r, rest);
                let i = choose|i: int| 0 <= i < rl.len() && (#[trigger] rl[i].0).is_prefix_of(rest);
                assert(whole[pl.len() + i] == (seq![true] + rl[i].0, rl[i].1));
                lemma_prefix_bit_rel(rl[i].0, rest, true, k[0]);
                assert(whole[pl.len() + i].0.is_prefix_of(k));
            } else {
                lemma_leaves_partition(*l, rest);
                let i = choose|i: int| 0 <= i < ll.len() && (#[trigger] ll[i].0).is_prefix_of(rest);
                assert(whole[i] == (seq![false] + ll[i].0, ll[i].1));
                lemma_prefix_bit_rel(ll[i].0, rest, false, k[0]);
                assert(whole[i].0.is_prefix_of(k));
            }
            assert forall|i: int, j: int|
                0 <= i < whole.len() && 0 <= j < whole.len() && (
            #[trigger] whole[i].0).is_prefix_of(k) && (#[trigger] whole[j].0).is_prefix_of(k)
                implies i == j by {
                if i != j {
                    // two distinct covering prefixes would be nested
                    let a = whole[i].0;
                    let b = whole[j].0;
                    if a.len() <= b.len() {
                        assert(a =~~= b.take(a.len() as int)) by {
                            assert(a == k.take(a.len() as int));
                            assert(b == k.take(b.len() as int));
                            assert(k.take(b.len() as int).take(a.len() as int) =~~= k.take(
                                a.len() as int,
                            ));
                        };
                        assert(a.is_prefix_of(b));
                    } else {
                        assert(b =~~= a.take(b.len() as int)) by {
                            assert(a == k.take(a.len() as int));
                            assert(b == k.take(b.len() as int));
                            assert(k.take(a.len() as int).take(b.len() as int) =~~= k.take(
                                b.len() as int,
                            ));
                        };
                        assert(b.is_prefix_of(a));
                    }
                }
            };
        },
    }
}

/// An exact lookup reads the leaf list: `get_spec` answers at a key
/// exactly when the leaf list holds that key, and then returns the value
/// stored beside it.
pub proof fn lemma_get_spec_leaves<T>(t: BinTree<T>, key: Seq<bool>)
    ensures
        t.get_spec(key) is Some <==> index_of_key(t.leaves(), key) >= 0,
        t.get_spec(key) matches Some(v) ==> t.leaves()[index_of_key(t.leaves(), key)] == (key, v),
    decreases t,
{
    lemma_index_props(t.leaves(), key);
    match t {
        BinTree::Leaf(v) => {
            assert(t.leaves() == seq![(Seq::<bool>::empty(), v)]);
            assert(t.leaves().skip(1) =~~= Seq::<(Seq<bool>, T)>::empty());
            if key.len() == 0 {
                assert(key =~~= Seq::<bool>::empty());
                assert(index_of_key(t.leaves(), key) == 0);
            } else {
                assert(t.leaves()[0].0 != key);
            }
        },
        BinTree::Fork(l, r) => {
            let ll = (*l).leaves();
            let rl = (*r).leaves();
            let pl = with_prefix_bit(ll, false);
            let pr = with_prefix_bit(rl, true);
            assert(t.leaves() == pl + pr);
            lemma_index_append(pl, pr, key);
            lemma_index_prefix_bit(ll, false, key);
            lemma_index_prefix_bit(rl, true, key);
            if key.len() == 0 {
                assert(index_of_key(t.leaves(), key) == -1);
            } else {
                let rest = key.skip(1);
                if key[0] {
                    lemma_get_spec_leaves(*r, rest);
                    lemma_index_props(rl, rest);
                    if (*r).get_spec(rest) is Some {
                        let i = index_of_key(rl, rest);
                        assert(index_of_key(t.leaves(), key) == pl.len() + i);
                        assert((pl + pr)[pl.len() + i] == (seq![true] + rl[i].0, rl[i].1));
                        assert(seq![true] + rest =~~= key);
                    }
                } else {
                    lemma_get_spec_leaves(*l, rest);
                    lemma_index_props(ll, rest);
                    if (*l).get_spec(rest) is Some {
                        let i = index_of_key(ll, rest);
                        assert(index_of_key(t.leaves(), key) == i);
                        assert((pl + pr)[i] == (seq![false] + ll[i].0, ll[i].1));
                        assert(seq![false] + rest =~~= key);
                    }
                }
            }
        },
    }
}

/// A prefix lookup reads the leaf list too: `find_spec` stops at depth `d`
/// with a value exactly when the leaf list holds the key's `d`-bit prefix,
/// with that value beside it; it finds nothing exactly when no leaf key is
/// a prefix of the sought key.
pub proof fn lemma_find_spec_leaves<T>(t: BinTree<T>, key: Seq<bool>)
    ensures
        t.find_spec(key) matches Some((d, v)) ==> {
            let i = index_of_key(t.leaves(), key.take(d));
            &&& 0 <= d <= key.len()
            &&& i >= 0
            &&& t.leaves()[i] == (key.take(d), v)
        },
        t.find_spec(key) is None ==> forall|i: int|
            0 <= i < t.leaves().len() ==> !(#[trigger] t.leaves()[i].0).is_prefix_of(key),
    decreases t,
{
    match t {
        BinTree::Leaf(v) => {
            assert(t.leaves() == seq![(Seq::<bool>::empty(), v)]);
            assert(t.leaves().skip(1) =~~= Seq::<(Seq<bool>, T)>::empty());
            assert(key.take(0) =~~= Seq::<bool>::empty());
            assert(index_of_key(t.leaves(), key.take(0)) == 0);
        },
        BinTree::Fork(l, r) => {
            let ll = (*l).leaves();
            let rl = (*r).leaves();
            let pl = with_prefix_bit(ll, false);
            let pr = with_prefix_bit(rl, true);
            assert(t.leaves() == pl + pr);
            if key.len() == 0 {
                assert forall|i: int| 0 <= i < t.leaves().len() implies !(
                #[trigger] t.leaves()[i].0).is_prefix_of(key) by {
                    assert(t.leaves()[i].0.len() >= 1);
                };
            } else {
                let rest = key.skip(1);
                assert(key =~~= seq![key[0]] + rest);
                let child = if key[0] {
                    *r
                } else {
                    *l
                };
                lemma_find_spec_leaves(child, rest);
                match child.find_spec(rest) {
                    Some((d, v)) => {
                        let ck = rest.take(d);
                        let i = index_of_key(child.leaves(), ck);
                        lemma_index_props(child.leaves(), ck);
                        let wholekey = key.take(d + 1);
                        assert(wholekey =~~= seq![key[0]] + ck);
                        lemma_index_append(pl, pr, wholekey);
                        lemma_index_prefix_bit(ll, false, wholekey);
                        lemma_index_prefix_bit(rl, true, wholekey);
                        assert(wholekey.skip(1) =~~= ck);
                        if key[0] {
                            assert(index_of_key(t.leaves(), wholekey) == pl.len() + i);
                            assert((pl + pr)[pl.len() + i] == (seq![true] + rl[i].0, rl[i].1));
                            assert(seq![true] + ck =~~= wholekey);
                        } else {
                            assert(index_of_key(t.leaves(), wholekey) == i);
                            assert((pl + pr)[i] == (seq![false] + ll[i].0, ll[i].1));
                            assert(seq![false] + ck =~~= wholekey);
                        }
                    },
                    None => {
                        assert forall|i: int| 0 <= i < t.leaves().len() implies !(
                        #[trigger] t.leaves()[i].0).is_prefix_of(key) by {
                            if i < pl.len() {
                                assert(t.leaves()[i] == (seq![false] + ll[i].0, ll[i].1));
                                lemma_prefix_bit_rel(ll[i].0, rest, false, key[0]);
                            } else {
                                let j = i - pl.len();
                                assert(t.leaves()[i] == (seq![true] + rl[j].0, rl[j].1));
                                lemma_prefix_bit_rel(rl[j].0, rest, true, key[0]);
                            }
                        };
                    },
                }
            }
        },
    }
}

/// Merging at a key undoes the split performed at that key: re-merging the
/// two fresh children with the original value restores the original leaf
/// sequence. `split` and `merge` state their results through
/// [`split_leaves`] and [`merge_leaves`], so this carries over to them.
pub proof fn lemma_merge_undoes_split<T>(
    s: Seq<(Seq<bool>, T)>,
    key: Seq<bool>,
    v: T,
    l: T,
    r: T,
)
    requires
        prefix_free(s),
        index_of_key(s, key) >= 0,
        s[index_of_key(s, key)] == (key, v),
    ensures
        merge_leaves(split_leaves(s, key, l, r), key, v) == s,
{
    let i0 = index_of_key(s, key);
    lemma_index_props(s, key);
    let s2 = split_leaves(s, key, l, r);
    let kf = key.push(false);
    // no original entry carries the left child key, because `key` itself
    // would be its prefix
    assert forall|j: int| 0 <= j < s.len() implies (#[trigger] s[j]).0 != kf by {
        if s[j].0 == kf {
            assert(key.is_prefix_of(kf)) by {
                assert(key =~~= kf.take(key.len() as int));
            };
            assert(j != i0);
        }
    };
    let front = s.take(i0) + seq![(kf, l)];
    assert(s2 =~~= front + (seq![(key.push(true), r)] + s.skip(i0 + 1)));
    assert(index_of_key(s2, kf) == i0) by {
        lemma_index_append(s.take(i0), seq![(kf, l)] + (seq![(key.push(true), r)] + s.skip(i0 + 1)), kf);
        lemma_index_props(s.take(i0), kf);
        assert forall|j: int| 0 <= j < i0 implies (#[trigger] s.take(i0)[j]).0 != kf by {
            assert(s.take(i0)[j] == s[j]);
        };
        assert(index_of_key(s.take(i0), kf) == -1);
        assert(index_of_key(seq![(kf, l)] + (seq![(key.push(true), r)] + s.skip(i0 + 1)), kf)
            == 0);
        assert(s2 =~~= s.take(i0) + (seq![(kf, l)] + (seq![(key.push(true), r)] + s.skip(
            i0 + 1,
        ))));
    };
    assert(merge_leaves(s2, key, v) =~~= s) by {
        assert(s2.take(i0) =~~= s.take(i0));
        assert(s2.skip(i0 + 2) =~~= s.skip(i0 + 1));
        assert(merge_leaves(s2, key, v) == s2.take(i0) + seq![(key, v)] + s2.skip(i0 + 2));
        assert(seq![(key, v)] =~~= seq![s[i0]]);
        assert(s.take(i0) + seq![s[i0]] + s.skip(i0 + 1) =~~= s);
    };
}

} // verus!

verus! {

/// The ordered `(prefix, value, left sibling)` triples of a trie's
/// leaves: a leaf that is the right child of a fork whose left child is
/// also a leaf carries that left value, every other leaf carries none.
pub open spec fn pairs_of<T>(t: BinTree<T>) -> Seq<(Seq<bool>, T, Option<T>)>
    decreases t,
{
    match t {
        BinTree::Leaf(v) => seq![(Seq::<bool>::empty(), v, None::<T>)],
        BinTree::Fork(l, r) => with_prefix_bit3(pairs_of(*l), false) + (match (*l, *r) {
            (BinTree::Leaf(lv), BinTree::Leaf(rv)) => seq![(seq![true], rv, Some(lv))],
            _ => with_prefix_bit3(pairs_of(*r), true),
        }),
    }
}

/// Every prefix of `s` extended with the bit `b` at the front.
pub open spec fn with_prefix_bit3<T>(s: Seq<(Seq<bool>, T, Option<T>)>, b: bool) -> Seq<
    (Seq<bool>, T, Option<T>),
> {
    s.map_values(|e: (Seq<bool>, T, Option<T>)| (seq![b] + e.0, e.1, e.2))
}

impl<T> BinTree<T> {
    fn collect_pairs<'a>(
        node: &'a BinTree<T>,
        path: &mut Vec<bool>,
        out: &mut Vec<(Vec<bool>, &'a T, Option<&'a T>)>,
    )
        ensures
            final(path)@ == old(path)@,
            final(out)@.len() == old(out)@.len() + pairs_of(*node).len(),
            forall|i: int| 0 <= i < old(out)@.len() ==> #[trigger] final(out)@[i] == old(out)@[i],
            forall|i: int|
                0 <= i < pairs_of(*node).len() ==> (#[trigger] final(out)@[old(out)@.len()
                    + i]).0@ == old(path)@ + pairs_of(*node)[i].0 && *final(out)@[old(out)@.len()
                    + i].1 == pairs_of(*node)[i].1 && (match (
                    final(out)@[old(out)@.len() + i].2,
                    pairs_of(*node)[i].2,
                ) {
                    (Some(a), Some(b)) => *a == b,
                    (None, None) => true,
                    _ => false,
                }),
        decreases *node,
    {
        match node {
            BinTree::Leaf(v) => {
                let p = copy_bits(path);
                out.push((p, v, None));
                proof {
                    assert(pairs_of(*node) =~~= seq![(Seq::<bool>::empty(), *v, None::<T>)]);
                    assert(old(path)@ + Seq::<bool>::empty() =~~= old(path)@);
                }
            },
            BinTree::Fork(l, r) => {
                let ghost mid_marker = out@;
                path.push(false);
                Self::collect_pairs(&**l, path, out);
                let ghost after_l = out@;
                let _ = path.pop();
                proof {
                    assert(path@ =~~= old(path)@);
                }
                let right_is_leaf = (matches!(&**r, BinTree::Leaf(_)));
                let ghost rpart = (match (&**l, &**r) {
                    (BinTree::Leaf(lv), BinTree::Leaf(rv)) => seq![(seq![true], *rv, Some(*lv))],
                    _ => with_prefix_bit3(pairs_of(**r), true),
                });
                if right_is_leaf {
                    match (&**l, &**r) {
                        (BinTree::Leaf(lv), BinTree::Leaf(rv)) => {
                            let mut p = copy_bits(path);
                            p.push(true);
                            out.push((p, rv, Some(lv)));
                            proof {
                                assert(rpart =~~= seq![(seq![true], *rv, Some(*lv))]);
                                assert(old(path)@.push(true) =~~= old(path)@ + seq![true]);
                            }
                        },
                        (_, BinTree::Leaf(rv)) => {
                            let mut p = copy_bits(path);
                            p.push(true);
                            out.push((p, rv, None));
                            proof {
                                assert(pairs_of(**r) =~~= seq![
                                    (Seq::<bool>::empty(), *rv, None::<T>),
                                ]);
                                assert(rpart =~~= seq![(seq![true], *rv, None::<T>)]);
                                assert(old(path)@.push(true) =~~= old(path)@ + seq![true]);
                            }
                        },
                        _ => {
                            proof {
                                assert(false);
                            }
                        },
                    }
                } else {
                    path.push(true);
                    Self::collect_pairs(&**r, path, out);
                    let _ = path.pop();
                    proof {
                        assert(path@ =~~= old(path)@);
                    }
                }
                proof {
                    let lp = with_prefix_bit3(pairs_of(**l), false);
                    let whole = lp + rpart;
                    assert(pairs_of(*node) == whole);
                    assert forall|i: int|
                        0 <= i < whole.len() implies (#[trigger] out@[mid_marker.len() + i]).0@
                        == old(path)@ + whole[i].0 && *out@[mid_marker.len() + i].1 == whole[i].1
                        && (match (out@[mid_marker.len() + i].2, whole[i].2) {
                        (Some(a), Some(b)) => *a == b,
                        (None, None) => true,
                        _ => false,
                    }) by {
                        if i < lp.len() {
                            assert(out@[mid_marker.len() + i] == after_l[mid_marker.len() + i]);
                            assert(after_l[mid_marker.len() + i].0@ == old(path)@.push(false)
                                + pairs_of(**l)[i].0);
                            assert(old(path)@.push(false) + pairs_of(**l)[i].0 =~~= old(path)@
                                + whole[i].0);
                        } else {
                            let j = i - lp.len();
                            if right_is_leaf {
                                assert(out@[mid_marker.len() + i].0@ =~~= old(path)@ + whole[i].0);
                            } else {
                                assert(out@[after_l.len() + j].0@ == old(path)@.push(true)
                                    + pairs_of(**r)[j].0);
                                assert(old(path)@.push(true) + pairs_of(**r)[j].0 =~~= old(path)@
                                    + whole[i].0);
                            }
                        }
                    };
                }
            },
        }
    }

    /// Every `(prefix, value, left sibling)` triple of the trie in order;
    /// see [`pairs_of`].
    pub fn pairs_vec(&self) -> (out: Vec<(Vec<bool>, &T, Option<&T>)>)
        ensures
            out@.len() == pairs_of(*self).len(),
            forall|i: int|
                0 <= i < out@.len() ==> (#[trigger] out@[i]).0@ == pairs_of(*self)[i].0
                    && *out@[i].1 == pairs_of(*self)[i].1 && (match (
                    out@[i].2,
                    pairs_of(*self)[i].2,
                ) {
                    (Some(a), Some(b)) => *a == b,
                    (None, None) => true,
                    _ => false,
                }),
    {
        let mut path: Vec<bool> = Vec::new();
        let mut out: Vec<(Vec<bool>, &T, Option<&T>)> = Vec::new();
        Self::collect_pairs(self, &mut path, &mut out);
        proof {
            assert forall|i: int|
                0 <= i < out@.len() implies (#[trigger] out@[i]).0@ == pairs_of(*self)[i].0 && *out@[
                i].1 == pairs_of(*self)[i].1 && (match (out@[i].2, pairs_of(*self)[i].2) {
                (Some(a), Some(b)) => *a == b,
                (None, None) => true,
                _ => false,
            }) by {
                assert((out@[0 + i]).0@ == Seq::<bool>::empty() + pairs_of(*self)[i].0);
                assert(*(out@[0 + i]).1 == pairs_of(*self)[i].1);
                assert(Seq::<bool>::empty() + pairs_of(*self)[i].0 =~~= pairs_of(*self)[i].0);
                assert(match ((out@[0 + i]).2, pairs_of(*self)[i].2) {
                    (Some(a), Some(b)) => *a == b,
                    (None, None) => true,
                    _ => false,
                });
            };
        }
        out
    }
}

/// Every leaf prefix is at most as long as the trie is deep.
pub proof fn lemma_leaves_depth<T>(t: BinTree<T>)
    ensures
        forall|j: int|
            0 <= j < t.leaves().len() ==> (#[trigger] t.leaves()[j]).0.len() <= t.height(),
    decreases t,
{
    match t {
        BinTree::Leaf(_) => {},
        BinTree::Fork(l, r) => {
            lemma_leaves_depth(*l);
            lemma_leaves_depth(*r);
            let pl = with_prefix_bit((*l).leaves(), false);
            let pr = with_prefix_bit((*r).leaves(), true);
            assert forall|j: int|
                0 <= j < t.leaves().len() implies (#[trigger] t.leaves()[j]).0.len()
                <= t.height() by {
                if j < pl.len() {
                    assert(t.leaves()[j] == (seq![false] + (*l).leaves()[j].0, (*l).leaves()[j].1));
                } else {
                    let k = j - pl.len();
                    assert(t.leaves()[j] == (seq![true] + (*r).leaves()[k].0, (*r).leaves()[k].1));
                }
            };
        },
    }
}

/// Every paired prefix is at most as long as the trie is deep.
pub proof fn lemma_pairs_depth<T>(t: BinTree<T>)
    ensures
        forall|j: int|
            0 <= j < pairs_of(t).len() ==> (#[trigger] pairs_of(t)[j]).0.len() <= t.height(),
    decreases t,
{
    match t {
        BinTree::Leaf(_) => {},
        BinTree::Fork(l, r) => {
            lemma_pairs_depth(*l);
            lemma_pairs_depth(*r);
            let pl = with_prefix_bit3(pairs_of(*l), false);
            let rpart = (match (*l, *r) {
                (BinTree::Leaf(lv), BinTree::Leaf(rv)) => seq![(seq![true], rv, Some(lv))],
                _ => with_prefix_bit3(pairs_of(*r), true),
            });
            assert forall|j: int|
                0 <= j < pairs_of(t).len() implies (#[trigger] pairs_of(t)[j]).0.len()
                <= t.height() by {
                if j < pl.len() {
                    assert(pairs_of(t)[j] == (
                        seq![false] + pairs_of(*l)[j].0,
                        pairs_of(*l)[j].1,
                        pairs_of(*l)[j].2,
                    ));
                } else {
                    let k = j - pl.len();
                    assert(pairs_of(t)[j] == rpart[k]);
                    match (*l, *r) {
                        (BinTree::Leaf(_), BinTree::Leaf(_)) => {
                            assert(rpart[k].0 =~= seq![true]);
                        },
                        _ => {
                            assert(rpart[k] == (
                                seq![true] + pairs_of(*r)[k].0,
                                pairs_of(*r)[k].1,
                                pairs_of(*r)[k].2,
                            ));
                        },
                    }
                }
            };
        },
    }
}

/// Whether one key space is contained in the other: one prefix extends the
/// other.
pub open spec fn keys_overlap(a: Seq<bool>, b: Seq<bool>) -> bool {
    a.is_prefix_of(b) || b.is_prefix_of(a)
}

impl<T> BinTree<T> {
    /// Places `value` at exactly `key`, splitting any coarser leaf on the
    /// way down with copies of `filler`, overwriting whatever covered the
    /// key. Any leaf whose key space does not overlap `key` keeps its
    /// value, and every leaf of the result is the planted value at its
    /// key, a kept leaf of the original, or a filler copy.
    pub fn plant(self, key: &Vec<bool>, value: T, filler: &T) -> (r: Self) where T: Copy
        ensures
            r.get_spec(key@) == Some(value),
            forall|k2: Seq<bool>|
                !keys_overlap(k2, key@) && (#[trigger] self.get_spec(k2)) is Some ==> r.get_spec(
                    k2,
                ) == self.get_spec(k2),
            forall|k2: Seq<bool>|
                (#[trigger] r.get_spec(k2)) matches Some(v) ==> ((k2 == key@ && v == value)
                    || self.get_spec(k2) == Some(v) || v == *filler),
    {
        proof {
            assert(key@.skip(0) =~= key@);
        }
        Self::plant_at(self, key, 0, value, filler)
    }

    fn plant_at(node: Self, key: &Vec<bool>, pos: usize, value: T, filler: &T) -> (r: Self) where
        T: Copy
        requires
            pos <= key@.len(),
        ensures
            r.get_spec(key@.skip(pos as int)) == Some(value),
            forall|k2: Seq<bool>|
                !keys_overlap(k2, key@.skip(pos as int)) && (#[trigger] node.get_spec(k2)) is Some
                    ==> r.get_spec(k2) == node.get_spec(k2),
            forall|k2: Seq<bool>|
                (#[trigger] r.get_spec(k2)) matches Some(v) ==> ((k2 == key@.skip(pos as int)
                    && v == value) || node.get_spec(k2) == Some(v) || v == *filler),
        decreases key@.len() - pos,
    {
        let ghost k = key@.skip(pos as int);
        if pos == key.len() {
            let t = BinTree::Leaf(value);
            proof {
                assert(k =~= Seq::<bool>::empty());
                assert forall|k2: Seq<bool>|
                    !keys_overlap(k2, k) && (#[trigger] node.get_spec(k2)) is Some implies t.get_spec(
                    k2,
                ) == node.get_spec(k2) by {
                    assert(k.is_prefix_of(k2));
                };
            }
            return t;
        }
        let bit = key[pos];
        proof {
            assert(k[0] == bit);
            assert(key@.skip(pos as int + 1) =~= k.skip(1));
        }
        let ghost orig = node;
        let (l, r) = match node {
            BinTree::Fork(l, r) => (l, r),
            BinTree::Leaf(v) => (
                Box::new(BinTree::Leaf(*filler)),
                Box::new(BinTree::Leaf(*filler)),
            ),
        };
        let ghost gl = *l;
        let ghost gr = *r;
        if bit {
            let nr = Self::plant_at(*r, key, pos + 1, value, filler);
            let t = BinTree::Fork(l, Box::new(nr));
            proof {
                assert(t.get_spec(k) == nr.get_spec(k.skip(1)));
                assert forall|k2: Seq<bool>|
                    !keys_overlap(k2, k) && (#[trigger] orig.get_spec(k2)) is Some implies t.get_spec(
                    k2,
                ) == orig.get_spec(k2) by {
                    Self::lemma_nonoverlap_skip(k2, k);
                    match orig {
                        BinTree::Leaf(_) => {
                            assert(k2.len() == 0);
                            assert(k2.is_prefix_of(k));
                        },
                        BinTree::Fork(_, _) => {
                            assert(k2.len() > 0);
                            if k2[0] {
                                assert(orig.get_spec(k2) == gr.get_spec(k2.skip(1)));
                                assert(t.get_spec(k2) == nr.get_spec(k2.skip(1)));
                            } else {
                                assert(orig.get_spec(k2) == gl.get_spec(k2.skip(1)));
                                assert(t.get_spec(k2) == gl.get_spec(k2.skip(1)));
                            }
                        },
                    }
                };
                assert forall|k2: Seq<bool>| (#[trigger] t.get_spec(k2)) is Some implies ((k2
                    == k && t.get_spec(k2)->Some_0 == value) || orig.get_spec(k2) == Some(
                    t.get_spec(k2)->Some_0,
                ) || t.get_spec(k2)->Some_0 == *filler) by {
                    if t.get_spec(k2) is Some {
                        let v = t.get_spec(k2)->Some_0;
                        assert(k2.len() > 0);
                        if k2[0] {
                            assert(t.get_spec(k2) == nr.get_spec(k2.skip(1)));
                            if k2.skip(1) == k.skip(1) && v == value {
                                assert(k2 =~= seq![k2[0]] + k2.skip(1));
                                assert(k =~= seq![k[0]] + k.skip(1));
                            } else if gr.get_spec(k2.skip(1)) == Some(v) {
                                match orig {
                                    BinTree::Leaf(_) => {
                                        assert(v == *filler);
                                    },
                                    BinTree::Fork(_, _) => {
                                        assert(orig.get_spec(k2) == gr.get_spec(k2.skip(1)));
                                    },
                                }
                            }
                        } else {
                            assert(t.get_spec(k2) == gl.get_spec(k2.skip(1)));
                            match orig {
                                BinTree::Leaf(_) => {
                                    assert(v == *filler);
                                },
                                BinTree::Fork(_, _) => {
                                    assert(orig.get_spec(k2) == gl.get_spec(k2.skip(1)));
                                },
                            }
                        }
                    }
                };
            }
            t
        } else {
            let nl = Self::plant_at(*l, key, pos + 1, value, filler);
            let t = BinTree::Fork(Box::new(nl), r);
            proof {
                assert(t.get_spec(k) == nl.get_spec(k.skip(1)));
                assert forall|k2: Seq<bool>|
                    !keys_overlap(k2, k) && (#[trigger] orig.get_spec(k2)) is Some implies t.get_spec(
                    k2,
                ) == orig.get_spec(k2) by {
                    Self::lemma_nonoverlap_skip(k2, k);
                    match orig {
                        BinTree::Leaf(_) => {
                            assert(k2.len() == 0);
                            assert(k2.is_prefix_of(k));
                        },
                        BinTree::Fork(_, _) => {
                            assert(k2.len() > 0);
                            if k2[0] {
                                assert(orig.get_spec(k2) == gr.get_spec(k2.skip(1)));
                                assert(t.get_spec(k2) == gr.get_spec(k2.skip(1)));
                            } else {
                                assert(orig.get_spec(k2) == gl.get_spec(k2.skip(1)));
                                assert(t.get_spec(k2) == nl.get_spec(k2.skip(1)));
                            }
                        },
                    }
                };
                assert forall|k2: Seq<bool>| (#[trigger] t.get_spec(k2)) is Some implies ((k2
                    == k && t.get_spec(k2)->Some_0 == value) || orig.get_spec(k2) == Some(
                    t.get_spec(k2)->Some_0,
                ) || t.get_spec(k2)->Some_0 == *filler) by {
                    if t.get_spec(k2) is Some {
                        let v = t.get_spec(k2)->Some_0;
                        assert(k2.len() > 0);
                        if !k2[0] {
                            assert(t.get_spec(k2) == nl.get_spec(k2.skip(1)));
                            if k2.skip(1) == k.skip(1) && v == value {
                                assert(k2 =~= seq![k2[0]] + k2.skip(1));
                                assert(k =~= seq![k[0]] + k.skip(1));
                            } else if gl.get_spec(k2.skip(1)) == Some(v) {
                                match orig {
                                    BinTree::Leaf(_) => {
                                        assert(v == *filler);
                                    },
                                    BinTree::Fork(_, _) => {
                                        assert(orig.get_spec(k2) == gl.get_spec(k2.skip(1)));
                                    },
                                }
                            }
                        } else {
                            assert(t.get_spec(k2) == gr.get_spec(k2.skip(1)));
                            match orig {
                                BinTree::Leaf(_) => {
                                    assert(v == *filler);
                                },
                                BinTree::Fork(_, _) => {
                                    assert(orig.get_spec(k2) == gr.get_spec(k2.skip(1)));
                                },
                            }
                        }
                    }
                };
            }
            t
        }
    }

    /// Non-overlapping keys that start with the same bit stay
    /// non-overlapping one level down.
    proof fn lemma_nonoverlap_skip(k2: Seq<bool>, k: Seq<bool>)
        requires
            k.len() > 0,
            !keys_overlap(k2, k),
        ensures
            k2.len() > 0,
            k2[0] == k[0] ==> !keys_overlap(k2.skip(1), k.skip(1)),
    {
        if k2.len() == 0 {
            assert(k2.is_prefix_of(k));
        }
        if k2.len() > 0 && k2[0] == k[0] {
            if k2.skip(1).is_prefix_of(k.skip(1)) {
                assert(k2.is_prefix_of(k)) by {
                    assert(k2.skip(1) == k.skip(1).subrange(0, k2.len() - 1));
                    assert forall|i: int| 0 <= i < k2.len() implies k2[i] == k[i] by {
                        if i > 0 {
                            assert(k2.skip(1)[i - 1] == k.skip(1).subrange(0, k2.len() - 1)[i - 1]);
                        }
                    };
                    assert(k2 =~= k.take(k2.len() as int));
                };
            }
            if k.skip(1).is_prefix_of(k2.skip(1)) {
                assert(k.is_prefix_of(k2)) by {
                    assert(k.skip(1) == k2.skip(1).subrange(0, k.len() - 1));
                    assert forall|i: int| 0 <= i < k.len() implies k[i] == k2[i] by {
                        if i > 0 {
                            assert(k.skip(1)[i - 1] == k2.skip(1).subrange(0, k.len() - 1)[i - 1]);
                        }
                    };
                    assert(k =~= k2.take(k.len() as int));
                };
            }
        }
    }
}

} // verus!
