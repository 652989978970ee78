//! A fixed-capacity bitset keyed by interner handles.
//!
//! The capacity is the cardinality of the interner whose handles the bitmap
//! indexes; bits are packed into 64-bit words. Positions at or above the
//! capacity are kept clear, so word-wise operations agree with the
//! per-position view.

use vstd::prelude::*;

verus! {

broadcast use
    vstd::arithmetic::div_mod::lemma_fundamental_div_mod,
    vstd::arithmetic::div_mod::lemma_mod_division_less_than_divisor;

/// Whether bit `k` of the word `w` is set.
pub open spec fn word_bit(w: u64, k: u64) -> bool
    recommends
        k < 64,
{
    (w >> k) & 1u64 == 1u64
}

proof fn lemma_bit_insert(w: u64, k: u64)
    by (bit_vector)
    requires
        k < 64,
    ensures
        forall|j: u64|
            j < 64 ==> #[trigger] word_bit(w | (1u64 << k), j) == (word_bit(w, j) || j == k),
{
}

proof fn lemma_bit_remove(w: u64, k: u64)
    by (bit_vector)
    requires
        k < 64,
    ensures
        forall|j: u64|
            j < 64 ==> #[trigger] word_bit(w & !(1u64 << k), j) == (word_bit(w, j) && j != k),
{
}

proof fn lemma_bit_or(w1: u64, w2: u64)
    by (bit_vector)
    ensures
        forall|j: u64|
            j < 64 ==> #[trigger] word_bit(w1 | w2, j) == (word_bit(w1, j) || word_bit(w2, j)),
{
}

proof fn lemma_bit_and(w1: u64, w2: u64)
    by (bit_vector)
    ensures
        forall|j: u64|
            j < 64 ==> #[trigger] word_bit(w1 & w2, j) == (word_bit(w1, j) && word_bit(w2, j)),
{
}

proof fn lemma_bit_and_not(w1: u64, w2: u64)
    by (bit_vector)
    ensures
        forall|j: u64|
            j < 64 ==> #[trigger] word_bit(w1 & !w2, j) == (word_bit(w1, j) && !word_bit(w2, j)),
{
}

proof fn lemma_word_zero()
    by (bit_vector)
    ensures
        forall|j: u64| j < 64 ==> !(#[trigger] word_bit(0u64, j)),
{
}

proof fn lemma_div64(i: int, len: int)
    requires
        0 <= i < 64 * len,
    ensures
        0 <= i / 64 < len,
        0 <= i % 64 < 64,
{
}

/// A fixed-capacity set of handles below `universe_length`.
pub struct SmallBitmap {
    words: Vec<u64>,
    universe_length: u16,
}

impl SmallBitmap {
    /// The capacity: handles range over `[0, universe_len())`.
    pub closed spec fn universe_len(self) -> int {
        self.universe_length as int
    }

    /// Raw bit at position `j`, ignoring the capacity bound.
    spec fn bit_at(self, j: int) -> bool {
        word_bit(self.words@[j / 64], (j % 64) as u64)
    }

    /// Whether handle `i` is in the set.
    pub closed spec fn has(self, i: int) -> bool {
        0 <= i < self.universe_len() && self.bit_at(i)
    }

    /// Well-formed: one word per 64 handles of capacity, stray high bits clear.
    pub closed spec fn wf(self) -> bool {
        &&& self.words@.len() == (self.universe_len() + 63) / 64
        &&& forall|j: int|
            self.universe_len() <= j < 64 * self.words@.len() ==> !(#[trigger] self.bit_at(j))
    }

    proof fn lemma_cover(self)
        requires
            self.wf(),
        ensures
            64 * self.words@.len() >= self.universe_len(),
    {
        let c = self.universe_len();
        assert(c + 63 == 64 * ((c + 63) / 64) + (c + 63) % 64);
    }


    pub fn new(universe_length: u16) -> (r: SmallBitmap)
        ensures
            r.wf(),
            r.universe_len() == universe_length,
            forall|i: int| !r.has(i),
    {
        let n_words: usize = (universe_length as usize + 63) / 64;
        let mut words: Vec<u64> = Vec::new();
        while words.len() < n_words
            invariant
                words@.len() <= n_words,
                forall|k: int| 0 <= k < words@.len() ==> words@[k] == 0u64,
            decreases n_words - words@.len(),
        {
            words.push(0u64);
        }
        proof {
            lemma_word_zero();
        }
        let r = SmallBitmap { words, universe_length };
        proof {
            r.lemma_cover();
            assert forall|j: int| 0 <= j < 64 * r.words@.len() implies !(#[trigger] r.bit_at(
                j,
            )) by {
                lemma_div64(j, r.words@.len() as int);
            }
        }
        r
    }

    pub fn contains(&self, i: u16) -> (r: bool)
        requires
            self.wf(),
            i < self.universe_len(),
        ensures
            r == self.has(i as int),
    {
        proof {
            self.lemma_cover();
            lemma_div64(i as int, self.words@.len() as int);
        }
        let wi: usize = i as usize / 64;
        let k: u64 = (i % 64) as u64;
        (self.words[wi] >> k) & 1u64 == 1u64
    }

    pub fn insert(&mut self, i: u16)
        requires
            old(self).wf(),
            i < old(self).universe_len(),
        ensures
            final(self).wf(),
            final(self).universe_len() == old(self).universe_len(),
            forall|j: int| final(self).has(j) == (old(self).has(j) || j == i as int),
    {
        proof {
            self.lemma_cover();
            lemma_div64(i as int, self.words@.len() as int);
        }
        let wi: usize = i as usize / 64;
        let k: u64 = (i % 64) as u64;
        let w = self.words[wi];
        self.words.set(wi, w | (1u64 << k));
        proof {
            lemma_bit_insert(w, k);
            assert forall|j: int| 0 <= j < 64 * self.words@.len() implies #[trigger] self.bit_at(j)
                == (old(self).bit_at(j) || j == i as int) by {
                lemma_div64(j, self.words@.len() as int);
                if j / 64 == wi as int {
                    assert(j == 64 * (j / 64) + j % 64);
                    assert(i as int == 64 * (i as int / 64) + i as int % 64);
                } else {
                    assert(self.words@[j / 64] == old(self).words@[j / 64]);
                }
            }
        }
    }

    pub fn remove(&mut self, i: u16)
        requires
            old(self).wf(),
            i < old(self).universe_len(),
        ensures
            final(self).wf(),
            final(self).universe_len() == old(self).universe_len(),
            forall|j: int| final(self).has(j) == (old(self).has(j) && j != i as int),
    {
        proof {
            self.lemma_cover();
            lemma_div64(i as int, self.words@.len() as int);
        }
        let wi: usize = i as usize / 64;
        let k: u64 = (i % 64) as u64;
        let w = self.words[wi];
        self.words.set(wi, w & !(1u64 << k));
        proof {
            lemma_bit_remove(w, k);
            assert forall|j: int| 0 <= j < 64 * self.words@.len() implies #[trigger] self.bit_at(j)
                == (old(self).bit_at(j) && j != i as int) by {
                lemma_div64(j, self.words@.len() as int);
                if j / 64 == wi as int {
                    assert(j == 64 * (j / 64) + j % 64);
                    assert(i as int == 64 * (i as int / 64) + i as int % 64);
                } else {
                    assert(self.words@[j / 64] == old(self).words@[j / 64]);
                }
            }
        }
    }

    pub fn is_empty(&self) -> (r: bool)
        requires
            self.wf(),
        ensures
            r == (forall|j: int| !self.has(j)),
    {
        let n: u16 = self.universe_length;
        let mut i: u16 = 0;
        while i < n
            invariant
                self.wf(),
                n == self.universe_len(),
                i <= n,
                forall|j: int| 0 <= j < i ==> !self.has(j),
            decreases n - i,
        {
            if self.contains(i) {
                return false;
            }
            i = i + 1;
        }
        true
    }

    fn word_op(&mut self, other: &SmallBitmap, op: u8)
        requires
            old(self).wf(),
            other.wf(),
            old(self).universe_len() == other.universe_len(),
            old(self).words@.len() == other.words@.len(),
            op < 3,
        ensures
            final(self).wf(),
            final(self).universe_len() == old(self).universe_len(),
            final(self).words@.len() == old(self).words@.len(),
            op == 0 ==> forall|j: int|
                #[trigger] final(self).has(j) == (old(self).has(j) || other.has(j)),
            op == 1 ==> forall|j: int|
                #[trigger] final(self).has(j) == (old(self).has(j) && other.has(j)),
            op == 2 ==> forall|j: int|
                #[trigger] final(self).has(j) == (old(self).has(j) && !other.has(j)),
    {
        let ghost orig = *self;
        let mut k: usize = 0;
        while k < self.words.len()
            invariant
                orig.wf(),
                other.wf(),
                orig.universe_len() == other.universe_len(),
                orig.words@.len() == other.words@.len(),
                self.universe_length == orig.universe_length,
                self.words@.len() == orig.words@.len(),
                k <= self.words@.len(),
                op < 3,
                forall|k2: int| k <= k2 < self.words@.len() ==> self.words@[k2] == orig.words@[k2],
                forall|j: int|
                    0 <= j < 64 * k ==> #[trigger] self.bit_at(j) == if op == 0 {
                        orig.bit_at(j) || other.bit_at(j)
                    } else if op == 1 {
                        orig.bit_at(j) && other.bit_at(j)
                    } else {
                        orig.bit_at(j) && !other.bit_at(j)
                    },
            decreases self.words@.len() - k,
        {
            let a = self.words[k];
            let b = other.words[k];
            let w = if op == 0 {
                a | b
            } else if op == 1 {
                a & b
            } else {
                a & !b
            };
            let ghost prev = *self;
            self.words.set(k, w);
            proof {
                lemma_bit_or(a, b);
                lemma_bit_and(a, b);
                lemma_bit_and_not(a, b);
                assert forall|j: int| 0 <= j < 64 * (k + 1) implies #[trigger] self.bit_at(j) == (
                if op == 0 {
                    orig.bit_at(j) || other.bit_at(j)
                } else if op == 1 {
                    orig.bit_at(j) && other.bit_at(j)
                } else {
                    orig.bit_at(j) && !other.bit_at(j)
                }) by {
                    lemma_div64(j, orig.words@.len() as int);
                    if j / 64 == k as int {
                        assert(self.words@[j / 64] == w);
                        assert(orig.words@[j / 64] == a && other.words@[j / 64] == b);
                    } else {
                        assert(self.words@[j / 64] == prev.words@[j / 64]);
                        assert(prev.bit_at(j) == self.bit_at(j));
                    }
                }
            }
            k = k + 1;
        }
        proof {
            orig.lemma_cover();
            assert forall|j: int|
                self.universe_len() <= j < 64 * self.words@.len() implies !(#[trigger] self.bit_at(
                j,
            )) by {
                assert(!orig.bit_at(j) && !other.bit_at(j));
            }
            assert(self.wf());
            assert forall|j: int|
                self.has(j) == (if op == 0 {
                    orig.has(j) || other.has(j)
                } else if op == 1 {
                    orig.has(j) && other.has(j)
                } else {
                    orig.has(j) && !other.has(j)
                }) by {
                if 0 <= j < self.universe_len() {
                    assert(j < 64 * self.words@.len());
                }
            }
        }
    }

    /// In-place union with `other`.
    pub fn union_assign(&mut self, other: &SmallBitmap)
        requires
            old(self).wf(),
            other.wf(),
            old(self).universe_len() == other.universe_len(),
        ensures
            final(self).wf(),
            final(self).universe_len() == old(self).universe_len(),
            forall|j: int| final(self).has(j) == (old(self).has(j) || other.has(j)),
    {
        self.word_op(other, 0);
    }

    /// In-place intersection with `other`.
    pub fn intersect_assign(&mut self, other: &SmallBitmap)
        requires
            old(self).wf(),
            other.wf(),
            old(self).universe_len() == other.universe_len(),
        ensures
            final(self).wf(),
            final(self).universe_len() == old(self).universe_len(),
            forall|j: int| final(self).has(j) == (old(self).has(j) && other.has(j)),
    {
        self.word_op(other, 1);
    }

    /// In-place difference: removes every handle held by `other`.
    pub fn subtract_assign(&mut self, other: &SmallBitmap)
        requires
            old(self).wf(),
            other.wf(),
            old(self).universe_len() == other.universe_len(),
        ensures
            final(self).wf(),
            final(self).universe_len() == old(self).universe_len(),
            forall|j: int| final(self).has(j) == (old(self).has(j) && !other.has(j)),
    {
        self.word_op(other, 2);
    }

    /// Every handle of `self` is also in `other`.
    pub open spec fn subset_of(self, other: SmallBitmap) -> bool {
        forall|x: int| #![trigger self.has(x)] #![trigger other.has(x)] self.has(x) ==> other.has(x)
    }

    /// Whether every handle of `self` is also in `other`.
    pub fn is_subset(&self, other: &SmallBitmap) -> (r: bool)
        requires
            self.wf(),
            other.wf(),
            self.universe_len() == other.universe_len(),
        ensures
            r == self.subset_of(*other),
    {
        let n: u16 = self.universe_length;
        let mut i: u16 = 0;
        while i < n
            invariant
                self.wf(),
                other.wf(),
                self.universe_len() == other.universe_len(),
                n == self.universe_len(),
                i <= n,
                forall|j: int| 0 <= j < i ==> (self.has(j) ==> other.has(j)),
            decreases n - i,
        {
            if self.contains(i) && !other.contains(i) {
                return false;
            }
            i = i + 1;
        }
        true
    }

    /// The handles of the set, in ascending order.
    pub fn to_vec(&self) -> (r: Vec<u16>)
        requires
            self.wf(),
        ensures
            forall|k: int| 0 <= k < r@.len() ==> self.has(#[trigger] r@[k] as int),
            forall|k1: int, k2: int| 0 <= k1 < k2 < r@.len() ==> r@[k1] < r@[k2],
            forall|j: int| #[trigger] self.has(j) ==> exists|k: int| 0 <= k < r@.len() && r@[k] == j,
    {
        let mut r: Vec<u16> = Vec::new();
        let mut i: u16 = 0;
        let n: u16 = self.universe_length;
        while i < n
            invariant
                self.wf(),
                n == self.universe_len(),
                i <= n,
                forall|k: int| 0 <= k < r@.len() ==> self.has(#[trigger] r@[k] as int),
                forall|k: int| 0 <= k < r@.len() ==> r@[k] < i,
                forall|k1: int, k2: int| 0 <= k1 < k2 < r@.len() ==> r@[k1] < r@[k2],
                forall|j: int|
                    0 <= j < i && #[trigger] self.has(j) ==> exists|k: int|
                        0 <= k < r@.len() && r@[k] == j,
            decreases n - i,
        {
            let ghost old_r = r@;
            if self.contains(i) {
                r.push(i);
            }
            i = i + 1;
            proof {
                assert forall|j: int|
                    0 <= j < i && #[trigger] self.has(j) implies exists|k: int|
                    0 <= k < r@.len() && r@[k] == j by {
                    if j == i - 1 {
                        if self.has(j) {
                            assert(r@[r@.len() - 1] == j);
                        }
                    } else {
                        let k0 = choose|k: int| 0 <= k < old_r.len() && old_r[k] == j;
                        assert(r@[k0] == j);
                    }
                }
            }
        }
        r
    }

    /// Number of handles in the set among positions `[0, n)`.
    pub closed spec fn count_upto(self, n: int) -> nat
        decreases n,
    {
        if n <= 0 {
            0
        } else {
            self.count_upto(n - 1) + if self.has(n - 1) {
                1nat
            } else {
                0nat
            }
        }
    }

    /// A copy holding the same handles.
    pub fn duplicate(&self) -> (r: SmallBitmap)
        requires
            self.wf(),
        ensures
            r.wf(),
            r.universe_len() == self.universe_len(),
            forall|j: int| r.has(j) == self.has(j),
    {
        let mut words: Vec<u64> = Vec::new();
        let mut k: usize = 0;
        while k < self.words.len()
            invariant
                self.wf(),
                k <= self.words@.len(),
                words@ =~= self.words@.subrange(0, k as int),
            decreases self.words@.len() - k,
        {
            words.push(self.words[k]);
            k = k + 1;
        }
        proof {
            assert(words@ =~= self.words@);
        }
        let r = SmallBitmap { words, universe_length: self.universe_length };
        proof {
            assert forall|j: int|
                r.universe_len() <= j < 64 * r.words@.len() implies !(#[trigger] r.bit_at(j)) by {
                assert(!self.bit_at(j));
            }
        }
        r
    }

    /// Population count.
    pub fn count(&self) -> (r: usize)
        requires
            self.wf(),
        ensures
            r == self.count_upto(self.universe_len()),
    {
        let mut r: usize = 0;
        let mut i: u16 = 0;
        let n: u16 = self.universe_length;
        while i < n
            invariant
                self.wf(),
                n == self.universe_len(),
                i <= n,
                r == self.count_upto(i as int),
                r <= i,
            decreases n - i,
        {
            if self.contains(i) {
                r = r + 1;
            }
            i = i + 1;
        }
        r
    }
}

} // verus!
