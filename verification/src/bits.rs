//! Growable bit vector keyed by absolute index, packed into 32-bit words.
//! The word array is the raw upload format for GPU consumers; the logical
//! length is always a whole number of words.

use vstd::prelude::*;

verus! {

/// Number of bits per backing word.
pub const WORD_BITS: usize = 32;

/// Growable bit vector. Bit `i` lives in bit `i % 32` of word `i / 32`;
/// the logical length `len` is always `32 *` the number of words.
pub struct Bitset {
    len: usize,
    data: Vec<u32>,
}

/// True when bit `j` of word `w` is set.
pub open spec fn word_bit(w: u32, j: u32) -> bool {
    (w >> j) & 1 == 1
}

proof fn lemma_word_bits(w: u32, k: u32, j: u32)
    by (bit_vector)
    requires
        k < 32,
        j < 32,
    ensures
        word_bit(w | (1u32 << k), j) == (j == k || word_bit(w, j)),
        word_bit(w & !(1u32 << k), j) == (j != k && word_bit(w, j)),
        !word_bit(0u32, j),
{
}

impl Bitset {
    /// The logical bit capacity.
    pub closed spec fn spec_len(self) -> int {
        self.len as int
    }

    /// The backing words.
    pub closed spec fn words(self) -> Seq<u32> {
        self.data@
    }

    /// Value of bit `i`; bits that were never grown into range read as false.
    pub closed spec fn spec_bit(self, i: int) -> bool {
        0 <= i < self.len && word_bit(self.data@[i / 32], (i % 32) as u32)
    }

    /// The length is exactly 32 bits per backing word.
    pub closed spec fn wf(self) -> bool {
        self.len == self.data@.len() * 32
    }

    /// Relates the packed words to the logical bits, for consumers of the
    /// raw word array.
    pub proof fn lemma_bit_in_words(self, i: int)
        requires
            self.wf(),
            0 <= i < self.spec_len(),
        ensures
            self.spec_bit(i) == word_bit(self.words()[i / 32], (i % 32) as u32),
    {
    }

    /// A set bit always lies inside the logical length.
    pub proof fn lemma_bit_in_range(self, i: int)
        ensures
            self.spec_bit(i) ==> 0 <= i < self.spec_len(),
    {
    }

    /// The logical length is exactly 32 bits per backing word.
    pub proof fn lemma_len_of_words(self)
        requires
            self.wf(),
        ensures
            self.spec_len() == 32 * self.words().len(),
    {
    }

    pub fn new() -> (r: Self)
        ensures
            r.wf(),
            r.spec_len() == 0,
            forall|i: int| !r.spec_bit(i),
    {
        Self { len: 0, data: Vec::new() }
    }

    pub fn len(&self) -> (r: usize)
        ensures
            r == self.spec_len(),
    {
        self.len
    }

    pub fn data(&self) -> (r: &[u32])
        ensures
            r@ == self.words(),
    {
        self.data.as_slice()
    }

    /// Grows the word array so `index` is addressable, writes `value` at
    /// `index`, and returns the prior value of that bit (false when the bit
    /// was never in range).
    pub fn insert(&mut self, index: usize, value: bool) -> (r: Result<bool, ()>)
        requires
            old(self).wf(),
            index + 32 <= usize::MAX,
        ensures
            final(self).wf(),
            r == Ok::<bool, ()>(old(self).spec_bit(index as int)),
            final(self).spec_bit(index as int) == value,
            forall|j: int| j != index ==> final(self).spec_bit(j) == old(self).spec_bit(j),
            final(self).spec_len() == if index < old(self).spec_len() {
                old(self).spec_len()
            } else {
                (index / 32 + 1) * 32
            },
            final(self).spec_len() % 32 == 0,
            index < final(self).spec_len(),
    {
        let ghost prior = *self;
        while self.len <= index
            invariant
                self.wf(),
                index + 32 <= usize::MAX,
                prior.spec_len() <= self.spec_len(),
                self.spec_len() != prior.spec_len() ==> self.spec_len() <= index + 32
                    && prior.spec_len() <= index,
                forall|j: int| self.spec_bit(j) == prior.spec_bit(j),
            decreases index + 32 - self.len,
        {
            proof {
                assert(self.data@.len() * 32 <= index);
                assert((self.data@.len() + 1) * 32 <= index + 32) by (nonlinear_arith)
                    requires
                        self.data@.len() * 32 <= index,
                ;
            }
            self.data.push(0);
            self.len = self.data.len() * 32;
            proof {
                let n = self.data@.len() - 1;
                assert forall|j: int| self.spec_bit(j) == prior.spec_bit(j) by {
                    if 0 <= j < self.len {
                        if j / 32 == n {
                            lemma_word_bits(0u32, 0u32, (j % 32) as u32);
                            assert(n * 32 <= j) by (nonlinear_arith)
                                requires
                                    j / 32 == n,
                                    j >= 0,
                            ;
                        } else {
                            assert(j / 32 < n) by (nonlinear_arith)
                                requires
                                    0 <= j < n * 32 + 32,
                                    j / 32 != n,
                            ;
                        }
                    }
                }
            }
        }
        proof {
            assert(index / 32 < self.data@.len()) by (nonlinear_arith)
                requires
                    index < self.data@.len() * 32,
                    index >= 0,
            ;
            if index < prior.spec_len() {
                assert(self.spec_len() == prior.spec_len());
            } else {
                assert(self.spec_len() != prior.spec_len());
                assert(self.data@.len() == index / 32 + 1) by (nonlinear_arith)
                    requires
                        index < self.data@.len() * 32,
                        self.data@.len() * 32 <= index + 32,
                        index >= 0,
                ;
            }
        }
        let word_index: usize = index / WORD_BITS;
        let bit_index: u32 = (index % WORD_BITS) as u32;
        let word = self.data[word_index];
        let previous = (word >> bit_index) & 1 == 1;
        let new_word = if value {
            word | (1u32 << bit_index)
        } else {
            word & !(1u32 << bit_index)
        };
        self.data.set(word_index, new_word);
        proof {
            assert forall|j: int| j != index implies self.spec_bit(j) == prior.spec_bit(j) by {
                if 0 <= j < self.len {
                    if j / 32 == word_index {
                        lemma_word_bits(word, bit_index, (j % 32) as u32);
                        assert(j == 32 * (j / 32) + j % 32);
                        assert(index == 32 * (index as int / 32) + index as int % 32);
                        assert(j % 32 != index as int % 32);
                    }
                }
            }
            lemma_word_bits(word, bit_index, bit_index);
        }
        Ok(previous)
    }

    /// Reads bit `index`; fails when `index` was never grown into range.
    pub fn get(&self, index: usize) -> (r: Result<bool, ()>)
        requires
            self.wf(),
        ensures
            r == if index < self.spec_len() {
                Ok::<bool, ()>(self.spec_bit(index as int))
            } else {
                Err::<bool, ()>(())
            },
    {
        if self.len <= index {
            return Err(());
        }
        proof {
            assert(index / 32 < self.data@.len()) by (nonlinear_arith)
                requires
                    index < self.data@.len() * 32,
                    index >= 0,
            ;
        }
        Ok((self.data[index / WORD_BITS] >> ((index % WORD_BITS) as u32)) & 1 == 1)
    }
}

} // verus!
