//! The mark bitmap: one bit for each word of the dynamic heap.

use vstd::prelude::*;
use crate::types::{Bytes, WORD_SIZE};

verus! {

/// What `BitmapIter::next` returns when no set bit is left.
pub const BITMAP_ITER_END: u32 = 0xFFFF_FFFF;

/// Whether bit `b` of the word `w` is set.
pub open spec fn bit_of(w: u64, b: u64) -> bool {
    (w >> b) & 1 == 1
}

/// One bit per heap word, 64 bits to a word of the bitmap. Bit `i` of the
/// bitmap stands for the heap word with index `base_word + i`; the methods
/// take that word index.
pub struct Bitmap {
    base_word: u32,
    bits: u32,
    words: Vec<u64>,
}

impl Bitmap {
    /// Index of the first word that the bitmap covers.
    pub closed spec fn base(&self) -> int {
        self.base_word as int
    }

    /// Number of words that the bitmap covers.
    pub closed spec fn len(&self) -> int {
        self.bits as int
    }

    /// Whether the bitmap holds a bit for each word that it covers.
    pub closed spec fn well_formed(&self) -> bool {
        self.words@.len() * 64 > self.bits
    }

    /// Whether the bitmap covers the word with index `idx`.
    pub open spec fn covers(&self, idx: int) -> bool {
        self.base() <= idx < self.base() + self.len()
    }

    /// Whether the bit of the word with index `idx` is set.
    pub closed spec fn is_set(&self, idx: int) -> bool {
        self.base_word <= idx < self.base_word + self.bits && bit_of(
            self.words@[(idx - self.base_word) / 64],
            ((idx - self.base_word) % 64) as u64,
        )
    }

    /// A bitmap with no bit set for a heap of `size` bytes that starts at
    /// word `base_word`.
    pub fn alloc_bitmap(size: Bytes<u32>, base_word: u32) -> (r: Bitmap)
        ensures
            r.well_formed(),
            r.base() == base_word,
            r.len() == size.0 / 4,
            forall|idx: int| !r.is_set(idx),
    {
        let bits: u32 = size.0 / WORD_SIZE;
        let n: usize = (bits / 64 + 1) as usize;
        let mut words: Vec<u64> = Vec::new();
        let mut i: usize = 0;
        while i < n
            invariant
                i <= n,
                words@.len() == i,
                forall|j: int| 0 <= j < i ==> words@[j] == 0,
            decreases n - i,
        {
            words.push(0);
            i += 1;
        }
        assert forall|b: u64| b < 64 implies !bit_of(0, b) by {
            assert((0u64 >> b) & 1 == 0) by (bit_vector)
                requires
                    b < 64,
            ;
        }
        Bitmap { base_word, bits, words }
    }

    /// Reads the bit of word `idx`.
    pub fn get_bit(&self, idx: u32) -> (r: bool)
        requires
            self.well_formed(),
            self.covers(idx as int),
        ensures
            r == self.is_set(idx as int),
    {
        let at: u32 = idx - self.base_word;
        let word: u64 = self.words[(at / 64) as usize];
        let b: u64 = (at % 64) as u64;
        (word >> b) & 1 == 1
    }

    /// Sets the bit of word `idx`; every other bit stays.
    pub fn set_bit(&mut self, idx: u32)
        requires
            old(self).well_formed(),
            old(self).covers(idx as int),
        ensures
            final(self).well_formed(),
            final(self).base() == old(self).base(),
            final(self).len() == old(self).len(),
            forall|j: int| final(self).is_set(j) == (j == idx || old(self).is_set(j)),
    {
        let at: u32 = idx - self.base_word;
        let i: usize = (at / 64) as usize;
        let b: u64 = (at % 64) as u64;
        let word: u64 = self.words[i];
        let with_bit: u64 = word | (1u64 << b);
        self.words.set(i, with_bit);
        proof {
            assert forall|c: u64| c < 64 implies bit_of(with_bit, c) == (c == b || bit_of(
                word,
                c,
            )) by {
                assert(((word | (1u64 << b)) >> c) & 1 == 1 <==> (c == b || (word >> c) & 1
                    == 1)) by (bit_vector)
                    requires
                        c < 64,
                        b < 64,
                ;
            }
            assert forall|j: int| self.is_set(j) == (j == idx || old(self).is_set(j)) by {
                if self.base_word <= j < self.base_word + self.bits {
                    let c = ((j - self.base_word) % 64) as u64;
                    if (j - self.base_word) / 64 == i as int {
                        assert(bit_of(with_bit, c) == (c == b || bit_of(word, c)));
                    }
                }
            }
        }
    }

    /// An iterator over the set bits, in ascending order, from the first
    /// covered word.
    pub fn iter_bits(&self) -> (r: BitmapIter)
        ensures
            r.pos() == self.base(),
    {
        BitmapIter { pos: self.base_word }
    }
}

/// A position in a bitmap: the index of the next word to look at.
pub struct BitmapIter {
    pos: u32,
}

impl BitmapIter {
    /// Index of the next word that `next` looks at.
    pub closed spec fn pos(&self) -> int {
        self.pos as int
    }

    /// Skips every word below `idx`.
    pub fn advance(&mut self, idx: u32)
        ensures
            final(self).pos() == if idx > old(self).pos() {
                idx as int
            } else {
                old(self).pos()
            },
    {
        if idx > self.pos {
            self.pos = idx;
        }
    }

    /// The index of the first set bit at or after the position, and moves
    /// past it; `BITMAP_ITER_END` when there is none.
    pub fn next(&mut self, bitmap: &Bitmap) -> (r: u32)
        requires
            bitmap.well_formed(),
            bitmap.base() + bitmap.len() < BITMAP_ITER_END,
        ensures
            r == BITMAP_ITER_END ==> {
                &&& forall|j: int| j >= old(self).pos() ==> !bitmap.is_set(j)
                &&& final(self).pos() == if old(self).pos() >= bitmap.base() + bitmap.len() {
                    old(self).pos()
                } else {
                    bitmap.base() + bitmap.len()
                }
            },
            r != BITMAP_ITER_END ==> {
                &&& old(self).pos() <= r
                &&& bitmap.is_set(r as int)
                &&& final(self).pos() == r + 1
                &&& forall|j: int| old(self).pos() <= j < r ==> !bitmap.is_set(j)
            },
    {
        let end: u32 = bitmap.base_word + bitmap.bits;
        while self.pos < end
            invariant
                bitmap.well_formed(),
                end == bitmap.base_word + bitmap.bits,
                end < BITMAP_ITER_END,
                old(self).pos <= self.pos,
                self.pos <= end || self.pos == old(self).pos,
                forall|j: int| old(self).pos <= j < self.pos ==> !bitmap.is_set(j),
            decreases end - self.pos,
        {
            let at: u32 = self.pos;
            self.pos = at + 1;
            if at >= bitmap.base_word && bitmap.get_bit(at) {
                return at;
            }
        }
        BITMAP_ITER_END
    }
}

} // verus!
