//! The linear memory that holds the static region and the dynamic heap:
//! 32-bit words, addressed by byte.

use vstd::prelude::*;
use crate::types::{Words, WORD_SIZE};

verus! {

/// A linear memory of 32-bit words. Its view is the sequence of its words;
/// the word at byte address `a` is `self@[a / 4]`.
pub struct Memory {
    words: Vec<u32>,
}

impl View for Memory {
    type V = Seq<u32>;

    closed spec fn view(&self) -> Seq<u32> {
        self.words@
    }
}

/// Whether `addr` is the address of a word of a memory of `len` words.
pub open spec fn word_in(len: nat, addr: int) -> bool {
    0 <= addr && addr % 4 == 0 && addr / 4 < len
}

/// The word of `m` at byte address `addr`.
pub open spec fn word_at(m: Seq<u32>, addr: int) -> u32 {
    m[addr / 4]
}

/// `m` with the word at byte address `addr` replaced by `value`.
pub open spec fn with_word(m: Seq<u32>, addr: int, value: u32) -> Seq<u32> {
    m.update(addr / 4, value)
}

/// `m` after `n` words were copied from byte address `from` to `to`.
pub open spec fn with_copy(m: Seq<u32>, to: int, from: int, n: int) -> Seq<u32> {
    Seq::new(
        m.len(),
        |i: int|
            if to / 4 <= i < to / 4 + n {
                m[i - to / 4 + from / 4]
            } else {
                m[i]
            },
    )
}

impl Memory {
    /// A memory of `len` zero words.
    pub fn new(len: usize) -> (r: Memory)
        ensures
            r@.len() == len,
            forall|i: int| 0 <= i < len ==> r@[i] == 0,
    {
        let mut words: Vec<u32> = Vec::new();
        let mut i: usize = 0;
        while i < len
            invariant
                i <= len,
                words@.len() == i,
                forall|j: int| 0 <= j < i ==> words@[j] == 0,
            decreases len - i,
        {
            words.push(0);
            i += 1;
        }
        Memory { words }
    }

    /// The memory that holds exactly `words`.
    pub fn from_words(words: Vec<u32>) -> (r: Memory)
        ensures
            r@ == words@,
    {
        Memory { words }
    }

    /// Number of words.
    pub fn len(&self) -> (r: usize)
        ensures
            r == self@.len(),
    {
        self.words.len()
    }

    /// Whether `addr` is word-aligned and inside the memory.
    pub fn contains(&self, addr: u32) -> (r: bool)
        ensures
            r == word_in(self@.len(), addr as int),
    {
        addr % WORD_SIZE == 0 && ((addr / WORD_SIZE) as usize) < self.words.len()
    }

    /// Reads the word at `addr`.
    pub fn load(&self, addr: u32) -> (r: u32)
        requires
            word_in(self@.len(), addr as int),
        ensures
            r == word_at(self@, addr as int),
    {
        self.words[(addr / WORD_SIZE) as usize]
    }

    /// Writes `value` to the word at `addr`.
    pub fn store(&mut self, addr: u32, value: u32)
        requires
            word_in(old(self)@.len(), addr as int),
        ensures
            final(self)@ == with_word(old(self)@, addr as int, value),
    {
        self.words.set((addr / WORD_SIZE) as usize, value);
    }

    /// Copies `n` words from `from` down to `to`; the two ranges may overlap.
    pub fn memcpy_words(&mut self, to: u32, from: u32, n: Words<u32>)
        requires
            to % 4 == 0,
            from % 4 == 0,
            to <= from,
            from / 4 + n.0 <= old(self)@.len(),
        ensures
            final(self)@ == with_copy(old(self)@, to as int, from as int, n.0 as int),
    {
        let t: usize = (to / WORD_SIZE) as usize;
        let f: usize = (from / WORD_SIZE) as usize;
        let count: usize = n.0 as usize;
        let total: usize = self.words.len();
        let mut i: usize = 0;
        while i < count
            invariant
                i <= count,
                t <= f,
                f + count <= total,
                total == self.words@.len(),
                self.words@.len() == old(self)@.len(),
                forall|j: int| t <= j < t + i ==> self.words@[j] == old(self)@[j - t + f],
                forall|j: int|
                    0 <= j < self.words@.len() && !(t <= j < t + i) ==> self.words@[j] == old(
                        self,
                    )@[j],
            decreases count - i,
        {
            let w: u32 = self.words[f + i];
            self.words.set(t + i, w);
            i += 1;
        }
        assert(self@ =~= with_copy(old(self)@, to as int, from as int, n.0 as int));
    }
}

} // verus!
