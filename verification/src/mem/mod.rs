//! A byte-addressed memory made of machine words, and the block primitives on
//! it.
//!
//! Addresses are byte offsets from the start of the memory, which is aligned
//! to a word. The memory is held a word at a time, in little-endian byte
//! order, so that an aligned word is read or written in one access while a
//! single byte costs a read, a mask and a write.

pub mod impls;
pub mod x86_64;

use vstd::prelude::*;

verus! {

/// The size of a machine word in bytes.
pub const WORD_SIZE: usize = 8;

/// The bits of an address that tell its offset within a word.
pub const WORD_MASK: usize = WORD_SIZE - 1;

/// The byte in lane `lane` of `word`, lane 0 being the least significant.
pub open spec fn byte_of(word: u64, lane: u64) -> u8 {
    (word >> ((8 * lane) as u64)) as u8
}

/// The eight bytes of `word`, least significant first.
pub open spec fn bytes_of(word: u64) -> Seq<u8> {
    Seq::new(8, |j: int| byte_of(word, j as u64))
}

/// The bytes that a sequence of words holds.
pub open spec fn bytes_of_words(words: Seq<u64>) -> Seq<u8> {
    Seq::new(8 * words.len(), |i: int| byte_of(words[i / 8], (i % 8) as u64))
}

/// `s` with the eight bytes from `addr` on replaced by the bytes of `word`.
pub open spec fn with_word(s: Seq<u8>, addr: int, word: u64) -> Seq<u8> {
    Seq::new(
        s.len(),
        |i: int|
            if addr <= i < addr + 8 {
                byte_of(word, (i - addr) as u64)
            } else {
                s[i]
            },
    )
}

proof fn lemma_lanes(word: u64, lane: u64, other: u64, value: u8)
    by (bit_vector)
    requires
        lane < 8,
        other < 8,
    ensures
        ((word >> ((8 * lane) as u64)) & 0xff) as u8 == byte_of(word, lane),
        byte_of((word & !(0xffu64 << ((8 * lane) as u64))) | ((value as u64) << ((8 * lane) as u64)), other)
            == if other == lane {
            value
        } else {
            byte_of(word, other)
        },
        byte_of(0, lane) == 0,
{
}

/// Two words with the same bytes are the same word.
pub proof fn lemma_word_of_bytes(w1: u64, w2: u64)
    by (bit_vector)
    requires
        byte_of(w1, 0) == byte_of(w2, 0),
        byte_of(w1, 1) == byte_of(w2, 1),
        byte_of(w1, 2) == byte_of(w2, 2),
        byte_of(w1, 3) == byte_of(w2, 3),
        byte_of(w1, 4) == byte_of(w2, 4),
        byte_of(w1, 5) == byte_of(w2, 5),
        byte_of(w1, 6) == byte_of(w2, 6),
        byte_of(w1, 7) == byte_of(w2, 7),
    ensures
        w1 == w2,
{
}

/// Returns the byte in lane `lane` of `word`.
fn lane_of(word: u64, lane: usize) -> (b: u8)
    requires
        lane < 8,
    ensures
        b == byte_of(word, lane as u64),
{
    proof {
        lemma_lanes(word, lane as u64, 0, 0);
    }
    ((word >> (8 * lane)) & 0xff) as u8
}

/// Returns `word` with the byte in lane `lane` replaced by `value`.
fn with_lane(word: u64, lane: usize, value: u8) -> (w: u64)
    requires
        lane < 8,
    ensures
        forall|j: u64| j < 8 ==> #[trigger] byte_of(w, j) == if j == lane {
            value
        } else {
            byte_of(word, j)
        },
{
    let shift = 8 * lane;
    let w = (word & !(0xffu64 << shift)) | ((value as u64) << shift);
    proof {
        assert(shift == (8 * (lane as u64)) as u64);
        assert forall|j: u64| j < 8 implies #[trigger] byte_of(w, j) == if j == lane {
            value
        } else {
            byte_of(word, j)
        } by {
            lemma_lanes(word, lane as u64, j, value);
        }
    }
    w
}

/// A memory of whole words, addressed by byte.
pub struct Memory {
    words: Vec<u64>,
}

impl View for Memory {
    type V = Seq<u8>;

    /// The bytes of the memory, by address.
    closed spec fn view(&self) -> Seq<u8> {
        bytes_of_words(self.words@)
    }
}

impl Memory {
    #[verifier::type_invariant]
    spec fn fits(&self) -> bool {
        self.words@.len() * 8 <= usize::MAX
    }

    /// Makes known that every address of the memory fits the address type.
    /// Has no effect when run.
    pub fn addressable(&self)
        ensures
            self@.len() <= usize::MAX,
            self@.len() % 8 == 0,
    {
        proof {
            use_type_invariant(self);
        }
    }

    /// Returns a memory of `n_words` words, every byte zero.
    pub fn new(n_words: usize) -> (m: Memory)
        requires
            n_words * 8 <= usize::MAX,
        ensures
            m@.len() == 8 * n_words,
            forall|i: int| 0 <= i < m@.len() ==> m@[i] == 0,
    {
        let mut words: Vec<u64> = Vec::new();
        let mut k: usize = 0;
        while k < n_words
            invariant
                k <= n_words,
                words@.len() == k,
                forall|j: int| 0 <= j < k ==> words@[j] == 0,
            decreases n_words - k,
        {
            words.push(0);
            k += 1;
        }
        let m = Memory { words };
        proof {
            assert forall|i: int| 0 <= i < m@.len() implies m@[i] == 0 by {
                lemma_lanes(0, (i % 8) as u64, 0, 0);
            }
        }
        m
    }

    /// Returns the smallest memory that holds `bytes` from address 0 on; the
    /// bytes that fill up the last word are zero.
    pub fn from_bytes(bytes: &[u8]) -> (m: Memory)
        requires
            bytes@.len() + 7 <= usize::MAX,
        ensures
            bytes@.len() <= m@.len() < bytes@.len() + 8,
            m@.len() % 8 == 0,
            m@.subrange(0, bytes@.len() as int) == bytes@,
            forall|i: int| bytes@.len() <= i < m@.len() ==> m@[i] == 0,
    {
        let n = bytes.len();
        let mut m = Memory::new((n + 7) / 8);
        let mut i: usize = 0;
        while i < n
            invariant
                i <= n,
                n == bytes@.len(),
                n <= m@.len() < n + 8,
                m@.len() % 8 == 0,
                forall|j: int| 0 <= j < i ==> m@[j] == bytes@[j],
                forall|j: int| i <= j < m@.len() ==> m@[j] == 0,
            decreases n - i,
        {
            m.write_byte(i, bytes[i]);
            i += 1;
        }
        proof {
            assert(m@.subrange(0, n as int) =~= bytes@);
        }
        m
    }

    /// Returns the bytes of the memory, by address.
    pub fn to_bytes(&self) -> (bytes: Vec<u8>)
        ensures
            bytes@ == self@,
    {
        let n = self.len();
        let mut bytes: Vec<u8> = Vec::new();
        let mut i: usize = 0;
        while i < n
            invariant
                i <= n,
                n == self@.len(),
                bytes@.len() == i,
                forall|j: int| 0 <= j < i ==> bytes@[j] == self@[j],
            decreases n - i,
        {
            bytes.push(self.read_byte(i));
            i += 1;
        }
        proof {
            assert(bytes@ =~= self@);
        }
        bytes
    }

    /// Returns the size of the memory in bytes.
    pub fn len(&self) -> (n: usize)
        ensures
            n == self@.len(),
    {
        proof {
            use_type_invariant(self);
        }
        self.words.len() * 8
    }

    /// Returns the byte at `addr`.
    pub fn read_byte(&self, addr: usize) -> (b: u8)
        requires
            addr < self@.len(),
        ensures
            b == self@[addr as int],
    {
        lane_of(self.words[addr / 8], addr % 8)
    }

    /// Stores `value` at `addr`.
    pub fn write_byte(&mut self, addr: usize, value: u8)
        requires
            addr < old(self)@.len(),
        ensures
            final(self)@ == old(self)@.update(addr as int, value),
    {
        proof {
            use_type_invariant(&*self);
        }
        let k = addr / 8;
        let w = with_lane(self.words[k], addr % 8, value);
        self.words[k] = w;
        proof {
            assert(self@ =~= old(self)@.update(addr as int, value));
        }
    }

    /// Returns the word at the aligned address `addr`.
    pub fn read_word(&self, addr: usize) -> (w: u64)
        requires
            addr % 8 == 0,
            addr + 8 <= self@.len(),
        ensures
            bytes_of(w) == self@.subrange(addr as int, addr + 8),
    {
        let w = self.words[addr / 8];
        proof {
            assert(bytes_of(w) =~= self@.subrange(addr as int, addr + 8));
        }
        w
    }

    /// Stores the word `w` at the aligned address `addr`.
    pub fn write_word(&mut self, addr: usize, w: u64)
        requires
            addr % 8 == 0,
            addr + 8 <= old(self)@.len(),
        ensures
            final(self)@ == with_word(old(self)@, addr as int, w),
    {
        proof {
            use_type_invariant(&*self);
        }
        let k = addr / 8;
        self.words[k] = w;
        proof {
            assert(self@ =~= with_word(old(self)@, addr as int, w));
        }
    }
}

} // verus!
