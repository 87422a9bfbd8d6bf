//! The arithmetic of the x86-64 fast path.
//!
//! On x86-64 the block instructions of the processor do the copying and
//! filling: a run of quadword moves or stores, then a run of byte moves or
//! stores for what is left. What is computed before they run is here: how a
//! length splits between the two runs, and the quadword that fills with a
//! given byte.

use crate::mem::{byte_of, bytes_of};
use vstd::prelude::*;

verus! {

proof fn lemma_counts(count: usize)
    by (bit_vector)
    ensures
        count >> 3 == count / 8,
        count & 0b111 == count % 8,
{
}

proof fn lemma_fill(c: u8, lane: u64)
    by (bit_vector)
    requires
        lane < 8,
    ensures
        byte_of(((c as u64) * 0x0101010101010101) as u64, lane) == c,
{
}

/// Splits the length `count` of a block into the number of whole quadwords and
/// the number of bytes left over.
pub fn qword_and_byte_counts(count: usize) -> (counts: (usize, usize))
    ensures
        counts.0 == count / 8,
        counts.1 == count % 8,
        8 * counts.0 + counts.1 == count,
{
    proof {
        lemma_counts(count);
    }
    let qword_count = count >> 3;
    let byte_count = count & 0b111;
    (qword_count, byte_count)
}

/// Returns the quadword whose eight bytes are all `c`.
pub fn fill_qword(c: u8) -> (q: u64)
    ensures
        bytes_of(q) == Seq::new(8, |j: int| c),
{
    let q = (c as u64) * 0x0101010101010101;
    proof {
        assert forall|j: int| 0 <= j < 8 implies #[trigger] bytes_of(q)[j] == c by {
            lemma_fill(c, j as u64);
        }
        assert(bytes_of(q) =~= Seq::new(8, |j: int| c));
    }
    q
}

} // verus!
