//! Forward copy, backward copy and fill.
//!
//! Each primitive handles a short block byte by byte. A longer block is
//! handled in three parts: the few bytes that bring the destination to a word
//! boundary, then whole words, then the bytes that are left.

use crate::mem::{byte_of, bytes_of, with_word, Memory, WORD_MASK, WORD_SIZE};
use vstd::prelude::*;

verus! {

/// The length from which on a block is handled word by word.
pub const WORD_COPY_THRESHOLD: usize = 2 * WORD_SIZE;

/// `s` with the `n` bytes from `dest` on replaced by the `n` bytes that `s`
/// holds from `src` on.
pub open spec fn copied(s: Seq<u8>, dest: int, src: int, n: int) -> Seq<u8> {
    Seq::new(
        s.len(),
        |i: int|
            if dest <= i < dest + n {
                s[i - dest + src]
            } else {
                s[i]
            },
    )
}

/// `s` with the `n` bytes from `dest` on replaced by `value`.
pub open spec fn filled(s: Seq<u8>, dest: int, value: u8, n: int) -> Seq<u8> {
    Seq::new(
        s.len(),
        |i: int|
            if dest <= i < dest + n {
                value
            } else {
                s[i]
            },
    )
}

/// Whether `after` has the length of `before` and differs from it at most in
/// the bytes from `lo` up to `hi`.
#[verifier::opaque]
pub open spec fn same_outside(before: Seq<u8>, after: Seq<u8>, lo: int, hi: int) -> bool {
    &&& after.len() == before.len()
    &&& forall|i: int| 0 <= i < before.len() && !(lo <= i < hi) ==> after[i] == before[i]
}

/// Whether a copy that runs from low addresses to high ones reads every
/// source byte before it overwrites it: the blocks do not overlap, or the
/// destination starts at or below the source.
pub open spec fn forward_safe(dest: int, src: int, n: int) -> bool {
    dest <= src || src + n <= dest
}

/// Whether a copy that runs from high addresses to low ones reads every
/// source byte before it overwrites it: the blocks do not overlap, or the
/// destination starts at or above the source.
pub open spec fn backward_safe(dest: int, src: int, n: int) -> bool {
    src <= dest || dest + n <= src
}

/// What copying `n` bytes one at a time, lowest address first, makes of `s`,
/// whether or not the blocks overlap.
pub open spec fn bytewise_forward(s: Seq<u8>, dest: int, src: int, n: nat) -> Seq<u8>
    decreases n,
{
    if n == 0 {
        s
    } else {
        bytewise_forward(s.update(dest, s[src]), dest + 1, src + 1, (n - 1) as nat)
    }
}

/// What copying `n` bytes one at a time, highest address first, makes of `s`,
/// whether or not the blocks overlap.
pub open spec fn bytewise_backward(s: Seq<u8>, dest: int, src: int, n: nat) -> Seq<u8>
    decreases n,
{
    if n == 0 {
        s
    } else {
        bytewise_backward(s.update(dest + n - 1, s[src + n - 1]), dest, src, (n - 1) as nat)
    }
}

/// A bytewise forward copy keeps the length and touches the destination
/// block only; where the copy is forward safe it is the plain copy.
pub proof fn lemma_bytewise_forward(s: Seq<u8>, dest: int, src: int, n: nat)
    requires
        0 <= dest,
        0 <= src,
        dest + n <= s.len(),
        src + n <= s.len(),
    ensures
        bytewise_forward(s, dest, src, n).len() == s.len(),
        forall|i: int|
            0 <= i < s.len() && !(dest <= i < dest + n) ==> bytewise_forward(s, dest, src, n)[i]
                == s[i],
        same_outside(s, bytewise_forward(s, dest, src, n), dest, dest + n),
        forward_safe(dest, src, n as int) ==> bytewise_forward(s, dest, src, n) == copied(
            s,
            dest,
            src,
            n as int,
        ),
    decreases n,
{
    reveal(same_outside);
    if n > 0 {
        let s1 = s.update(dest, s[src]);
        lemma_bytewise_forward(s1, dest + 1, src + 1, (n - 1) as nat);
        assert forall|i: int| 0 <= i < s.len() && !(dest <= i < dest + n) implies bytewise_forward(
            s,
            dest,
            src,
            n,
        )[i] == s[i] by {
            assert(s1[i] == s[i]);
        }
        if forward_safe(dest, src, n as int) {
            assert(bytewise_forward(s, dest, src, n) =~= copied(s, dest, src, n as int));
        }
    } else {
        assert(s =~= copied(s, dest, src, 0));
    }
}

/// A bytewise backward copy keeps the length and touches the destination
/// block only; where the copy is backward safe it is the plain copy.
pub proof fn lemma_bytewise_backward(s: Seq<u8>, dest: int, src: int, n: nat)
    requires
        0 <= dest,
        0 <= src,
        dest + n <= s.len(),
        src + n <= s.len(),
    ensures
        bytewise_backward(s, dest, src, n).len() == s.len(),
        forall|i: int|
            0 <= i < s.len() && !(dest <= i < dest + n) ==> bytewise_backward(s, dest, src, n)[i]
                == s[i],
        same_outside(s, bytewise_backward(s, dest, src, n), dest, dest + n),
        backward_safe(dest, src, n as int) ==> bytewise_backward(s, dest, src, n) == copied(
            s,
            dest,
            src,
            n as int,
        ),
    decreases n,
{
    reveal(same_outside);
    if n > 0 {
        let s1 = s.update(dest + n - 1, s[src + n - 1]);
        lemma_bytewise_backward(s1, dest, src, (n - 1) as nat);
        assert forall|i: int|
            0 <= i < s.len() && !(dest <= i < dest + n) implies bytewise_backward(s, dest, src, n)[i]
            == s[i] by {
            assert(s1[i] == s[i]);
        }
        if backward_safe(dest, src, n as int) {
            assert(bytewise_backward(s, dest, src, n) =~= copied(s, dest, src, n as int));
        }
    } else {
        assert(s =~= copied(s, dest, src, 0));
    }
}

fn copy_forward_bytes(mem: &mut Memory, dest: usize, src: usize, n: usize)
    requires
        dest + n <= old(mem)@.len(),
        src + n <= old(mem)@.len(),
    ensures
        final(mem)@ == bytewise_forward(old(mem)@, dest as int, src as int, n as nat),
{
    let mut dest = dest;
    let mut src = src;
    let ghost dest0 = dest;
    let ghost src0 = src;
    mem.addressable();
    let dest_end = dest + n;
    while dest < dest_end
        invariant
            dest0 <= dest <= dest_end,
            dest_end == dest0 + n,
            src - src0 == dest - dest0,
            mem@.len() == old(mem)@.len(),
            dest0 + n <= mem@.len() <= usize::MAX,
            src0 + n <= mem@.len(),
            bytewise_forward(mem@, dest as int, src as int, (dest_end - dest) as nat)
                == bytewise_forward(old(mem)@, dest0 as int, src0 as int, n as nat),
        decreases dest_end - dest,
    {
        let b = mem.read_byte(src);
        mem.write_byte(dest, b);
        dest += 1;
        src += 1;
    }
}

fn copy_backward_bytes(mem: &mut Memory, dest: usize, src: usize, n: usize)
    requires
        n <= dest <= old(mem)@.len(),
        n <= src <= old(mem)@.len(),
    ensures
        final(mem)@ == bytewise_backward(old(mem)@, dest - n, src - n, n as nat),
{
    let mut dest = dest;
    let mut src = src;
    let ghost dest0 = dest;
    let ghost src0 = src;
    let dest_start = dest - n;
    while dest_start < dest
        invariant
            dest_start <= dest <= dest0,
            dest_start == dest0 - n,
            src0 - src == dest0 - dest,
            n <= src0,
            mem@.len() == old(mem)@.len(),
            dest0 <= mem@.len(),
            src0 <= mem@.len(),
            bytewise_backward(mem@, dest_start as int, src0 - n, (dest - dest_start) as nat)
                == bytewise_backward(old(mem)@, dest0 - n, src0 - n, n as nat),
        decreases dest - dest_start,
    {
        dest -= 1;
        src -= 1;
        let b = mem.read_byte(src);
        mem.write_byte(dest, b);
    }
}

/// How masks take an address apart: its offset within a word, the word
/// boundary at or below it, and the distance to the word boundary at or above
/// it.
proof fn lemma_alignment(addr: usize)
    by (bit_vector)
    ensures
        addr & 7 == addr % 8,
        addr & !7usize == addr - addr % 8,
        ((8 - (addr & 7)) as usize) & 7 == (8 - addr % 8) % 8,
{
}

/// The word that lies `offset` bytes into the pair of words `low`, `high` is
/// put together from the upper lanes of `low` and the lower lanes of `high`.
proof fn lemma_reassemble(low: u64, high: u64, offset: u64, lane: u64)
    by (bit_vector)
    requires
        1 <= offset < 8,
        lane < 8,
    ensures
        byte_of((low >> ((8 * offset) as u64)) | (high << ((64 - 8 * offset) as u64)), lane) == if lane
            + offset < 8 {
            byte_of(low, (lane + offset) as u64)
        } else {
            byte_of(high, (lane + offset - 8) as u64)
        },
        (high << ((64 - 8 * offset) as u64)) | (low >> ((8 * offset) as u64)) == (low >> ((8
            * offset) as u64)) | (high << ((64 - 8 * offset) as u64)),
{
}

/// Doubling a byte up three times fills every lane of a word with it.
proof fn lemma_broadcast(c: u8, lane: u64)
    by (bit_vector)
    requires
        lane < 8,
    ensures
        ({
            let b1 = (c as u64) | ((c as u64) << 8);
            let b2 = b1 | (b1 << 16);
            let b3 = b2 | (b2 << 32);
            byte_of(b3, lane) == c
        }),
{
}

/// The words of an aligned block: its length is eight times a whole number.
proof fn lemma_whole_words(n: usize) -> (words: nat)
    requires
        n % 8 == 0,
    ensures
        n == 8 * words,
{
    (n / 8) as nat
}

/// Whether the bytes of `cur` from `lo` up to `hi` are those that `s` holds
/// `src - dest` bytes further on.
#[verifier::opaque]
spec fn copied_range(s: Seq<u8>, cur: Seq<u8>, dest: int, src: int, lo: int, hi: int) -> bool {
    forall|i: int| lo <= i < hi ==> cur[i] == s[i - dest + src]
}

/// Before anything is copied, nothing has changed.
proof fn lemma_nothing_copied(s: Seq<u8>, dest: int, src: int, at: int)
    ensures
        same_outside(s, s, at, at),
        copied_range(s, s, dest, src, at, at),
{
    reveal(same_outside);
    reveal(copied_range);
}

/// The aligned words that hold a misaligned block of whole words lie within
/// the memory, the one after the block's last byte included.
proof fn lemma_words_around(start: int, offset: int, n: int, len: int)
    requires
        1 <= offset < 8,
        0 <= start - offset,
        (start - offset) % 8 == 0,
        0 <= n,
        n % 8 == 0,
        len % 8 == 0,
        start + n <= len,
    ensures
        start - offset + n + 8 <= len,
{
}

/// Storing a word whose bytes are the source bytes for its place extends the
/// part of the block that has been copied by that word, at either end.
proof fn lemma_store_copied_word(
    s: Seq<u8>,
    before: Seq<u8>,
    w: u64,
    dest: int,
    src: int,
    lo: int,
    hi: int,
    d: int,
    safe: bool,
)
    requires
        0 <= lo <= hi <= s.len(),
        0 <= d,
        d + 8 <= s.len(),
        d == hi || d + 8 == lo,
        same_outside(s, before, lo, hi),
        safe ==> copied_range(s, before, dest, src, lo, hi),
        safe ==> forall|j: int| 0 <= j < 8 ==> #[trigger] bytes_of(w)[j] == s[d + j - dest + src],
    ensures
        d == hi ==> same_outside(s, with_word(before, d, w), lo, hi + 8),
        d == hi && safe ==> copied_range(s, with_word(before, d, w), dest, src, lo, hi + 8),
        d + 8 == lo ==> same_outside(s, with_word(before, d, w), lo - 8, hi),
        d + 8 == lo && safe ==> copied_range(s, with_word(before, d, w), dest, src, lo - 8, hi),
{
    reveal(same_outside);
    reveal(copied_range);
    let after = with_word(before, d, w);
    if safe {
        assert forall|i: int| d <= i < d + 8 implies after[i] == s[i - dest + src] by {
            assert(bytes_of(w)[i - d] == s[d + (i - d) - dest + src]);
        }
    }
}

/// A block of which every byte has been copied is the plain copy.
proof fn lemma_copied_whole(s: Seq<u8>, cur: Seq<u8>, dest: int, src: int, n: int)
    requires
        same_outside(s, cur, dest, dest + n),
        copied_range(s, cur, dest, src, dest, dest + n),
    ensures
        cur == copied(s, dest, src, n),
{
    reveal(same_outside);
    reveal(copied_range);
    assert(cur =~= copied(s, dest, src, n));
}

/// The bytes of a word read from a part of the memory that the copy has not
/// written yet are the bytes that were there at the start.
proof fn lemma_word_untouched(s: Seq<u8>, cur: Seq<u8>, w: u64, addr: int, lo: int, hi: int)
    requires
        0 <= addr,
        addr + 8 <= s.len(),
        same_outside(s, cur, lo, hi),
        bytes_of(w) == cur.subrange(addr, addr + 8),
    ensures
        forall|j: int|
            0 <= j < 8 && !(lo <= addr + j < hi) ==> #[trigger] bytes_of(w)[j] == s[addr + j],
{
    reveal(same_outside);
    assert forall|j: int| 0 <= j < 8 && !(lo <= addr + j < hi) implies #[trigger] bytes_of(w)[j]
        == s[addr + j] by {
        assert(bytes_of(w)[j] == cur.subrange(addr, addr + 8)[j]);
    }
}

/// The bytes of the word put together from two neighbouring words, `low` at
/// `addr` and `high` after it, are the bytes from `addr + offset` on.
proof fn lemma_reassembled_bytes(s: Seq<u8>, low: u64, high: u64, w: u64, addr: int, offset: int)
    requires
        1 <= offset < 8,
        w == (low >> ((8 * offset) as u64)) | (high << ((64 - 8 * offset) as u64)),
        forall|j: int| offset <= j < 8 ==> #[trigger] bytes_of(low)[j] == s[addr + j],
        forall|j: int| 0 <= j < offset ==> #[trigger] bytes_of(high)[j] == s[addr + 8 + j],
    ensures
        forall|j: int| 0 <= j < 8 ==> #[trigger] bytes_of(w)[j] == s[addr + offset + j],
{
    assert forall|j: int| 0 <= j < 8 implies #[trigger] bytes_of(w)[j] == s[addr + offset + j] by {
        lemma_reassemble(low, high, offset as u64, j as u64);
        if j + offset < 8 {
            assert(bytes_of(low)[j + offset] == s[addr + (j + offset)]);
        } else {
            assert(bytes_of(high)[j + offset - 8] == s[addr + 8 + (j + offset - 8)]);
        }
    }
}

fn copy_forward_aligned_words(mem: &mut Memory, dest: usize, src: usize, n: usize)
    requires
        dest % 8 == 0,
        src % 8 == 0,
        n % 8 == 0,
        dest + n <= old(mem)@.len(),
        src + n <= old(mem)@.len(),
    ensures
        final(mem)@.len() == old(mem)@.len(),
        same_outside(old(mem)@, final(mem)@, dest as int, dest + n),
        forward_safe(dest as int, src as int, n as int) ==> final(mem)@ == copied(
            old(mem)@,
            dest as int,
            src as int,
            n as int,
        ),
{
    mem.addressable();
    let mut dest_usize = dest;
    let mut src_usize = src;
    let dest_end = dest + n;
    let ghost safe = forward_safe(dest as int, src as int, n as int);
    let ghost words = lemma_whole_words(n);
    let ghost mut k: nat = 0;
    proof {
        lemma_nothing_copied(old(mem)@, dest as int, src as int, dest as int);
    }

    while dest_usize < dest_end
        invariant
            k <= words,
            n == 8 * words,
            dest_usize == dest + 8 * k,
            src_usize == src + 8 * k,
            dest_end == dest + n,
            dest % 8 == 0,
            src % 8 == 0,
            safe == forward_safe(dest as int, src as int, n as int),
            mem@.len() == old(mem)@.len(),
            dest + n <= mem@.len() <= usize::MAX,
            src + n <= mem@.len(),
            same_outside(old(mem)@, mem@, dest as int, dest_usize as int),
            safe ==> copied_range(
                old(mem)@,
                mem@,
                dest as int,
                src as int,
                dest as int,
                dest_usize as int,
            ),
        decreases words - k,
    {
        let ghost before = mem@;
        let w = mem.read_word(src_usize);
        mem.write_word(dest_usize, w);
        proof {
            lemma_word_untouched(
                old(mem)@,
                before,
                w,
                src_usize as int,
                dest as int,
                dest_usize as int,
            );
            lemma_store_copied_word(
                old(mem)@,
                before,
                w,
                dest as int,
                src as int,
                dest as int,
                dest_usize as int,
                dest_usize as int,
                safe,
            );
            k = k + 1;
        }
        dest_usize += 8;
        src_usize += 8;
    }
    proof {
        if safe {
            lemma_copied_whole(old(mem)@, mem@, dest as int, src as int, n as int);
        }
    }
}

fn copy_forward_misaligned_words(mem: &mut Memory, dest: usize, src: usize, n: usize)
    requires
        dest % 8 == 0,
        src % 8 != 0,
        n % 8 == 0,
        dest + n <= old(mem)@.len(),
        src + n <= old(mem)@.len(),
    ensures
        final(mem)@.len() == old(mem)@.len(),
        same_outside(old(mem)@, final(mem)@, dest as int, dest + n),
        forward_safe(dest as int, src as int, n as int) ==> final(mem)@ == copied(
            old(mem)@,
            dest as int,
            src as int,
            n as int,
        ),
{
    mem.addressable();
    let mut dest_usize = dest;
    let dest_end = dest + n;

    // Calculate the misalignment offset and shift needed to reassemble value.
    proof {
        lemma_alignment(src);
    }
    let offset = src & WORD_MASK;
    let shift = offset * 8;

    // Realign src
    let mut src_aligned = src & !WORD_MASK;
    let ghost safe = forward_safe(dest as int, src as int, n as int);
    let ghost base = src_aligned;
    let ghost words = lemma_whole_words(n);
    let ghost mut k: nat = 0;
    proof {
        lemma_words_around(src as int, offset as int, n as int, mem@.len() as int);
        lemma_nothing_copied(old(mem)@, dest as int, src as int, dest as int);
    }
    let mut prev_word = mem.read_word(src_aligned);
    proof {
        lemma_word_untouched(
            old(mem)@,
            mem@,
            prev_word,
            src_aligned as int,
            dest as int,
            dest as int,
        );
    }

    while dest_usize < dest_end
        invariant
            k <= words,
            n == 8 * words,
            dest_usize == dest + 8 * k,
            src_aligned == base + 8 * k,
            dest_end == dest + n,
            dest % 8 == 0,
            base % 8 == 0,
            1 <= offset < 8,
            shift == 8 * offset,
            base + offset == src,
            safe == forward_safe(dest as int, src as int, n as int),
            mem@.len() == old(mem)@.len(),
            dest + n <= mem@.len() <= usize::MAX,
            base + n + 8 <= mem@.len(),
            same_outside(old(mem)@, mem@, dest as int, dest_usize as int),
            safe ==> copied_range(
                old(mem)@,
                mem@,
                dest as int,
                src as int,
                dest as int,
                dest_usize as int,
            ),
            safe && k < words ==> forall|j: int|
                offset <= j < 8 ==> #[trigger] bytes_of(prev_word)[j] == old(mem)@[src_aligned + j],
        decreases words - k,
    {
        let ghost before = mem@;
        let ghost low = prev_word;
        src_aligned += 8;
        let cur_word = mem.read_word(src_aligned);
        let resembled = prev_word >> shift | cur_word << (WORD_SIZE * 8 - shift);
        prev_word = cur_word;

        mem.write_word(dest_usize, resembled);
        proof {
            lemma_word_untouched(
                old(mem)@,
                before,
                cur_word,
                src_aligned as int,
                dest as int,
                dest_usize as int,
            );
            if safe {
                lemma_reassembled_bytes(
                    old(mem)@,
                    low,
                    cur_word,
                    resembled,
                    src_aligned - 8,
                    offset as int,
                );
            }
            lemma_store_copied_word(
                old(mem)@,
                before,
                resembled,
                dest as int,
                src as int,
                dest as int,
                dest_usize as int,
                dest_usize as int,
                safe,
            );
            k = k + 1;
        }
        dest_usize += 8;
    }
    proof {
        if safe {
            lemma_copied_whole(old(mem)@, mem@, dest as int, src as int, n as int);
        }
    }
}

/// One more part of a forward copy: where the first `done` bytes of a block
/// have been copied and the next `m` are copied from what is then there, the
/// first `done + m` bytes have been copied.
proof fn lemma_copied_further(
    s: Seq<u8>,
    cur: Seq<u8>,
    next: Seq<u8>,
    dest: int,
    src: int,
    n: int,
    done: int,
    m: int,
)
    requires
        0 <= done,
        0 <= m,
        done + m <= n,
        0 <= dest,
        0 <= src,
        dest + n <= s.len(),
        src + n <= s.len(),
        same_outside(s, cur, dest, dest + done),
        forward_safe(dest, src, n) ==> cur == copied(s, dest, src, done),
        same_outside(cur, next, dest + done, dest + done + m),
        forward_safe(dest + done, src + done, m) ==> next == copied(
            cur,
            dest + done,
            src + done,
            m,
        ),
    ensures
        next.len() == s.len(),
        same_outside(s, next, dest, dest + done + m),
        forward_safe(dest, src, n) ==> next == copied(s, dest, src, done + m),
{
    reveal(same_outside);
    if forward_safe(dest, src, n) {
        assert(copied(cur, dest + done, src + done, m) =~= copied(s, dest, src, done + m));
    }
}

/// One more part of a backward copy: where the last `done` bytes of a block
/// have been copied and the `m` before them are copied from what is then
/// there, the last `done + m` bytes have been copied.
proof fn lemma_copied_further_down(
    s: Seq<u8>,
    cur: Seq<u8>,
    next: Seq<u8>,
    dest: int,
    src: int,
    n: int,
    done: int,
    m: int,
)
    requires
        0 <= done,
        0 <= m,
        done + m <= n,
        0 <= dest,
        0 <= src,
        dest + n <= s.len(),
        src + n <= s.len(),
        same_outside(s, cur, dest + n - done, dest + n),
        backward_safe(dest, src, n) ==> cur == copied(s, dest + n - done, src + n - done, done),
        same_outside(cur, next, dest + n - done - m, dest + n - done),
        backward_safe(dest + n - done - m, src + n - done - m, m) ==> next == copied(
            cur,
            dest + n - done - m,
            src + n - done - m,
            m,
        ),
    ensures
        next.len() == s.len(),
        same_outside(s, next, dest + n - done - m, dest + n),
        backward_safe(dest, src, n) ==> next == copied(
            s,
            dest + n - done - m,
            src + n - done - m,
            done + m,
        ),
{
    reveal(same_outside);
    if backward_safe(dest, src, n) {
        assert(copied(cur, dest + n - done - m, src + n - done - m, m) =~= copied(
            s,
            dest + n - done - m,
            src + n - done - m,
            done + m,
        ));
    }
}

/// Copies `n` bytes from `src` to `dest`, lowest address first.
///
/// The result is the plain copy where the two blocks do not overlap or the
/// destination starts at or below the source. On other overlapping blocks
/// source bytes are overwritten before they are read: a block too short for
/// word copying then comes out as the bytewise forward copy leaves it, and of
/// a longer one only the bytes outside the destination are known.
pub fn copy_forward(mem: &mut Memory, dest: usize, src: usize, n: usize)
    requires
        dest + n <= old(mem)@.len(),
        src + n <= old(mem)@.len(),
    ensures
        final(mem)@.len() == old(mem)@.len(),
        forall|i: int|
            0 <= i < old(mem)@.len() && !(dest <= i < dest + n) ==> final(mem)@[i] == old(mem)@[i],
        forward_safe(dest as int, src as int, n as int) ==> final(mem)@ == copied(
            old(mem)@,
            dest as int,
            src as int,
            n as int,
        ),
        n < WORD_COPY_THRESHOLD ==> final(mem)@ == bytewise_forward(
            old(mem)@,
            dest as int,
            src as int,
            n as nat,
        ),
{
    mem.addressable();
    let ghost start = mem@;
    let ghost dest0 = dest as int;
    let ghost src0 = src as int;
    let ghost n0 = n as int;
    let mut dest = dest;
    let mut src = src;
    let mut n = n;
    let ghost mut done: int = 0;
    proof {
        lemma_bytewise_forward(start, dest0, src0, 0);
    }

    if n >= WORD_COPY_THRESHOLD {
        // Align dest
        // Because of n >= 2 * WORD_SIZE, dest_misalignment < n
        proof {
            lemma_alignment(dest);
        }
        let dest_misalignment = (WORD_SIZE - (dest & WORD_MASK)) & WORD_MASK;
        copy_forward_bytes(mem, dest, src, dest_misalignment);
        proof {
            lemma_bytewise_forward(start, dest0, src0, dest_misalignment as nat);
            lemma_copied_further(start, start, mem@, dest0, src0, n0, 0, dest_misalignment as int);
            done = dest_misalignment as int;
        }
        dest += dest_misalignment;
        src += dest_misalignment;
        n -= dest_misalignment;

        proof {
            lemma_alignment(n);
            lemma_alignment(src);
        }
        let n_words = n & !WORD_MASK;
        let src_misalignment = src & WORD_MASK;
        let ghost head = mem@;
        if src_misalignment == 0 {
            copy_forward_aligned_words(mem, dest, src, n_words);
        } else {
            copy_forward_misaligned_words(mem, dest, src, n_words);
        }
        proof {
            lemma_copied_further(start, head, mem@, dest0, src0, n0, done, n_words as int);
            done = done + n_words;
        }
        dest += n_words;
        src += n_words;
        n -= n_words;
    }
    let ghost body = mem@;
    copy_forward_bytes(mem, dest, src, n);
    proof {
        lemma_bytewise_forward(body, dest as int, src as int, n as nat);
        lemma_copied_further(start, body, mem@, dest0, src0, n0, done, n as int);
        reveal(same_outside);
    }
}

// The backward copy helpers take the addresses just past the end of the two
// blocks; only `copy_backward` itself takes their starts.

fn copy_backward_aligned_words(mem: &mut Memory, dest: usize, src: usize, n: usize)
    requires
        dest % 8 == 0,
        src % 8 == 0,
        n % 8 == 0,
        n <= dest <= old(mem)@.len(),
        n <= src <= old(mem)@.len(),
    ensures
        final(mem)@.len() == old(mem)@.len(),
        same_outside(old(mem)@, final(mem)@, dest - n, dest as int),
        backward_safe(dest - n, src - n, n as int) ==> final(mem)@ == copied(
            old(mem)@,
            dest - n,
            src - n,
            n as int,
        ),
{
    mem.addressable();
    let mut dest_usize = dest;
    let mut src_usize = src;
    let dest_start = dest - n;
    let ghost safe = backward_safe(dest - n, src - n, n as int);
    let ghost words = lemma_whole_words(n);
    let ghost mut k: nat = 0;
    proof {
        lemma_nothing_copied(old(mem)@, dest - n, src - n, dest as int);
    }

    while dest_start < dest_usize
        invariant
            k <= words,
            n == 8 * words,
            dest_usize == dest - 8 * k,
            src_usize == src - 8 * k,
            dest_start == dest - n,
            dest % 8 == 0,
            src % 8 == 0,
            safe == backward_safe(dest - n, src - n, n as int),
            n <= dest <= mem@.len() <= usize::MAX,
            n <= src <= mem@.len(),
            mem@.len() == old(mem)@.len(),
            same_outside(old(mem)@, mem@, dest_usize as int, dest as int),
            safe ==> copied_range(
                old(mem)@,
                mem@,
                dest - n,
                src - n,
                dest_usize as int,
                dest as int,
            ),
        decreases words - k,
    {
        let ghost before = mem@;
        let ghost hi = dest_usize as int;
        dest_usize -= 8;
        src_usize -= 8;
        let w = mem.read_word(src_usize);
        mem.write_word(dest_usize, w);
        proof {
            lemma_word_untouched(old(mem)@, before, w, src_usize as int, hi, dest as int);
            lemma_store_copied_word(
                old(mem)@,
                before,
                w,
                dest - n,
                src - n,
                hi,
                dest as int,
                dest_usize as int,
                safe,
            );
            k = k + 1;
        }
    }
    proof {
        if safe {
            lemma_copied_whole(old(mem)@, mem@, dest - n, src - n, n as int);
        }
    }
}

fn copy_backward_misaligned_words(mem: &mut Memory, dest: usize, src: usize, n: usize)
    requires
        dest % 8 == 0,
        src % 8 != 0,
        n % 8 == 0,
        n <= dest <= old(mem)@.len(),
        n <= src <= old(mem)@.len(),
    ensures
        final(mem)@.len() == old(mem)@.len(),
        same_outside(old(mem)@, final(mem)@, dest - n, dest as int),
        backward_safe(dest - n, src - n, n as int) ==> final(mem)@ == copied(
            old(mem)@,
            dest - n,
            src - n,
            n as int,
        ),
{
    mem.addressable();
    let mut dest_usize = dest;
    let dest_start = dest - n;

    // Calculate the misalignment offset and shift needed to reassemble value.
    proof {
        lemma_alignment(src);
    }
    let offset = src & WORD_MASK;
    let shift = offset * 8;

    // Realign src
    let mut src_aligned = src & !WORD_MASK;
    let ghost safe = backward_safe(dest - n, src - n, n as int);
    let ghost base = src_aligned;
    let ghost words = lemma_whole_words(n);
    let ghost mut k: nat = 0;
    proof {
        lemma_words_around(src - n, offset as int, n as int, mem@.len() as int);
        lemma_words_around(src as int, offset as int, 0, mem@.len() as int);
        lemma_nothing_copied(old(mem)@, dest - n, src - n, dest as int);
    }
    let mut prev_word = mem.read_word(src_aligned);
    proof {
        lemma_word_untouched(
            old(mem)@,
            mem@,
            prev_word,
            src_aligned as int,
            dest as int,
            dest as int,
        );
    }

    while dest_start < dest_usize
        invariant
            k <= words,
            n == 8 * words,
            dest_usize == dest - 8 * k,
            src_aligned == base - 8 * k,
            dest_start == dest - n,
            dest % 8 == 0,
            base % 8 == 0,
            1 <= offset < 8,
            shift == 8 * offset,
            base + offset == src,
            n <= base,
            base + 8 <= mem@.len(),
            safe == backward_safe(dest - n, src - n, n as int),
            n <= dest <= mem@.len() <= usize::MAX,
            mem@.len() == old(mem)@.len(),
            same_outside(old(mem)@, mem@, dest_usize as int, dest as int),
            safe ==> copied_range(
                old(mem)@,
                mem@,
                dest - n,
                src - n,
                dest_usize as int,
                dest as int,
            ),
            safe && k < words ==> forall|j: int|
                0 <= j < offset ==> #[trigger] bytes_of(prev_word)[j] == old(mem)@[src_aligned + j],
        decreases words - k,
    {
        let ghost before = mem@;
        let ghost high = prev_word;
        let ghost hi = dest_usize as int;
        src_aligned -= 8;
        let cur_word = mem.read_word(src_aligned);
        let resembled = prev_word << (WORD_SIZE * 8 - shift) | cur_word >> shift;
        prev_word = cur_word;

        dest_usize -= 8;
        mem.write_word(dest_usize, resembled);
        proof {
            lemma_reassemble(cur_word, high, offset as u64, 0);
            lemma_word_untouched(old(mem)@, before, cur_word, src_aligned as int, hi, dest as int);
            if safe {
                lemma_reassembled_bytes(
                    old(mem)@,
                    cur_word,
                    high,
                    resembled,
                    src_aligned as int,
                    offset as int,
                );
            }
            lemma_store_copied_word(
                old(mem)@,
                before,
                resembled,
                dest - n,
                src - n,
                hi,
                dest as int,
                dest_usize as int,
                safe,
            );
            k = k + 1;
        }
    }
    proof {
        if safe {
            lemma_copied_whole(old(mem)@, mem@, dest - n, src - n, n as int);
        }
    }
}

/// Copies `n` bytes from `src` to `dest`, highest address first.
///
/// The result is the plain copy where the two blocks do not overlap or the
/// destination starts at or above the source. On other overlapping blocks
/// source bytes are overwritten before they are read: a block too short for
/// word copying then comes out as the bytewise backward copy leaves it, and
/// of a longer one only the bytes outside the destination are known.
pub fn copy_backward(mem: &mut Memory, dest: usize, src: usize, n: usize)
    requires
        dest + n <= old(mem)@.len(),
        src + n <= old(mem)@.len(),
    ensures
        final(mem)@.len() == old(mem)@.len(),
        forall|i: int|
            0 <= i < old(mem)@.len() && !(dest <= i < dest + n) ==> final(mem)@[i] == old(mem)@[i],
        backward_safe(dest as int, src as int, n as int) ==> final(mem)@ == copied(
            old(mem)@,
            dest as int,
            src as int,
            n as int,
        ),
        n < WORD_COPY_THRESHOLD ==> final(mem)@ == bytewise_backward(
            old(mem)@,
            dest as int,
            src as int,
            n as nat,
        ),
{
    mem.addressable();
    let ghost start = mem@;
    let ghost dest0 = dest as int;
    let ghost src0 = src as int;
    let ghost n0 = n as int;
    let ghost mut done: int = 0;
    let mut n = n;
    let mut dest = dest + n;
    let mut src = src + n;
    proof {
        lemma_bytewise_backward(start, dest0 + n0, src0 + n0, 0);
    }

    if n >= WORD_COPY_THRESHOLD {
        // Align dest
        // Because of n >= 2 * WORD_SIZE, dest_misalignment < n
        proof {
            lemma_alignment(dest);
        }
        let dest_misalignment = dest & WORD_MASK;
        copy_backward_bytes(mem, dest, src, dest_misalignment);
        proof {
            lemma_bytewise_backward(
                start,
                dest - dest_misalignment,
                src - dest_misalignment,
                dest_misalignment as nat,
            );
            lemma_copied_further_down(
                start,
                start,
                mem@,
                dest0,
                src0,
                n0,
                0,
                dest_misalignment as int,
            );
            done = dest_misalignment as int;
        }
        dest -= dest_misalignment;
        src -= dest_misalignment;
        n -= dest_misalignment;

        proof {
            lemma_alignment(n);
            lemma_alignment(src);
        }
        let n_words = n & !WORD_MASK;
        let src_misalignment = src & WORD_MASK;
        let ghost tail = mem@;
        if src_misalignment == 0 {
            copy_backward_aligned_words(mem, dest, src, n_words);
        } else {
            copy_backward_misaligned_words(mem, dest, src, n_words);
        }
        proof {
            lemma_copied_further_down(start, tail, mem@, dest0, src0, n0, done, n_words as int);
            done = done + n_words;
        }
        dest -= n_words;
        src -= n_words;
        n -= n_words;
    }
    let ghost body = mem@;
    copy_backward_bytes(mem, dest, src, n);
    proof {
        lemma_bytewise_backward(body, dest0, src0, n as nat);
        lemma_copied_further_down(start, body, mem@, dest0, src0, n0, done, n as int);
        reveal(same_outside);
    }
}

/// Filling the first `done` bytes of a block and then the next `m` fills the
/// first `done + m`.
proof fn lemma_filled_further(s: Seq<u8>, dest: int, value: u8, done: int, m: int)
    requires
        0 <= done,
        0 <= m,
    ensures
        filled(filled(s, dest, value, done), dest + done, value, m) == filled(
            s,
            dest,
            value,
            done + m,
        ),
        filled(s, dest, value, 0) == s,
{
    assert(filled(filled(s, dest, value, done), dest + done, value, m) =~= filled(
        s,
        dest,
        value,
        done + m,
    ));
    assert(filled(s, dest, value, 0) =~= s);
}

/// Sets the `n` bytes from `s` on to `c`, one byte at a time.
pub fn set_bytes_bytes(mem: &mut Memory, s: usize, c: u8, n: usize)
    requires
        s + n <= old(mem)@.len(),
    ensures
        final(mem)@ == filled(old(mem)@, s as int, c, n as int),
{
    mem.addressable();
    let ghost start = s;
    let mut s = s;
    let end = s + n;
    proof {
        lemma_filled_further(old(mem)@, start as int, c, 0, 0);
    }
    while s < end
        invariant
            start <= s <= end,
            end == start + n,
            end <= mem@.len() <= usize::MAX,
            mem@ == filled(old(mem)@, start as int, c, s - start),
        decreases end - s,
    {
        let ghost before = mem@;
        mem.write_byte(s, c);
        proof {
            assert(before.update(s as int, c) =~= filled(before, s as int, c, 1));
            lemma_filled_further(old(mem)@, start as int, c, s - start, 1);
        }
        s += 1;
    }
}

/// Sets the `n` bytes from `s` on to `c`, one word at a time. The block
/// starts on a word boundary and is a whole number of words long.
pub fn set_bytes_words(mem: &mut Memory, s: usize, c: u8, n: usize)
    requires
        s % 8 == 0,
        n % 8 == 0,
        s + n <= old(mem)@.len(),
    ensures
        final(mem)@ == filled(old(mem)@, s as int, c, n as int),
{
    mem.addressable();
    let mut broadcast = c as u64;
    broadcast |= broadcast << 8;
    broadcast |= broadcast << 16;
    broadcast |= broadcast << 32;
    proof {
        assert forall|j: int| 0 <= j < 8 implies #[trigger] bytes_of(broadcast)[j] == c by {
            lemma_broadcast(c, j as u64);
        }
        lemma_filled_further(old(mem)@, s as int, c, 0, 0);
    }

    let mut s_usize = s;
    let end = s + n;
    let ghost words = lemma_whole_words(n);
    let ghost mut k: nat = 0;

    while s_usize < end
        invariant
            k <= words,
            n == 8 * words,
            s_usize == s + 8 * k,
            end == s + n,
            s % 8 == 0,
            end <= mem@.len() <= usize::MAX,
            forall|j: int| 0 <= j < 8 ==> #[trigger] bytes_of(broadcast)[j] == c,
            mem@ == filled(old(mem)@, s as int, c, (8 * k) as int),
        decreases words - k,
    {
        let ghost before = mem@;
        mem.write_word(s_usize, broadcast);
        proof {
            assert(with_word(before, s_usize as int, broadcast) =~= filled(
                before,
                s_usize as int,
                c,
                8,
            )) by {
                assert forall|i: int| s_usize <= i < s_usize + 8 implies with_word(
                    before,
                    s_usize as int,
                    broadcast,
                )[i] == c by {
                    assert(bytes_of(broadcast)[i - s_usize] == c);
                }
            }
            lemma_filled_further(old(mem)@, s as int, c, (8 * k) as int, 8);
            k = k + 1;
        }
        s_usize += 8;
    }
}

/// Sets the `n` bytes from `s` on to `c`.
pub fn set_bytes(mem: &mut Memory, s: usize, c: u8, n: usize)
    requires
        s + n <= old(mem)@.len(),
    ensures
        final(mem)@ == filled(old(mem)@, s as int, c, n as int),
{
    mem.addressable();
    let ghost start = s as int;
    let ghost mut done: int = 0;
    let mut s = s;
    let mut n = n;
    proof {
        lemma_filled_further(old(mem)@, start, c, 0, 0);
    }
    if n >= WORD_COPY_THRESHOLD {
        // Align s
        // Because of n >= 2 * WORD_SIZE, misalignment < n
        proof {
            lemma_alignment(s);
        }
        let misalignment = (WORD_SIZE - (s & WORD_MASK)) & WORD_MASK;
        set_bytes_bytes(mem, s, c, misalignment);
        s += misalignment;
        n -= misalignment;

        proof {
            lemma_alignment(n);
        }
        let n_words = n & !WORD_MASK;
        set_bytes_words(mem, s, c, n_words);
        proof {
            lemma_filled_further(old(mem)@, start, c, misalignment as int, n_words as int);
            done = misalignment + n_words;
        }
        s += n_words;
        n -= n_words;
    }
    set_bytes_bytes(mem, s, c, n);
    proof {
        lemma_filled_further(old(mem)@, start, c, done, n as int);
    }
}

} // verus!
