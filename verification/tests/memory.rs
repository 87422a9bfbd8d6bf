use rt_builtins::mem::impls::{
    copy_backward, copy_forward, set_bytes, set_bytes_bytes, set_bytes_words,
    WORD_COPY_THRESHOLD,
};
use rt_builtins::mem::{Memory, WORD_MASK, WORD_SIZE};

const WORD: usize = 8;

fn pattern(len: usize) -> Vec<u8> {
    (0..len).map(|i| (i * 37 + 11) as u8).collect()
}

/// The block lengths to try: 0, 1, word - 1, word, and 2 * word + k.
fn lengths() -> Vec<usize> {
    let mut v = vec![0, 1, WORD - 1, WORD];
    for k in 0..WORD {
        v.push(2 * WORD + k);
    }
    v.push(5 * WORD + 3);
    v
}

fn naive_copy(bytes: &[u8], dest: usize, src: usize, n: usize) -> Vec<u8> {
    let source: Vec<u8> = bytes[src..src + n].to_vec();
    let mut out = bytes.to_vec();
    out[dest..dest + n].copy_from_slice(&source);
    out
}

fn naive_forward(bytes: &[u8], dest: usize, src: usize, n: usize) -> Vec<u8> {
    let mut out = bytes.to_vec();
    for i in 0..n {
        out[dest + i] = out[src + i];
    }
    out
}

fn naive_backward(bytes: &[u8], dest: usize, src: usize, n: usize) -> Vec<u8> {
    let mut out = bytes.to_vec();
    for i in (0..n).rev() {
        out[dest + i] = out[src + i];
    }
    out
}

#[test]
fn constants() {
    assert_eq!(WORD_SIZE, 8);
    assert_eq!(WORD_MASK, 7);
    assert_eq!(WORD_COPY_THRESHOLD, 16);
}

#[test]
fn new_memory_is_zero() {
    let m = Memory::new(3);
    assert_eq!(m.len(), 24);
    assert_eq!(m.to_bytes(), vec![0u8; 24]);
    assert_eq!(Memory::new(0).len(), 0);
    assert_eq!(Memory::new(0).to_bytes(), Vec::<u8>::new());
}

#[test]
fn from_bytes_pads_to_a_whole_word() {
    let bytes = pattern(13);
    let m = Memory::from_bytes(&bytes);
    assert_eq!(m.len(), 16);
    let out = m.to_bytes();
    assert_eq!(&out[..13], &bytes[..]);
    assert_eq!(&out[13..], &[0, 0, 0]);
    assert_eq!(Memory::from_bytes(&pattern(16)).len(), 16);
    assert_eq!(Memory::from_bytes(&pattern(16)).to_bytes(), pattern(16));
    assert_eq!(Memory::from_bytes(&[]).len(), 0);
    assert_eq!(Memory::from_bytes(&[9]).to_bytes(), vec![9, 0, 0, 0, 0, 0, 0, 0]);
}

#[test]
fn bytes_and_words_are_little_endian() {
    let mut m = Memory::from_bytes(&[0x11, 0x22, 0x33, 0x44, 0x55, 0x66, 0x77, 0x88, 1, 2, 3]);
    assert_eq!(m.read_word(0), 0x8877_6655_4433_2211);
    assert_eq!(m.read_word(8), 0x0000_0000_0003_0201);
    assert_eq!(m.read_byte(0), 0x11);
    assert_eq!(m.read_byte(7), 0x88);
    assert_eq!(m.read_byte(10), 3);
    m.write_byte(3, 0xab);
    assert_eq!(m.read_word(0), 0x8877_6655_ab33_2211);
    assert_eq!(m.read_byte(2), 0x33);
    assert_eq!(m.read_byte(3), 0xab);
    assert_eq!(m.read_byte(4), 0x55);
    m.write_word(8, 0x0102_0304_0506_0708);
    assert_eq!(
        m.to_bytes(),
        vec![0x11, 0x22, 0x33, 0xab, 0x55, 0x66, 0x77, 0x88, 8, 7, 6, 5, 4, 3, 2, 1]
    );
    m.addressable();
    assert_eq!(m.len(), 16);
}

#[test]
fn write_byte_changes_one_byte_only() {
    let bytes = pattern(24);
    for addr in 0..24 {
        let mut m = Memory::from_bytes(&bytes);
        m.write_byte(addr, 0xee);
        let mut want = bytes.clone();
        want[addr] = 0xee;
        assert_eq!(m.to_bytes(), want);
    }
}

#[test]
fn copies_over_disjoint_blocks_match_a_naive_copy() {
    let size = 160;
    let bytes = pattern(size);
    for n in lengths() {
        for dest_align in 0..WORD {
            for src_align in 0..WORD {
                // source below the destination
                let src = 8 + src_align;
                let dest = 88 + dest_align;
                let want = naive_copy(&bytes, dest, src, n);
                let mut m = Memory::from_bytes(&bytes);
                copy_forward(&mut m, dest, src, n);
                assert_eq!(m.to_bytes(), want, "forward n={} d={} s={}", n, dest, src);
                let mut m = Memory::from_bytes(&bytes);
                copy_backward(&mut m, dest, src, n);
                assert_eq!(m.to_bytes(), want, "backward n={} d={} s={}", n, dest, src);
                // source above the destination
                let src = 88 + src_align;
                let dest = 8 + dest_align;
                let want = naive_copy(&bytes, dest, src, n);
                let mut m = Memory::from_bytes(&bytes);
                copy_forward(&mut m, dest, src, n);
                assert_eq!(m.to_bytes(), want, "forward n={} d={} s={}", n, dest, src);
                let mut m = Memory::from_bytes(&bytes);
                copy_backward(&mut m, dest, src, n);
                assert_eq!(m.to_bytes(), want, "backward n={} d={} s={}", n, dest, src);
            }
        }
    }
}

#[test]
fn copies_reach_the_ends_of_the_memory() {
    for n in lengths() {
        for align in 0..WORD {
            let size = 2 * (n + align) + 8;
            let size = size + (8 - size % 8) % 8;
            let bytes = pattern(size);
            // from the very start to the very end, and back
            let want = naive_copy(&bytes, size - n, 0, n);
            let mut m = Memory::from_bytes(&bytes);
            copy_forward(&mut m, size - n, 0, n);
            assert_eq!(m.to_bytes(), want);
            let mut m = Memory::from_bytes(&bytes);
            copy_backward(&mut m, size - n, 0, n);
            assert_eq!(m.to_bytes(), want);
            let want = naive_copy(&bytes, 0, size - n, n);
            let mut m = Memory::from_bytes(&bytes);
            copy_forward(&mut m, 0, size - n, n);
            assert_eq!(m.to_bytes(), want);
            let mut m = Memory::from_bytes(&bytes);
            copy_backward(&mut m, 0, size - n, n);
            assert_eq!(m.to_bytes(), want);
            // a misaligned source that ends at the end of the memory
            let want = naive_copy(&bytes, align, size - n, n);
            let mut m = Memory::from_bytes(&bytes);
            copy_forward(&mut m, align, size - n, n);
            assert_eq!(m.to_bytes(), want);
        }
    }
}

#[test]
fn backward_copy_shifts_an_overlapping_block_right() {
    let size = 160;
    let bytes = pattern(size);
    for n in lengths() {
        for src_align in 0..WORD {
            for shift in 1..=2 * WORD + 1 {
                let src = 8 + src_align;
                let dest = src + shift;
                let want = naive_copy(&bytes, dest, src, n);
                let mut m = Memory::from_bytes(&bytes);
                copy_backward(&mut m, dest, src, n);
                assert_eq!(m.to_bytes(), want, "n={} src={} shift={}", n, src, shift);
            }
        }
    }
}

#[test]
fn forward_copy_shifts_an_overlapping_block_left() {
    let size = 160;
    let bytes = pattern(size);
    for n in lengths() {
        for dest_align in 0..WORD {
            for shift in 0..=2 * WORD + 1 {
                let dest = 8 + dest_align;
                let src = dest + shift;
                let want = naive_copy(&bytes, dest, src, n);
                let mut m = Memory::from_bytes(&bytes);
                copy_forward(&mut m, dest, src, n);
                assert_eq!(m.to_bytes(), want, "n={} dest={} shift={}", n, dest, shift);
            }
        }
    }
}

#[test]
fn forward_copy_corrupts_a_block_shifted_right() {
    // dest > src and overlapping: the wrong direction for a forward copy
    let bytes = pattern(64);
    let (src, dest, n) = (8, 9, 8);
    let right = naive_copy(&bytes, dest, src, n);
    let mut m = Memory::from_bytes(&bytes);
    copy_forward(&mut m, dest, src, n);
    let got = m.to_bytes();
    assert_ne!(got, right);
    // a short block is copied byte by byte, so the first byte is repeated
    assert_eq!(got, naive_forward(&bytes, dest, src, n));
    assert_eq!(&got[9..17], &[bytes[8]; 8]);
    // the backward copy gets the same layout right
    let mut m = Memory::from_bytes(&bytes);
    copy_backward(&mut m, dest, src, n);
    assert_eq!(m.to_bytes(), right);
    // a long block is corrupted as well, and nothing outside it is touched
    let (src, dest, n) = (8, 11, 40);
    let right = naive_copy(&bytes, dest, src, n);
    let mut m = Memory::from_bytes(&bytes);
    copy_forward(&mut m, dest, src, n);
    let got = m.to_bytes();
    assert_ne!(got, right);
    assert_eq!(&got[..dest], &bytes[..dest]);
    assert_eq!(&got[dest + n..], &bytes[dest + n..]);
}

#[test]
fn backward_copy_corrupts_a_block_shifted_left() {
    let bytes = pattern(64);
    let (src, dest, n) = (9, 8, 8);
    let right = naive_copy(&bytes, dest, src, n);
    let mut m = Memory::from_bytes(&bytes);
    copy_backward(&mut m, dest, src, n);
    let got = m.to_bytes();
    assert_ne!(got, right);
    assert_eq!(got, naive_backward(&bytes, dest, src, n));
    let mut m = Memory::from_bytes(&bytes);
    copy_forward(&mut m, dest, src, n);
    assert_eq!(m.to_bytes(), right);
}

#[test]
fn short_overlapping_copies_are_bytewise() {
    let bytes = pattern(48);
    for n in 0..WORD_COPY_THRESHOLD {
        for shift in 0..6 {
            let mut m = Memory::from_bytes(&bytes);
            copy_forward(&mut m, 8 + shift, 8, n);
            assert_eq!(m.to_bytes(), naive_forward(&bytes, 8 + shift, 8, n));
            let mut m = Memory::from_bytes(&bytes);
            copy_backward(&mut m, 8, 8 + shift, n);
            assert_eq!(m.to_bytes(), naive_backward(&bytes, 8, 8 + shift, n));
        }
    }
}

#[test]
fn copy_onto_itself_changes_nothing() {
    let bytes = pattern(64);
    for n in lengths() {
        if n > 40 {
            continue;
        }
        for at in 0..WORD {
            let mut m = Memory::from_bytes(&bytes);
            copy_forward(&mut m, at, at, n);
            assert_eq!(m.to_bytes(), bytes);
            copy_backward(&mut m, at, at, n);
            assert_eq!(m.to_bytes(), bytes);
        }
    }
}

#[test]
fn set_bytes_fills_exactly_the_block() {
    let size = 64;
    let bytes = pattern(size);
    for n in lengths() {
        if n > 40 {
            continue;
        }
        for align in 0..WORD {
            let at = 8 + align;
            let mut want = bytes.clone();
            for b in &mut want[at..at + n] {
                *b = 0xab;
            }
            let mut m = Memory::from_bytes(&bytes);
            set_bytes(&mut m, at, 0xab, n);
            assert_eq!(m.to_bytes(), want, "n={} at={}", n, at);
            let mut m = Memory::from_bytes(&bytes);
            set_bytes_bytes(&mut m, at, 0xab, n);
            assert_eq!(m.to_bytes(), want, "n={} at={}", n, at);
        }
    }
}

#[test]
fn set_bytes_reaches_the_ends_of_the_memory() {
    let bytes = pattern(40);
    let mut m = Memory::from_bytes(&bytes);
    set_bytes(&mut m, 0, 0x5a, 40);
    assert_eq!(m.to_bytes(), vec![0x5a; 40]);
    let mut m = Memory::from_bytes(&bytes);
    set_bytes(&mut m, 3, 0, 37);
    let mut want = bytes.clone();
    for b in &mut want[3..] {
        *b = 0;
    }
    assert_eq!(m.to_bytes(), want);
    let mut m = Memory::from_bytes(&bytes);
    set_bytes(&mut m, 40, 1, 0);
    assert_eq!(m.to_bytes(), bytes);
}

#[test]
fn set_bytes_words_fills_whole_words() {
    let bytes = pattern(48);
    for words in 0..4 {
        for at_word in 0..2 {
            let at = 8 * at_word;
            let n = 8 * words;
            for c in [0u8, 1, 0x7f, 0x80, 0xab, 0xff] {
                let mut want = bytes.clone();
                for b in &mut want[at..at + n] {
                    *b = c;
                }
                let mut m = Memory::from_bytes(&bytes);
                set_bytes_words(&mut m, at, c, n);
                assert_eq!(m.to_bytes(), want);
            }
        }
    }
}

#[test]
fn block_lengths_split_into_quadwords_and_bytes() {
    for count in [0usize, 1, 7, 8, 9, 15, 16, 17, 63, 64, 65, 1000, usize::MAX] {
        let (qwords, bytes) = rt_builtins::mem::x86_64::qword_and_byte_counts(count);
        assert_eq!(qwords, count / 8);
        assert_eq!(bytes, count % 8);
    }
}

#[test]
fn fill_quadword_repeats_the_byte() {
    assert_eq!(rt_builtins::mem::x86_64::fill_qword(0), 0);
    assert_eq!(rt_builtins::mem::x86_64::fill_qword(0xab), 0xabab_abab_abab_abab);
    assert_eq!(rt_builtins::mem::x86_64::fill_qword(1), 0x0101_0101_0101_0101);
    assert_eq!(rt_builtins::mem::x86_64::fill_qword(0xff), u64::MAX);
}
