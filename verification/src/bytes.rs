//! Big-endian byte encoding of machine words, as used on the wire.
use vstd::prelude::*;

verus! {

/// The four bytes of `w`, most significant first.
pub open spec fn be32(w: u32) -> Seq<u8> {
    seq![(w >> 24u32) as u8, (w >> 16u32) as u8, (w >> 8u32) as u8, w as u8]
}

/// The eight bytes of `w`, most significant first.
pub open spec fn be64(w: u64) -> Seq<u8> {
    be32((w >> 32u64) as u32) + be32(w as u32)
}

/// The word whose big-endian bytes are `b0 b1 b2 b3`.
pub open spec fn word32(b0: u8, b1: u8, b2: u8, b3: u8) -> u32 {
    ((b0 as u32) << 24u32) | ((b1 as u32) << 16u32) | ((b2 as u32) << 8u32) | (b3 as u32)
}

/// The word held big-endian in the four bytes of `s` that start at `at`.
pub open spec fn word_at(s: Seq<u8>, at: int) -> u32 {
    word32(s[at], s[at + 1], s[at + 2], s[at + 3])
}

/// Reading back the bytes of a word gives the word.
pub proof fn lemma_word_of_be32(w: u32)
    ensures
        be32(w).len() == 4,
        word_at(be32(w), 0) == w,
{
    let s = be32(w);
    assert(s[0] == (w >> 24u32) as u8 && s[1] == (w >> 16u32) as u8);
    assert(s[2] == (w >> 8u32) as u8 && s[3] == w as u8);
    assert(word32((w >> 24u32) as u8, (w >> 16u32) as u8, (w >> 8u32) as u8, w as u8) == w)
        by (bit_vector);
}

/// The word of four big-endian bytes is their value in base 256, the first
/// byte the most significant.
pub proof fn lemma_word32_value(b0: u8, b1: u8, b2: u8, b3: u8)
    ensures
        word32(b0, b1, b2, b3) as int == b0 as int * 16777216 + b1 as int * 65536 + b2 as int * 256
            + b3 as int,
{
    assert(word32(b0, b1, b2, b3) == b0 as u32 * 16777216 + b1 as u32 * 65536 + b2 as u32 * 256
        + b3 as u32) by (bit_vector);
}

/// Writing out a word read from four bytes gives those bytes.
pub proof fn lemma_be32_of_word(b0: u8, b1: u8, b2: u8, b3: u8)
    ensures
        be32(word32(b0, b1, b2, b3)) == seq![b0, b1, b2, b3],
{
    let w = word32(b0, b1, b2, b3);
    assert((w >> 24u32) as u8 == b0 && (w >> 16u32) as u8 == b1 && (w >> 8u32) as u8 == b2
        && w as u8 == b3) by (bit_vector)
        requires
            w == ((b0 as u32) << 24u32) | ((b1 as u32) << 16u32) | ((b2 as u32) << 8u32) | (
            b3 as u32),
    ;
    assert(be32(w) =~= seq![b0, b1, b2, b3]);
}

/// Appends the four big-endian bytes of `w`.
pub fn push_be32(out: &mut Vec<u8>, w: u32)
    ensures
        final(out)@ == old(out)@ + be32(w),
{
    out.push((w >> 24u32) as u8);
    out.push((w >> 16u32) as u8);
    out.push((w >> 8u32) as u8);
    out.push(w as u8);
    assert(final(out)@ =~= old(out)@ + be32(w));
}

/// Appends the eight big-endian bytes of `w`.
pub fn push_be64(out: &mut Vec<u8>, w: u64)
    ensures
        final(out)@ == old(out)@ + be64(w),
{
    push_be32(out, (w >> 32u64) as u32);
    push_be32(out, w as u32);
    assert(final(out)@ =~= old(out)@ + be64(w));
}

/// The word stored big-endian at `at` in `data`.
pub fn read_be32(data: &Vec<u8>, at: usize) -> (w: u32)
    requires
        at + 4 <= data.len(),
    ensures
        w == word_at(data@, at as int),
{
    ((data[at] as u32) << 24u32) | ((data[at + 1] as u32) << 16u32) | ((data[at + 2] as u32)
        << 8u32) | (data[at + 3] as u32)
}

} // verus!
