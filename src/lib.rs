//! Generates every single-bit mutation of a byte string or a UTF-8 string.
//!
//! Each entry point returns a session whose `next` yields, one call at a time, the input with
//! exactly one bit inverted, ordered by byte position and then by bit index (bit 0 is the least
//! significant). [`ascii_bytes`] and [`ascii_str`] flip the low seven bits of each byte, [`bytes`]
//! and [`utf8`] all eight. The two string entry points keep only the mutations that are still
//! valid UTF-8.
use vstd::prelude::*;

pub mod byte_iter;
pub mod string_iter;

pub use byte_iter::{variants, ByteIterator};
pub use string_iter::{texts, StringIterator};
use vstd::utf8::encode_utf8;

verus! {

/// Empty input gives an empty sequence under every entry point: an empty buffer has no variant
/// under either width, an empty string has no bytes, and so neither has any text.
pub proof fn lemma_empty_input(width: nat)
    ensures
        variants(Seq::empty(), width).len() == 0,
        encode_utf8(Seq::empty()) == Seq::<u8>::empty(),
        texts(variants(encode_utf8(Seq::empty()), width)).len() == 0,
{
    let e = Seq::<u8>::empty();
    assert(encode_utf8(Seq::<char>::empty()) =~= e);
    assert(variants(e, width) =~= Seq::<Seq<u8>>::empty());
    assert(texts(Seq::<Seq<u8>>::empty()) =~= Seq::<Seq<char>>::empty()) by {
        reveal(Seq::filter);
    }
}

/// Flips each of the low seven bits of each byte of `input`, in turn.
///
/// No check is made that the input is ASCII: the high bit of a byte is never flipped.
pub fn ascii_bytes(input: &[u8]) -> (r: ByteIterator)
    ensures
        r.wf(),
        r.input() == input@,
        r.width() == 7,
        r.remaining() == variants(input@, 7),
{
    ByteIterator::new(input, 7)
}

/// Flips each bit of `input`, in turn: the session yields `8 * input.len()` buffers.
pub fn bytes(input: &[u8]) -> (r: ByteIterator)
    ensures
        r.wf(),
        r.input() == input@,
        r.width() == 8,
        r.remaining() == variants(input@, 8),
{
    ByteIterator::new(input, 8)
}

/// Flips each of the low seven bits of each byte of `input`, in turn, and keeps the results that
/// are valid UTF-8.
///
/// No check is made that the input is ASCII: the high bit of a byte is never flipped.
pub fn ascii_str(input: &str) -> (r: StringIterator)
    ensures
        r.wf(),
        r.inner().input() == encode_utf8(input@),
        r.inner().width() == 7,
        r.pending() == texts(variants(encode_utf8(input@), 7)),
{
    StringIterator::new(ascii_bytes(input.as_bytes()))
}

/// Flips each bit of `input`, in turn, and keeps the results that are valid UTF-8 in their own
/// right.
pub fn utf8(input: &str) -> (r: StringIterator)
    ensures
        r.wf(),
        r.inner().input() == encode_utf8(input@),
        r.inner().width() == 8,
        r.pending() == texts(variants(encode_utf8(input@), 8)),
{
    StringIterator::new(bytes(input.as_bytes()))
}

} // verus!
