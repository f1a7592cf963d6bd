//! The calls into the crates that scan and decode UTF-8, each with the
//! contract that the rest of the library relies on.

use bstr::{ByteSlice, ByteVec};
use vstd::prelude::*;
use vstd::utf8::{
    decode_first_scalar, encode_scalar, is_continuation_byte, is_scalar, length_of_first_scalar,
    valid_first_scalar, valid_utf8,
};

verus! {

/// How many bytes `bstr::decode_utf8` consumes at the start of `bytes`
/// when they do not start with a well-formed character: the length of the
/// longest prefix that could still be continued to a well-formed character,
/// and one if there is no such prefix.
pub uninterp spec fn invalid_prefix_len(bytes: Seq<u8>) -> nat;

/// The chunks into which `bstr`'s `utf8_chunks` cuts `bytes`: each a run of
/// well-formed UTF-8 and the invalid bytes that follow it.
pub uninterp spec fn utf8_chunk_parts(bytes: Seq<u8>) -> Seq<(Seq<u8>, Seq<u8>)>;

/// The characters that `char::to_uppercase` yields for `ch`.
pub uninterp spec fn uppercase_of(ch: char) -> Seq<char>;

/// The characters that `char::to_lowercase` yields for `ch`.
pub uninterp spec fn lowercase_of(ch: char) -> Seq<char>;

/// The number of bytes among the first `n` of `bytes` that are not
/// continuation bytes, which is the number of characters where the bytes
/// are well-formed UTF-8.
pub open spec fn leading_bytes_upto(bytes: Seq<u8>, n: nat) -> nat
    decreases n,
{
    if n == 0 {
        0
    } else {
        leading_bytes_upto(bytes, (n - 1) as nat) + if is_continuation_byte(bytes[n - 1]) {
            0nat
        } else {
            1nat
        }
    }
}

/// The number of bytes of `bytes` that are not continuation bytes.
pub open spec fn leading_bytes(bytes: Seq<u8>) -> nat {
    leading_bytes_upto(bytes, bytes.len())
}

/// The number of bytes in the first `n` of `chunks`.
pub open spec fn chunks_len(chunks: Seq<(&[u8], &[u8])>, n: nat) -> nat
    decreases n,
{
    if n == 0 {
        0
    } else {
        chunks_len(chunks, (n - 1) as nat) + chunks[n - 1].0@.len() + chunks[n - 1].1@.len()
    }
}

/// Among the first `n` bytes there are at most `n` that are not
/// continuation bytes.
pub proof fn lemma_leading_bytes_bound(bytes: Seq<u8>, n: nat)
    ensures
        leading_bytes_upto(bytes, n) <= n,
    decreases n,
{
    if n > 0 {
        lemma_leading_bytes_bound(bytes, (n - 1) as nat);
    }
}

/// Calls `bstr`'s `find_non_ascii_byte`, which returns the position of the
/// first byte that is `0x80` or greater, and `None` if there is none.
#[verifier::external_body]
pub(crate) fn first_non_ascii(bytes: &[u8]) -> (found: Option<usize>)
    ensures
        match found {
            Some(at) => at < bytes@.len() && bytes@[at as int] >= 0x80 && forall|i: int|
                0 <= i < at ==> #[trigger] bytes@[i] < 0x80,
            None => forall|i: int| 0 <= i < bytes@.len() ==> #[trigger] bytes@[i] < 0x80,
        },
{
    bytes.find_non_ascii_byte()
}

/// Calls `simdutf8::basic::from_utf8`, which succeeds if and only if the
/// bytes are well-formed UTF-8.
#[verifier::external_body]
pub(crate) fn is_valid_utf8(bytes: &[u8]) -> (valid: bool)
    ensures
        valid == valid_utf8(bytes@),
{
    simdutf8::basic::from_utf8(bytes).is_ok()
}

/// Calls `bytecount::num_chars`, which counts the bytes that are not
/// continuation bytes.
#[verifier::external_body]
pub(crate) fn num_chars(bytes: &[u8]) -> (count: usize)
    ensures
        count == leading_bytes(bytes@),
{
    bytecount::num_chars(bytes)
}

/// Calls `bstr::decode_utf8`. If the bytes start with a well-formed
/// character, it returns the character and the length of its encoding. If
/// they do not, it returns no character and the number of bytes to skip,
/// which is zero for no bytes and from one to three otherwise, and never
/// more than there are bytes.
#[verifier::external_body]
pub(crate) fn decode_first(bytes: &[u8]) -> (decoded: (Option<char>, usize))
    ensures
        decoded.0 is Some <==> valid_first_scalar(bytes@),
        decoded.0 is Some ==> decoded.0->0 as u32 == decode_first_scalar(bytes@) && decoded.1
            == length_of_first_scalar(bytes@),
        decoded.0 is None && bytes@.len() > 0 ==> decoded.1 == invalid_prefix_len(bytes@) && 1
            <= decoded.1 <= 3,
        bytes@.len() == 0 ==> decoded.1 == 0,
        decoded.1 <= bytes@.len(),
{
    bstr::decode_utf8(bytes)
}

/// Calls `bstr`'s `utf8_chunks` and collects what it yields: for each
/// chunk the bytes of its well-formed part and its invalid bytes. The
/// chunks follow one another in the input and make up the whole of it.
#[verifier::external_body]
pub(crate) fn utf8_chunks(bytes: &[u8]) -> (chunks: Vec<(&[u8], &[u8])>)
    ensures
        chunks@.len() == utf8_chunk_parts(bytes@).len(),
        forall|i: int|
            0 <= i < chunks@.len() ==> (#[trigger] chunks@[i]).0@ == utf8_chunk_parts(bytes@)[i].0
                && chunks@[i].1@ == utf8_chunk_parts(bytes@)[i].1,
        chunks_len(chunks@, chunks@.len()) == bytes@.len(),
{
    bytes.utf8_chunks().map(|chunk| (chunk.valid().as_bytes(), chunk.invalid())).collect()
}

/// Calls `char::from_u32`, which returns the character with the given
/// number, and `None` if the number is a surrogate or greater than
/// `0x10FFFF`.
#[verifier::external_body]
pub(crate) fn char_from_u32(number: u32) -> (ch: Option<char>)
    ensures
        ch is Some <==> is_scalar(number),
        ch is Some ==> ch->0 as u32 == number,
{
    char::from_u32(number)
}

/// Calls `bstr`'s `push_char`, which appends the UTF-8 encoding of `ch`.
#[verifier::external_body]
pub(crate) fn push_char(bytes: &mut Vec<u8>, ch: char)
    ensures
        final(bytes)@ == old(bytes)@ + encode_scalar(ch as u32),
{
    bytes.push_char(ch);
}

/// Calls `char::to_uppercase` and collects the characters that it yields.
#[verifier::external_body]
pub(crate) fn char_to_uppercase(ch: char) -> (mapped: Vec<char>)
    ensures
        mapped@ == uppercase_of(ch),
{
    ch.to_uppercase().collect()
}

/// Calls `char::to_lowercase` and collects the characters that it yields.
#[verifier::external_body]
pub(crate) fn char_to_lowercase(ch: char) -> (mapped: Vec<char>)
    ensures
        mapped@ == lowercase_of(ch),
{
    ch.to_lowercase().collect()
}

} // verus!
