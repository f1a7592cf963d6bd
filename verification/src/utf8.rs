//! A byte string that is conventionally UTF-8: it may hold any bytes, and
//! it speaks of characters where the bytes are well-formed UTF-8 and of
//! single bytes where they are not.

pub mod casing;
pub mod chars;
pub mod decode;
pub mod reverse;

use crate::utf8::decode::char_from_u32;
use vstd::prelude::*;
use vstd::utf8::{encode_scalar, encode_utf8, is_scalar};

verus! {

/// A growable byte string that is conventionally UTF-8.
#[derive(Default, Clone, Hash, PartialEq, Eq, PartialOrd, Ord, Debug)]
pub struct Utf8String {
    inner: Vec<u8>,
}

/// Why a number could not be appended as a character.
#[derive(Debug, Clone, Copy, PartialEq, Eq)]
pub enum InvalidCodepointError {
    /// The number is negative or greater than `u32::MAX`.
    OutOfRange(i64),
    /// The number is a surrogate or greater than `0x10FFFF`.
    InvalidUtf8Codepoint(u32),
}

impl View for Utf8String {
    type V = Seq<u8>;

    closed spec fn view(&self) -> Seq<u8> {
        self.inner@
    }
}

/// Whether every byte is ASCII.
pub open spec fn all_ascii(bytes: Seq<u8>) -> bool {
    forall|i: int| 0 <= i < bytes.len() ==> #[trigger] bytes[i] < 0x80
}

/// Whether `bytes` ends with `suffix`.
pub open spec fn has_suffix(bytes: Seq<u8>, suffix: Seq<u8>) -> bool {
    suffix.len() <= bytes.len() && bytes.subrange(bytes.len() - suffix.len(), bytes.len() as int)
        == suffix
}

impl Utf8String {
    /// The string that holds the bytes of `buf`.
    pub fn new(buf: Vec<u8>) -> (s: Self)
        ensures
            s@ == buf@,
    {
        Utf8String { inner: buf }
    }

    /// The bytes as a vector.
    pub fn into_vec(self) -> (bytes: Vec<u8>)
        ensures
            bytes@ == self@,
    {
        self.inner
    }

    /// The bytes as a slice.
    pub fn as_slice(&self) -> (bytes: &[u8])
        ensures
            bytes@ == self@,
    {
        self.inner.as_slice()
    }

    /// The bytes as a slice through which they can be changed.
    pub fn as_mut_slice(&mut self) -> (bytes: &mut [u8])
        ensures
            bytes@ == old(self)@,
            final(bytes)@ == final(self)@,
    {
        self.inner.as_mut_slice()
    }

    /// An iterator over the bytes, from the first to the last.
    pub fn iter(&self) -> (iter: core::slice::Iter<'_, u8>)
        ensures
            vstd::std_specs::iter::IteratorSpec::remaining(&iter) == self@.as_ref(),
    {
        self.inner.as_slice().iter()
    }

    /// An iterator that takes the bytes out of the string, from the first
    /// to the last.
    pub fn into_iter(self) -> (iter: std::vec::IntoIter<u8>)
        ensures
            vstd::std_specs::iter::IteratorSpec::remaining(&iter) == self@,
    {
        self.inner.into_iter()
    }

    /// The number of bytes.
    pub fn len(&self) -> (len: usize)
        ensures
            len == self@.len(),
    {
        self.inner.len()
    }

    /// The number of bytes that the string can hold without allocating
    /// again; never less than its length.
    pub fn capacity(&self) -> (capacity: usize)
        ensures
            capacity >= self@.len(),
    {
        crate::vecs::capacity(&self.inner)
    }

    /// Removes all bytes.
    pub fn clear(&mut self)
        ensures
            final(self)@ == Seq::<u8>::empty(),
    {
        self.inner.clear();
    }

    /// Whether the string has no bytes.
    pub fn is_empty(&self) -> (empty: bool)
        ensures
            empty <==> self@.len() == 0,
    {
        self.inner.len() == 0
    }

    /// Keeps the first `len` bytes and drops the rest; no change if the
    /// string has no more than `len` bytes.
    pub fn truncate(&mut self, len: usize)
        ensures
            len <= old(self)@.len() ==> final(self)@ == old(self)@.subrange(0, len as int),
            len > old(self)@.len() ==> final(self)@ == old(self)@,
    {
        self.inner.truncate(len);
    }

    /// Makes room for `additional` more bytes. The bytes stay as they are.
    pub fn reserve(&mut self, additional: usize)
        requires
            old(self)@.len() + additional <= isize::MAX,
        ensures
            final(self)@ == old(self)@,
    {
        self.inner.reserve(additional);
    }

    /// Tries to make room for `additional` more bytes. The bytes stay as
    /// they are, whether there is room or not.
    pub fn try_reserve(&mut self, additional: usize) -> (outcome: Result<
        (),
        std::collections::TryReserveError,
    >)
        ensures
            final(self)@ == old(self)@,
    {
        self.inner.try_reserve(additional)
    }

    /// Makes room for exactly `additional` more bytes, as far as the
    /// allocator allows. The bytes stay as they are.
    pub fn reserve_exact(&mut self, additional: usize)
        requires
            old(self)@.len() + additional <= isize::MAX,
        ensures
            final(self)@ == old(self)@,
    {
        crate::vecs::reserve_exact(&mut self.inner, additional);
    }

    /// Tries to make room for exactly `additional` more bytes. The bytes
    /// stay as they are, whether there is room or not. Asking for no more
    /// bytes succeeds; asking for more than a `usize` can count together
    /// with the bytes that are there fails; in between, the allocator
    /// decides.
    pub fn try_reserve_exact(&mut self, additional: usize) -> (outcome: Result<
        (),
        std::collections::TryReserveError,
    >)
        ensures
            final(self)@ == old(self)@,
            additional == 0 ==> outcome is Ok,
            old(self)@.len() + additional > usize::MAX ==> outcome is Err,
    {
        crate::vecs::try_reserve_exact(&mut self.inner, additional)
    }

    /// Gives up spare capacity. The bytes stay as they are.
    pub fn shrink_to_fit(&mut self)
        ensures
            final(self)@ == old(self)@,
    {
        crate::vecs::shrink_to_fit(&mut self.inner);
    }

    /// Gives up spare capacity beyond `min_capacity`. The bytes stay as
    /// they are.
    pub fn shrink_to(&mut self, min_capacity: usize)
        ensures
            final(self)@ == old(self)@,
    {
        crate::vecs::shrink_to(&mut self.inner, min_capacity);
    }

    /// The byte or the bytes at `index`, as the slice of the bytes gives
    /// them: for a number the byte at that position, for a range the bytes
    /// in it, and `None` where the slice has none.
    pub fn get<I>(&self, index: I) -> (found: Option<&I::Output>) where
        I: core::slice::SliceIndex<[u8]>,

        ensures
            exists|bytes: &[u8]|
                bytes@ == self@ && found == #[trigger] vstd::slice::spec_slice_get(bytes, index),
    {
        self.inner.as_slice().get(index)
    }

    /// Appends `byte`.
    pub fn push_byte(&mut self, byte: u8)
        ensures
            final(self)@ == old(self)@.push(byte),
    {
        self.inner.push(byte);
    }

    /// Appends the UTF-8 encoding of the character with the given number.
    /// Fails, and changes nothing, if there is no such character.
    pub fn try_push_codepoint(&mut self, codepoint: i64) -> (outcome: Result<
        (),
        InvalidCodepointError,
    >)
        ensures
            0 <= codepoint <= u32::MAX && is_scalar(codepoint as u32) ==> outcome is Ok
                && final(self)@ == old(self)@ + encode_scalar(codepoint as u32),
            !(0 <= codepoint <= u32::MAX) ==> outcome == Err::<(), InvalidCodepointError>(
                InvalidCodepointError::OutOfRange(codepoint),
            ) && final(self)@ == old(self)@,
            0 <= codepoint <= u32::MAX && !is_scalar(codepoint as u32) ==> outcome == Err::<
                (),
                InvalidCodepointError,
            >(InvalidCodepointError::InvalidUtf8Codepoint(codepoint as u32)) && final(self)@
                == old(self)@,
    {
        if codepoint < 0 || codepoint > 0xFFFF_FFFF {
            return Err(InvalidCodepointError::OutOfRange(codepoint));
        }
        let number = codepoint as u32;
        match char_from_u32(number) {
            Some(ch) => {
                self.push_char(ch);
                Ok(())
            },
            None => Err(InvalidCodepointError::InvalidUtf8Codepoint(number)),
        }
    }

    /// Appends the UTF-8 encoding of `ch`.
    pub fn push_char(&mut self, ch: char)
        ensures
            final(self)@ == old(self)@ + encode_scalar(ch as u32),
    {
        crate::utf8::decode::push_char(&mut self.inner, ch);
    }

    /// Appends the bytes of `s`, which are the UTF-8 encoding of its
    /// characters.
    pub fn push_str(&mut self, s: &str)
        ensures
            final(self)@ == old(self)@ + encode_utf8(s@),
    {
        let bytes = s.as_bytes();
        self.extend_from_slice(bytes);
    }

    /// Appends the bytes of `other`.
    pub fn extend_from_slice(&mut self, other: &[u8])
        ensures
            final(self)@ == old(self)@ + other@,
    {
        self.inner.extend_from_slice(other);
        proof {
            assert(self.inner@ =~= old(self).inner@ + other@);
        }
    }

    /// Whether every byte is ASCII.
    pub fn is_ascii_only(&self) -> (ascii: bool)
        ensures
            ascii == all_ascii(self@),
    {
        crate::utf8::decode::first_non_ascii(self.inner.as_slice()).is_none()
    }

    /// Whether the string ends with the bytes of `slice`.
    pub fn ends_with(&self, slice: &[u8]) -> (ends: bool)
        ensures
            ends == has_suffix(self@, slice@),
    {
        let len = self.inner.len();
        let n = slice.len();
        if n > len {
            return false;
        }
        let start = len - n;
        let mut i: usize = 0;
        while i < n
            invariant
                n == slice@.len(),
                len == self.inner@.len(),
                start == len - n,
                n <= len,
                i <= n,
                forall|j: int| 0 <= j < i ==> self.inner@[start + j] == slice@[j],
            decreases n - i,
        {
            if self.inner[start + i] != slice[i] {
                proof {
                    let tail = self.inner@.subrange(len - n, len as int);
                    assert(tail[i as int] == self.inner@[start + i]);
                }
                return false;
            }
            i = i + 1;
        }
        proof {
            assert(self.inner@.subrange(len - n, len as int) =~= slice@);
        }
        true
    }
}

} // verus!
