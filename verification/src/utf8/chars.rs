//! The operations that go by characters.
//!
//! A character of a conventionally UTF-8 string is either a well-formed
//! UTF-8 encoding of one scalar value or a single byte that belongs to no
//! such encoding. The string is cut into characters from the front: where
//! the rest starts with a well-formed encoding, that encoding is the next
//! character; where it does not, the decoder says how many bytes to set
//! aside, and each of them is a character of its own.

use crate::utf8::decode::{
    chunks_len, decode_first, first_non_ascii, invalid_prefix_len, is_valid_utf8, leading_bytes,
    lemma_leading_bytes_bound, num_chars, utf8_chunk_parts, utf8_chunks,
};
use crate::utf8::{all_ascii, Utf8String};
use vstd::prelude::*;
use vstd::slice::slice_subrange;
use vstd::utf8::{
    decode_first_scalar, length_of_first_scalar, pop_first_scalar, valid_first_scalar, valid_utf8,
};

verus! {

/// How many bytes one decoding step takes from the front of `bytes`:
/// the length of the character where they start with one, and the number
/// of invalid bytes that the decoder sets aside where they do not.
pub open spec fn step_len(bytes: Seq<u8>) -> int {
    if valid_first_scalar(bytes) {
        if 1 <= length_of_first_scalar(bytes) <= bytes.len() {
            length_of_first_scalar(bytes)
        } else {
            1
        }
    } else if 1 <= invalid_prefix_len(bytes) <= 3 && invalid_prefix_len(bytes) <= bytes.len() {
        invalid_prefix_len(bytes) as int
    } else {
        1
    }
}

/// A pair of positions moved up by `by`.
pub open spec fn shifted(span: Option<(int, int)>, by: int) -> Option<(int, int)> {
    match span {
        Some((from, to)) => Some((from + by, to + by)),
        None => None,
    }
}

/// Where character number `n` of `bytes` starts and ends, or `None` if
/// `bytes` has no more than `n` characters.
pub open spec fn char_at(bytes: Seq<u8>, n: nat) -> Option<(int, int)>
    decreases bytes.len(),
{
    if bytes.len() == 0 {
        None
    } else {
        let w = step_len(bytes);
        if valid_first_scalar(bytes) {
            if n == 0 {
                Some((0, w))
            } else {
                shifted(char_at(bytes.skip(w), (n - 1) as nat), w)
            }
        } else if n < w {
            Some((n as int, n as int + 1))
        } else {
            shifted(char_at(bytes.skip(w), (n - w) as nat), w)
        }
    }
}

/// An ASCII byte is a well-formed character of one byte.
pub proof fn lemma_ascii_is_char(bytes: Seq<u8>)
    requires
        bytes.len() > 0,
        bytes[0] < 0x80,
    ensures
        valid_first_scalar(bytes),
        length_of_first_scalar(bytes) == 1,
        step_len(bytes) == 1,
{
    let b = bytes[0];
    assert((b & 0x7F) as u32 <= 0x7F) by (bit_vector);
}

/// Where the first `prefix` bytes are ASCII, the characters among them are
/// the bytes, and the characters behind them are the characters of the
/// rest.
pub proof fn lemma_char_at_after_ascii(bytes: Seq<u8>, prefix: nat, n: nat)
    requires
        prefix <= bytes.len(),
        forall|i: int| 0 <= i < prefix ==> #[trigger] bytes[i] < 0x80,
    ensures
        n < prefix ==> char_at(bytes, n) == Some((n as int, n as int + 1)),
        n >= prefix ==> char_at(bytes, n) == shifted(
            char_at(bytes.skip(prefix as int), (n - prefix) as nat),
            prefix as int,
        ),
    decreases prefix,
{
    if prefix == 0 {
        assert(bytes.skip(0) =~= bytes);
        assert(shifted(char_at(bytes, n), 0) == char_at(bytes, n));
    } else {
        lemma_ascii_is_char(bytes);
        if n > 0 {
            let rest = bytes.skip(1);
            assert forall|i: int| 0 <= i < prefix - 1 implies #[trigger] rest[i] < 0x80 by {
                assert(rest[i] == bytes[i + 1]);
            }
            lemma_char_at_after_ascii(rest, (prefix - 1) as nat, (n - 1) as nat);
            assert(rest.skip(prefix - 1) =~= bytes.skip(prefix as int));
        }
    }
}

/// The span of a character of the rest of a string is a span of a
/// character of the string.
pub proof fn lemma_char_at_step(bytes: Seq<u8>, at: int, n: nat)
    requires
        0 <= at < bytes.len(),
    ensures
        1 <= step_len(bytes.skip(at)) <= bytes.len() - at,
        bytes.skip(at).skip(step_len(bytes.skip(at))) == bytes.skip(at + step_len(bytes.skip(at))),
{
    let rest = bytes.skip(at);
    assert(rest.skip(step_len(rest)) =~= bytes.skip(at + step_len(rest)));
}

/// A position moved up by `by`.
pub open spec fn moved(at: Option<int>, by: int) -> Option<int> {
    match at {
        Some(at) => Some(at + by),
        None => None,
    }
}

/// Where the first `n` characters of `bytes` end, or `None` if `bytes` has
/// fewer than `n` characters.
pub open spec fn char_offset(bytes: Seq<u8>, n: nat) -> Option<int>
    decreases bytes.len(),
{
    if n == 0 {
        Some(0)
    } else if bytes.len() == 0 {
        None
    } else {
        let w = step_len(bytes);
        if valid_first_scalar(bytes) {
            moved(char_offset(bytes.skip(w), (n - 1) as nat), w)
        } else if n <= w {
            Some(n as int)
        } else {
            moved(char_offset(bytes.skip(w), (n - w) as nat), w)
        }
    }
}

/// Where the first `n` characters of `bytes` end, or the end of `bytes` if
/// it has fewer than `n` characters.
pub open spec fn char_end(bytes: Seq<u8>, n: nat) -> int {
    match char_offset(bytes, n) {
        Some(at) => at,
        None => bytes.len() as int,
    }
}

/// Where the characters from number `start` up to number `end` lie, cut to
/// the end of `bytes`; `None` if `bytes` has fewer than `start` characters.
pub open spec fn char_span(bytes: Seq<u8>, start: nat, end: nat) -> Option<(int, int)> {
    match char_offset(bytes, start) {
        Some(from) => Some((from, from + char_end(bytes.skip(from), (end - start) as nat))),
        None => None,
    }
}

/// Where the first `prefix` bytes are ASCII, the first characters end
/// where the first bytes end, and the others where they end in the rest.
pub proof fn lemma_char_offset_after_ascii(bytes: Seq<u8>, prefix: nat, n: nat)
    requires
        prefix <= bytes.len(),
        forall|i: int| 0 <= i < prefix ==> #[trigger] bytes[i] < 0x80,
    ensures
        n <= prefix ==> char_offset(bytes, n) == Some(n as int),
        n > prefix ==> char_offset(bytes, n) == moved(
            char_offset(bytes.skip(prefix as int), (n - prefix) as nat),
            prefix as int,
        ),
    decreases prefix,
{
    if prefix == 0 {
        assert(bytes.skip(0) =~= bytes);
        assert(moved(char_offset(bytes, n), 0) == char_offset(bytes, n));
    } else if n > 0 {
        lemma_ascii_is_char(bytes);
        let rest = bytes.skip(1);
        assert forall|i: int| 0 <= i < prefix - 1 implies #[trigger] rest[i] < 0x80 by {
            assert(rest[i] == bytes[i + 1]);
        }
        lemma_char_offset_after_ascii(rest, (prefix - 1) as nat, (n - 1) as nat);
        assert(rest.skip(prefix - 1) =~= bytes.skip(prefix as int));
    }
}

/// The characters of a string end within the string.
pub proof fn lemma_char_offset_bound(bytes: Seq<u8>, n: nat)
    ensures
        char_offset(bytes, n) is Some ==> 0 <= char_offset(bytes, n)->0 <= bytes.len(),
        0 <= char_end(bytes, n) <= bytes.len(),
    decreases bytes.len(),
{
    if n > 0 && bytes.len() > 0 {
        let w = step_len(bytes);
        if valid_first_scalar(bytes) {
            lemma_char_offset_bound(bytes.skip(w), (n - 1) as nat);
        } else if n > w {
            lemma_char_offset_bound(bytes.skip(w), (n - w) as nat);
        }
    }
}

/// Why a string has no first character to give the number of.
#[derive(Debug, Clone, Copy, PartialEq, Eq)]
pub enum OrdError {
    /// The string is empty.
    EmptyString,
    /// The string does not start with a well-formed character.
    InvalidUtf8ByteSequence,
}

/// Whether `at` is the position of the first byte of `bytes` that is not
/// ASCII.
pub open spec fn is_first_non_ascii(bytes: Seq<u8>, at: int) -> bool {
    &&& 0 <= at < bytes.len()
    &&& bytes[at] >= 0x80
    &&& forall|i: int| 0 <= i < at ==> #[trigger] bytes[i] < 0x80
}

/// The number of characters in the first `n` of `parts`: in the
/// well-formed part of each the number of bytes that are not continuation
/// bytes, and one for each of its invalid bytes.
pub open spec fn parts_chars(parts: Seq<(Seq<u8>, Seq<u8>)>, n: nat) -> nat
    decreases n,
{
    if n == 0 {
        0
    } else {
        parts_chars(parts, (n - 1) as nat) + leading_bytes(parts[n - 1].0) + parts[n - 1].1.len()
    }
}

/// The number of characters in bytes that start with a byte that is not
/// ASCII.
pub open spec fn tail_chars(bytes: Seq<u8>) -> nat {
    if valid_utf8(bytes) {
        leading_bytes(bytes)
    } else {
        parts_chars(utf8_chunk_parts(bytes), utf8_chunk_parts(bytes).len())
    }
}

/// Bytes that are all ASCII are well-formed UTF-8.
pub proof fn lemma_ascii_is_valid(bytes: Seq<u8>)
    requires
        all_ascii(bytes),
    ensures
        valid_utf8(bytes),
    decreases bytes.len(),
{
    if bytes.len() > 0 {
        assert(bytes[0] < 0x80);
        lemma_ascii_is_char(bytes);
        let rest = pop_first_scalar(bytes);
        assert forall|i: int| 0 <= i < rest.len() implies #[trigger] rest[i] < 0x80 by {
            assert(rest[i] == bytes[i + 1]);
        }
        lemma_ascii_is_valid(rest);
    }
}

/// The first chunks hold no more bytes than all of them.
pub proof fn lemma_chunks_len_grows(chunks: Seq<(&[u8], &[u8])>, m: nat, n: nat)
    requires
        m <= n,
    ensures
        chunks_len(chunks, m) <= chunks_len(chunks, n),
    decreases n,
{
    if m < n {
        lemma_chunks_len_grows(chunks, m, (n - 1) as nat);
    }
}

impl Utf8String {
    /// The number of characters.
    pub fn char_len(&self) -> (count: usize)
        ensures
            all_ascii(self@) ==> count == self@.len(),
            forall|at: int| #[trigger]
                is_first_non_ascii(self@, at) ==> count == at + tail_chars(self@.skip(at)),
    {
        let bytes = self.as_slice();
        let len = bytes.len();
        let tail = match first_non_ascii(bytes) {
            Some(at) => at,
            None => {
                proof {
                    assert forall|at: int| #[trigger] is_first_non_ascii(bytes@, at) implies false by {
                        assert(bytes@[at] < 0x80);
                    }
                }
                return len;
            },
        };
        proof {
            assert(is_first_non_ascii(bytes@, tail as int));
            assert forall|at: int| #[trigger] is_first_non_ascii(bytes@, at) implies at == tail by {
                if at < tail {
                    assert(bytes@[at] < 0x80);
                }
                if tail < at {
                    assert(bytes@[tail as int] < 0x80);
                }
            }
            assert(!all_ascii(bytes@)) by {
                if all_ascii(bytes@) {
                    assert(bytes@[tail as int] < 0x80);
                }
            }
        }
        let rest = slice_subrange(bytes, tail, len);
        proof {
            assert(rest@ =~= bytes@.skip(tail as int));
            lemma_leading_bytes_bound(rest@, rest@.len());
        }
        if is_valid_utf8(rest) {
            return tail + num_chars(rest);
        }
        let chunks = utf8_chunks(rest);
        let ghost parts = utf8_chunk_parts(rest@);
        let mut count: usize = tail;
        let mut i: usize = 0;
        while i < chunks.len()
            invariant
                i <= chunks@.len(),
                chunks@.len() == parts.len(),
                forall|j: int|
                    0 <= j < chunks@.len() ==> (#[trigger] chunks@[j]).0@ == parts[j].0
                        && chunks@[j].1@ == parts[j].1,
                chunks_len(chunks@, chunks@.len()) == rest@.len(),
                tail + rest@.len() == len,
                count == tail + parts_chars(parts, i as nat),
                parts_chars(parts, i as nat) <= chunks_len(chunks@, i as nat),
            decreases chunks@.len() - i,
        {
            let valid = chunks[i].0;
            let invalid = chunks[i].1;
            proof {
                lemma_chunks_len_grows(chunks@, (i + 1) as nat, chunks@.len());
                lemma_leading_bytes_bound(valid@, valid@.len());
            }
            count = count + num_chars(valid);
            count = count + invalid.len();
            i = i + 1;
        }
        count
    }

    /// Whether the bytes are well-formed UTF-8.
    pub fn is_valid_encoding(&self) -> (valid: bool)
        ensures
            valid == valid_utf8(self@),
    {
        if self.is_ascii_only() {
            proof {
                lemma_ascii_is_valid(self@);
            }
            return true;
        }
        is_valid_utf8(self.as_slice())
    }

    /// The bytes of the first character; empty if the string is empty.
    pub fn chr(&self) -> (first: &[u8])
        ensures
            first@ == match char_at(self@, 0) {
                Some((from, to)) => self@.subrange(from, to),
                None => Seq::<u8>::empty(),
            },
    {
        let bytes = self.as_slice();
        let (ch, size) = decode_first(bytes);
        let end = match ch {
            Some(_) => size,
            None => if size == 0 {
                0
            } else {
                1
            },
        };
        let first = slice_subrange(bytes, 0, end);
        proof {
            if bytes@.len() == 0 {
                assert(first@ =~= Seq::<u8>::empty());
            }
        }
        first
    }

    /// The number of the first character. Fails if the string is empty or
    /// does not start with a well-formed character.
    pub fn ord(&self) -> (number: Result<u32, OrdError>)
        ensures
            valid_first_scalar(self@) ==> number == Ok::<u32, OrdError>(decode_first_scalar(self@)),
            self@.len() == 0 ==> number == Err::<u32, OrdError>(OrdError::EmptyString),
            self@.len() > 0 && !valid_first_scalar(self@) ==> number == Err::<u32, OrdError>(
                OrdError::InvalidUtf8ByteSequence,
            ),
    {
        let (ch, size) = decode_first(self.as_slice());
        match ch {
            Some(ch) => Ok(ch as u32),
            None => if size == 0 {
                Err(OrdError::EmptyString)
            } else {
                Err(OrdError::InvalidUtf8ByteSequence)
            },
        }
    }

    /// The bytes of character number `index`, or `None` if the string
    /// has no more than `index` characters.
    pub fn get_char(&self, index: usize) -> (found: Option<&[u8]>)
        ensures
            index >= self@.len() ==> found is None,
            index < self@.len() ==> match char_at(self@, index as nat) {
                Some((from, to)) => found is Some && 0 <= from <= to <= self@.len() && found->0@
                    == self@.subrange(from, to),
                None => found is None,
            },
    {
        let bytes = self.as_slice();
        let len = bytes.len();
        if index >= len {
            return None;
        }
        let consumed = match first_non_ascii(bytes) {
            None => {
                proof {
                    lemma_char_at_after_ascii(bytes@, len as nat, index as nat);
                }
                return Some(slice_subrange(bytes, index, index + 1));
            },
            Some(at) => {
                if at > index {
                    proof {
                        lemma_char_at_after_ascii(bytes@, at as nat, index as nat);
                    }
                    return Some(slice_subrange(bytes, index, index + 1));
                }
                at
            },
        };
        proof {
            lemma_char_at_after_ascii(bytes@, consumed as nat, index as nat);
        }
        let mut at: usize = consumed;
        let mut remaining: usize = index - consumed;
        loop
            invariant
                bytes@ == self@,
                len == bytes@.len(),
                index < len,
                at <= len,
                char_at(bytes@, index as nat) == shifted(
                    char_at(bytes@.skip(at as int), remaining as nat),
                    at as int,
                ),
            decreases len - at,
        {
            let rest = slice_subrange(bytes, at, len);
            proof {
                assert(rest@ =~= bytes@.skip(at as int));
            }
            let (ch, size) = decode_first(rest);
            if size == 0 {
                return None;
            }
            proof {
                lemma_char_at_step(bytes@, at as int, remaining as nat);
                assert(step_len(rest@) == size);
            }
            match ch {
                Some(_) => {
                    if remaining == 0 {
                        return Some(slice_subrange(bytes, at, at + size));
                    }
                    at = at + size;
                    remaining = remaining - 1;
                },
                None => {
                    if remaining < size {
                        return Some(slice_subrange(bytes, at + remaining, at + remaining + 1));
                    }
                    at = at + size;
                    remaining = remaining - size;
                },
            }
        }
    }
    /// The bytes of the characters from number `range.start` up to number
    /// `range.end`, cut to the end of the string; `None` if the string has
    /// fewer than `range.start` characters.
    pub fn get_char_slice(&self, range: core::ops::Range<usize>) -> (found: Option<&[u8]>)
        requires
            range.start < range.end,
        ensures
            match char_span(self@, range.start as nat, range.end as nat) {
                Some((from, to)) => found is Some && 0 <= from <= to <= self@.len() && found->0@
                    == self@.subrange(from, to),
                None => found is None,
            },
    {
        let start = range.start;
        let end = range.end;
        let bytes = self.as_slice();
        let len = bytes.len();
        let consumed = match first_non_ascii(bytes) {
            None => {
                proof {
                    lemma_char_offset_after_ascii(bytes@, len as nat, start as nat);
                    if start <= len {
                        let rest = bytes@.skip(start as int);
                        lemma_char_offset_after_ascii(rest, rest.len(), (end - start) as nat);
                        assert(rest.skip(rest.len() as int).len() == 0);
                    } else {
                        assert(bytes@.skip(len as int).len() == 0);
                    }
                }
                if end <= len {
                    return Some(slice_subrange(bytes, start, end));
                } else if start <= len {
                    return Some(slice_subrange(bytes, start, len));
                } else {
                    return None;
                }
            },
            Some(at) => {
                if at > end {
                    proof {
                        lemma_char_offset_after_ascii(bytes@, at as nat, start as nat);
                        let rest = bytes@.skip(start as int);
                        assert forall|i: int| 0 <= i < at - start implies #[trigger] rest[i]
                            < 0x80 by {
                            assert(rest[i] == bytes@[start + i]);
                        }
                        lemma_char_offset_after_ascii(
                            rest,
                            (at - start) as nat,
                            (end - start) as nat,
                        );
                    }
                    return Some(slice_subrange(bytes, start, end));
                }
                proof {
                    if at <= start {
                        lemma_char_offset_after_ascii(bytes@, at as nat, start as nat);
                    } else {
                        lemma_char_offset_after_ascii(bytes@, at as nat, start as nat);
                        assert(bytes@.skip(start as int).skip(0) =~= bytes@.skip(start as int));
                    }
                }
                if at <= start {
                    at
                } else {
                    start
                }
            },
        };
        let mut at: usize = consumed;
        let mut remaining: usize = start - consumed;
        while remaining > 0
            invariant
                bytes@ == self@,
                len == bytes@.len(),
                at <= len,
                start == range.start,
                end == range.end,
                start < end,
                char_offset(bytes@, start as nat) == moved(
                    char_offset(bytes@.skip(at as int), remaining as nat),
                    at as int,
                ),
            decreases len - at,
        {
            let rest = slice_subrange(bytes, at, len);
            proof {
                assert(rest@ =~= bytes@.skip(at as int));
            }
            let (ch, size) = decode_first(rest);
            if size == 0 {
                return None;
            }
            proof {
                lemma_char_at_step(bytes@, at as int, remaining as nat);
                assert(step_len(rest@) == size);
            }
            match ch {
                Some(_) => {
                    at = at + size;
                    remaining = remaining - 1;
                },
                None => {
                    if remaining <= size {
                        proof {
                            assert(moved(
                                char_offset(bytes@.skip(at + remaining), 0),
                                at + remaining,
                            ) == Some(at + remaining));
                        }
                        at = at + remaining;
                        remaining = 0;
                    } else {
                        at = at + size;
                        remaining = remaining - size;
                    }
                },
            }
        }
        let from = at;
        remaining = end - start;
        while remaining > 0
            invariant
                bytes@ == self@,
                len == bytes@.len(),
                from <= at <= len,
                start == range.start,
                end == range.end,
                start < end,
                char_offset(bytes@, start as nat) == Some(from as int),
                char_end(bytes@.skip(from as int), (end - start) as nat) == (at - from) + char_end(
                    bytes@.skip(at as int),
                    remaining as nat,
                ),
            decreases len - at,
        {
            let rest = slice_subrange(bytes, at, len);
            proof {
                assert(rest@ =~= bytes@.skip(at as int));
            }
            let (ch, size) = decode_first(rest);
            if size == 0 {
                return Some(slice_subrange(bytes, from, len));
            }
            proof {
                lemma_char_at_step(bytes@, at as int, remaining as nat);
                assert(step_len(rest@) == size);
                lemma_char_offset_bound(bytes@.skip(at + size), (remaining - 1) as nat);
                if remaining > size {
                    lemma_char_offset_bound(bytes@.skip(at + size), (remaining - size) as nat);
                }
            }
            match ch {
                Some(_) => {
                    at = at + size;
                    remaining = remaining - 1;
                },
                None => {
                    if remaining <= size {
                        at = at + remaining;
                        remaining = 0;
                    } else {
                        at = at + size;
                        remaining = remaining - size;
                    }
                },
            }
        }
        Some(slice_subrange(bytes, from, at))
    }
}

} // verus!
