//! The decisions behind the string functions that an interpreter calls
//! through its C interface: where a search starts, what a resize does, how
//! two strings are ordered, and how a number is written in a radix.
//!
//! The functions here take and give plain values; unboxing the strings of
//! the interpreter and boxing the results is for the caller.

use bstr::ByteSlice;
use vstd::prelude::*;
use vstd::slice::slice_subrange;
use vstd::utf8::{decode_utf8, valid_utf8};

verus! {

/// The number that `str::parse::<i64>` reads from `text`, or `None` where
/// it gives an error.
pub uninterp spec fn parsed_i64(text: Seq<char>) -> Option<i64>;

/// What a resize of a string does to its buffer.
#[derive(Debug, Clone, Copy, PartialEq, Eq)]
pub enum Resize {
    /// The string stays as it is.
    Keep,
    /// Room for this many more bytes is reserved.
    Grow(usize),
    /// The string is cut to this many bytes.
    Truncate(usize),
}

/// What reading a string as an integer gives.
#[derive(Debug, Clone, PartialEq, Eq)]
pub enum IntegerText {
    /// The digits of the number in the radix asked for.
    Digits(Vec<u8>),
    /// The string is not a number, and the caller asked for a zero then.
    Zero,
    /// The string is not a number, and the caller asked for an error then.
    InvalidNumber,
    /// The radix is not one from 2 to 36.
    IllegalRadix,
    /// The number is negative, and has no digits to write.
    NegativeNumber,
}

/// The position that an offset given by an interpreter stands for in a
/// string of `len` bytes: the offset itself if it is not negative, and the
/// amount by which its absolute value exceeds `len` if it is negative and
/// does so; `None` otherwise, and where a number does not fit a `usize`.
pub open spec fn resolved(offset: i64, len: int) -> Option<int> {
    if 0 <= offset <= usize::MAX {
        Some(offset as int)
    } else if offset < 0 && len <= -offset <= usize::MAX && -offset <= i64::MAX {
        Some(-offset - len)
    } else {
        None
    }
}

/// Whether `needle` occurs in `haystack` at position `at`.
pub open spec fn occurs_at(haystack: Seq<u8>, needle: Seq<u8>, at: int) -> bool {
    0 <= at && at + needle.len() <= haystack.len() && haystack.subrange(at, at + needle.len())
        == needle
}

/// The order of two byte strings: by the first byte in which they differ,
/// and by their lengths if one is the beginning of the other. The result
/// is -1, 0 or 1.
pub open spec fn byte_order_of(a: Seq<u8>, b: Seq<u8>) -> int
    decreases a.len(),
{
    if a.len() == 0 && b.len() == 0 {
        0
    } else if a.len() == 0 {
        -1
    } else if b.len() == 0 {
        1
    } else if a[0] < b[0] {
        -1
    } else if a[0] > b[0] {
        1
    } else {
        byte_order_of(a.skip(1), b.skip(1))
    }
}

/// The ASCII character for the digit `d`: `0` to `9`, then `a` to `z`.
pub open spec fn digit_char(d: int) -> u8 {
    if d < 10 {
        (48 + d) as u8
    } else {
        (87 + d) as u8
    }
}

/// The digits of `num` in `radix`, the most significant first.
pub open spec fn radix_digits(num: int, radix: int) -> Seq<u8>
    decreases num,
{
    if num < radix || radix < 2 {
        seq![digit_char(num)]
    } else {
        proof {
            assert(0 <= num / radix < num) by (nonlinear_arith)
                requires
                    num >= radix,
                    radix >= 2,
            ;
        }
        radix_digits(num / radix, radix).push(digit_char(num % radix))
    }
}

/// Calls `bstr`'s `find`, which returns the position of the first
/// occurrence of `needle` in `haystack`, and `None` if there is none.
#[verifier::external_body]
fn find(haystack: &[u8], needle: &[u8]) -> (found: Option<usize>)
    ensures
        match found {
            Some(at) => occurs_at(haystack@, needle@, at as int) && forall|before: int|
                0 <= before < at ==> !occurs_at(haystack@, needle@, before),
            None => forall|at: int| !occurs_at(haystack@, needle@, at),
        },
{
    haystack.find(needle)
}

/// Calls `core::str::from_utf8`, which succeeds if and only if the bytes
/// are well-formed UTF-8, and then gives the string that they encode.
#[verifier::external_body]
fn str_from_utf8(bytes: &[u8]) -> (text: Option<&str>)
    ensures
        text is Some <==> valid_utf8(bytes@),
        text is Some ==> text->0@ == decode_utf8(bytes@),
{
    core::str::from_utf8(bytes).ok()
}

/// Calls `str::parse::<i64>`, which reads a decimal number with an
/// optional sign.
#[verifier::external_body]
fn str_parse_i64(text: &str) -> (number: Option<i64>)
    ensures
        number == parsed_i64(text@),
{
    text.parse::<i64>().ok()
}

/// The position that `offset` stands for in a string of `len` bytes.
pub fn resolve_offset(offset: i64, len: usize) -> (position: Option<usize>)
    ensures
        match resolved(offset, len as int) {
            Some(at) => position == Some(at as usize),
            None => position is None,
        },
{
    if offset >= 0 {
        if offset as u64 > usize::MAX as u64 {
            None
        } else {
            Some(offset as usize)
        }
    } else if offset == i64::MIN {
        None
    } else {
        let distance = (-offset) as u64;
        if distance > usize::MAX as u64 {
            None
        } else if distance as usize >= len {
            Some(distance as usize - len)
        } else {
            None
        }
    }
}

/// Where `needle` is first found in `haystack` from the position that
/// `offset` stands for: the position of the occurrence counted from there,
/// the starting position itself for an empty needle, and -1 if the start
/// lies outside the haystack or the needle does not occur.
pub fn index_of(haystack: &[u8], needle: &[u8], offset: i64) -> (at: i64)
    requires
        haystack@.len() <= i64::MAX,
    ensures
        match resolved(offset, haystack@.len() as int) {
            Some(start) => if start > haystack@.len() {
                at == -1
            } else if needle@.len() == 0 {
                at == start
            } else if at == -1 {
                forall|p: int| !occurs_at(haystack@.skip(start), needle@, p)
            } else {
                occurs_at(haystack@.skip(start), needle@, at as int) && forall|p: int|
                    0 <= p < at ==> !occurs_at(haystack@.skip(start), needle@, p)
            },
            None => at == -1,
        },
{
    let start = match resolve_offset(offset, haystack.len()) {
        Some(start) => start,
        None => return -1,
    };
    if start > haystack.len() {
        return -1;
    }
    if needle.len() == 0 {
        return start as i64;
    }
    let rest = slice_subrange(haystack, start, haystack.len());
    proof {
        assert(rest@ =~= haystack@.skip(start as int));
    }
    match find(rest, needle) {
        Some(at) => at as i64,
        None => -1,
    }
}

/// Where the rest of a string of `len` bytes starts when it is cut at the
/// position that `beg` stands for; `None` if `count` is negative or the
/// position lies outside the string.
pub fn substr_start(len: usize, beg: i64, count: i64) -> (start: Option<usize>)
    ensures
        match resolved(beg, len as int) {
            Some(at) => if count >= 0 && at <= len {
                start == Some(at as usize)
            } else {
                start is None
            },
            None => start is None,
        },
{
    if count < 0 {
        return None;
    }
    match resolve_offset(beg, len) {
        Some(at) => if at <= len {
            Some(at)
        } else {
            None
        },
        None => None,
    }
}

/// What resizing a string of `current` bytes to `len` bytes does: nothing
/// for a negative length or the length that it has, a reservation for a
/// greater one, and a cut for a smaller one.
pub fn resize_action(current: usize, len: i64) -> (action: Resize)
    ensures
        action == if len < 0 || len > usize::MAX || len == current {
            Resize::Keep
        } else if len > current {
            Resize::Grow((len - current) as usize)
        } else {
            Resize::Truncate(len as usize)
        },
{
    if len < 0 || len as u64 > usize::MAX as u64 {
        return Resize::Keep;
    }
    let len = len as usize;
    if len == current {
        Resize::Keep
    } else if len > current {
        Resize::Grow(len - current)
    } else {
        Resize::Truncate(len)
    }
}

/// The order of `a` and `b` as byte strings: -1 if `a` comes first, 1 if
/// `b` comes first, and 0 if they are equal.
pub fn byte_order(a: &[u8], b: &[u8]) -> (order: i32)
    ensures
        order == byte_order_of(a@, b@),
{
    let mut i: usize = 0;
    proof {
        assert(a@.skip(0) =~= a@);
        assert(b@.skip(0) =~= b@);
    }
    while i < a.len() && i < b.len()
        invariant
            i <= a@.len(),
            i <= b@.len(),
            byte_order_of(a@, b@) == byte_order_of(a@.skip(i as int), b@.skip(i as int)),
        decreases a@.len() - i,
    {
        proof {
            assert(a@.skip(i as int).skip(1) =~= a@.skip(i + 1));
            assert(b@.skip(i as int).skip(1) =~= b@.skip(i + 1));
            assert(a@.skip(i as int)[0] == a@[i as int]);
            assert(b@.skip(i as int)[0] == b@[i as int]);
        }
        if a[i] < b[i] {
            return -1;
        }
        if a[i] > b[i] {
            return 1;
        }
        i = i + 1;
    }
    if i < b.len() {
        -1
    } else if i < a.len() {
        1
    } else {
        0
    }
}

/// The ASCII character for a digit below 36.
pub fn digit(d: u8) -> (c: u8)
    requires
        d < 36,
    ensures
        c == digit_char(d as int),
{
    if d < 10 {
        48 + d
    } else {
        87 + d
    }
}

/// The digits of `num` in `radix`, the most significant first.
pub fn digits_in_radix(num: i64, radix: u32) -> (text: Vec<u8>)
    requires
        num >= 0,
        2 <= radix <= 36,
    ensures
        text@ == radix_digits(num as int, radix as int),
{
    let base = radix as i64;
    let mut turned: Vec<u8> = Vec::new();
    let mut x = num;
    loop
        invariant_except_break
            x >= 0,
            base == radix,
            2 <= radix <= 36,
            radix_digits(num as int, radix as int) == radix_digits(x as int, radix as int)
                + turned@.reverse(),
        ensures
            turned@.reverse() == radix_digits(num as int, radix as int),
        decreases x,
    {
        let m = x % base;
        let rest = x / base;
        let ghost before = turned@;
        proof {
            assert(0 <= m < base && 0 <= rest <= x && (x >= base ==> rest < x) && (x < base
                ==> rest == 0 && m == x) && (x >= base ==> rest >= 1)) by (nonlinear_arith)
                requires
                    x >= 0,
                    base >= 2,
                    m == x % base,
                    rest == x / base,
            ;
        }
        turned.push(digit(m as u8));
        proof {
            assert(turned@.reverse() =~= seq![digit_char(m as int)] + before.reverse());
            if rest == 0 {
                assert(radix_digits(x as int, radix as int) =~= seq![digit_char(m as int)]);
                assert(radix_digits(x as int, radix as int) + before.reverse()
                    =~= turned@.reverse());
            } else {
                assert(radix_digits(x as int, radix as int) == radix_digits(
                    rest as int,
                    radix as int,
                ).push(digit_char(m as int)));
                assert(radix_digits(rest as int, radix as int).push(digit_char(m as int))
                    + before.reverse() =~= radix_digits(rest as int, radix as int)
                    + turned@.reverse());
            }
        }
        x = rest;
        if x == 0 {
            break;
        }
    }
    let mut text: Vec<u8> = Vec::new();
    let mut i: usize = turned.len();
    while i > 0
        invariant
            i <= turned@.len(),
            text@.len() == turned@.len() - i,
            forall|j: int| 0 <= j < text@.len() ==> #[trigger] text@[j] == turned@[turned@.len() - 1 - j],
        decreases i,
    {
        i = i - 1;
        text.push(turned[i]);
    }
    proof {
        assert(text@ =~= turned@.reverse());
    }
    text
}

/// What reading `bytes` as a decimal integer and writing it in the radix
/// `base` gives; `badcheck` says whether a string that is not a number is
/// an error or a zero. A string that is not a number is judged before the
/// radix is.
pub fn integer_text(bytes: &[u8], base: i64, badcheck: bool) -> (outcome: IntegerText)
    ensures
        match (if valid_utf8(bytes@) {
            parsed_i64(decode_utf8(bytes@))
        } else {
            None
        }) {
            None => outcome == if badcheck {
                IntegerText::InvalidNumber
            } else {
                IntegerText::Zero
            },
            Some(num) => if !(2 <= base <= 36) {
                outcome == IntegerText::IllegalRadix
            } else if num < 0 {
                outcome == IntegerText::NegativeNumber
            } else {
                outcome matches IntegerText::Digits(text) && text@ == radix_digits(
                    num as int,
                    base as int,
                )
            },
        },
{
    let parsed = match str_from_utf8(bytes) {
        Some(text) => str_parse_i64(text),
        None => None,
    };
    let num = match parsed {
        Some(num) => num,
        None => {
            return if badcheck {
                IntegerText::InvalidNumber
            } else {
                IntegerText::Zero
            };
        },
    };
    if base < 2 || base > 36 {
        return IntegerText::IllegalRadix;
    }
    if num < 0 {
        return IntegerText::NegativeNumber;
    }
    IntegerText::Digits(digits_in_radix(num, base as u32))
}

} // verus!
