//! Changing the case of the characters of a string.
//!
//! Each well-formed character is replaced by the characters that the case
//! mapping of the standard library gives for it; bytes that belong to no
//! well-formed character stay as they are.

use crate::utf8::chars::step_len;
use crate::utf8::decode::{
    char_to_lowercase, char_to_uppercase, decode_first, lowercase_of, push_char, uppercase_of,
};
use crate::utf8::Utf8String;
use vstd::prelude::*;
use vstd::slice::slice_subrange;
use vstd::utf8::{decode_first_scalar, encode_scalar, encode_utf8, valid_first_scalar};

verus! {

/// The characters that `ch` becomes in upper case, or in lower case.
pub open spec fn case_of(ch: char, upper: bool) -> Seq<char> {
    if upper {
        uppercase_of(ch)
    } else {
        lowercase_of(ch)
    }
}

/// What the first decoding step of `bytes` becomes: the encoding of the
/// mapped character, or the invalid bytes as they are.
pub open spec fn step_cased(bytes: Seq<u8>, upper: bool) -> Seq<u8> {
    if valid_first_scalar(bytes) {
        encode_utf8(case_of(decode_first_scalar(bytes) as char, upper))
    } else {
        bytes.take(step_len(bytes))
    }
}

/// `bytes` with every character in upper case, or in lower case.
pub open spec fn cased(bytes: Seq<u8>, upper: bool) -> Seq<u8>
    decreases bytes.len(),
{
    if bytes.len() == 0 {
        Seq::<u8>::empty()
    } else {
        step_cased(bytes, upper) + cased(bytes.skip(step_len(bytes)), upper)
    }
}

/// `bytes` with the first character in upper case and the others in lower
/// case.
pub open spec fn capitalized(bytes: Seq<u8>) -> Seq<u8> {
    if bytes.len() == 0 {
        Seq::<u8>::empty()
    } else {
        step_cased(bytes, true) + cased(bytes.skip(step_len(bytes)), false)
    }
}

/// Appends to `out` what the decoding step at position `at` of `bytes`
/// becomes, and returns the position behind the step.
fn push_cased(out: &mut Vec<u8>, bytes: &[u8], at: usize, upper: bool) -> (next: usize)
    requires
        at < bytes@.len(),
    ensures
        next == at + step_len(bytes@.skip(at as int)),
        at < next <= bytes@.len(),
        final(out)@ == old(out)@ + step_cased(bytes@.skip(at as int), upper),
{
    let rest = slice_subrange(bytes, at, bytes.len());
    proof {
        assert(rest@ =~= bytes@.skip(at as int));
    }
    let (ch, size) = decode_first(rest);
    match ch {
        Some(ch) => {
            let mapped = if upper {
                char_to_uppercase(ch)
            } else {
                char_to_lowercase(ch)
            };
            proof {
                vstd::utf8::char_u32_cast(ch, decode_first_scalar(rest@));
                assert(ch == decode_first_scalar(rest@) as char);
                assert(mapped@ == case_of(ch, upper));
                assert(mapped@.skip(0) =~= mapped@);
            }
            let mut i: usize = 0;
            while i < mapped.len()
                invariant
                    i <= mapped@.len(),
                    out@ + encode_utf8(mapped@.skip(i as int)) == old(out)@ + encode_utf8(mapped@),
                decreases mapped@.len() - i,
            {
                proof {
                    let tail = mapped@.skip(i as int);
                    assert(tail.drop_first() =~= mapped@.skip(i + 1));
                    assert(encode_utf8(tail) == encode_scalar(tail[0] as u32) + encode_utf8(
                        tail.drop_first(),
                    ));
                    assert(out@ + encode_scalar(tail[0] as u32) + encode_utf8(tail.drop_first())
                        =~= out@ + encode_utf8(tail));
                }
                push_char(out, mapped[i]);
                i = i + 1;
            }
            proof {
                assert(encode_utf8(mapped@.skip(mapped@.len() as int)) =~= Seq::<u8>::empty());
                assert(out@ =~= old(out)@ + encode_utf8(mapped@));
            }
        },
        None => {
            let invalid = slice_subrange(bytes, at, at + size);
            out.extend_from_slice(invalid);
            proof {
                assert(invalid@ =~= rest@.take(size as int));
                assert(out@ =~= old(out)@ + rest@.take(size as int));
            }
        },
    }
    at + size
}

/// The bytes from position `from` on with every character in upper case,
/// or in lower case, appended to `out`.
fn push_all_cased(out: &mut Vec<u8>, bytes: &[u8], from: usize, upper: bool)
    requires
        from <= bytes@.len(),
    ensures
        final(out)@ == old(out)@ + cased(bytes@.skip(from as int), upper),
{
    let mut at = from;
    while at < bytes.len()
        invariant
            from <= at <= bytes@.len(),
            out@ + cased(bytes@.skip(at as int), upper) == old(out)@ + cased(
                bytes@.skip(from as int),
                upper,
            ),
        decreases bytes@.len() - at,
    {
        let ghost before = out@;
        let ghost rest = bytes@.skip(at as int);
        let next = push_cased(out, bytes, at, upper);
        proof {
            assert(rest.skip(step_len(rest)) =~= bytes@.skip(next as int));
            assert(before + step_cased(rest, upper) + cased(bytes@.skip(next as int), upper)
                =~= before + cased(rest, upper));
        }
        at = next;
    }
    proof {
        assert(cased(bytes@.skip(at as int), upper) =~= Seq::<u8>::empty());
        assert(out@ =~= old(out)@ + cased(bytes@.skip(from as int), upper));
    }
}

impl Utf8String {
    /// Puts the first character in upper case and the others in lower
    /// case.
    pub fn make_capitalized(&mut self)
        ensures
            final(self)@ == capitalized(old(self)@),
    {
        let bytes = self.as_slice();
        let mut replacement: Vec<u8> = Vec::with_capacity(bytes.len());
        if bytes.len() == 0 {
            return;
        }
        let next = push_cased(&mut replacement, bytes, 0, true);
        proof {
            assert(bytes@.skip(0) =~= bytes@);
            assert(replacement@ =~= step_cased(bytes@, true));
        }
        push_all_cased(&mut replacement, bytes, next, false);
        *self = Utf8String::new(replacement);
    }

    /// Puts every character in lower case.
    pub fn make_lowercase(&mut self)
        ensures
            final(self)@ == cased(old(self)@, false),
    {
        let bytes = self.as_slice();
        let mut replacement: Vec<u8> = Vec::with_capacity(bytes.len());
        push_all_cased(&mut replacement, bytes, 0, false);
        proof {
            assert(bytes@.skip(0) =~= bytes@);
            assert(replacement@ =~= cased(bytes@, false));
        }
        *self = Utf8String::new(replacement);
    }

    /// Puts every character in upper case.
    pub fn make_uppercase(&mut self)
        ensures
            final(self)@ == cased(old(self)@, true),
    {
        let bytes = self.as_slice();
        let mut replacement: Vec<u8> = Vec::with_capacity(bytes.len());
        push_all_cased(&mut replacement, bytes, 0, true);
        proof {
            assert(bytes@.skip(0) =~= bytes@);
            assert(replacement@ =~= cased(bytes@, true));
        }
        *self = Utf8String::new(replacement);
    }
}

} // verus!
