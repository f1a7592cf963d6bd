//! Putting the characters of a string in the opposite order.

use crate::utf8::chars::step_len;
use crate::utf8::decode::decode_first;
use crate::utf8::{all_ascii, Utf8String};
use vstd::prelude::*;
use vstd::slice::slice_subrange;
use vstd::utf8::valid_first_scalar;

verus! {

/// The first decoding step of `bytes` with the bytes of its character in
/// the opposite order; invalid bytes, each a character of its own, stay in
/// their order.
pub open spec fn step_mirrored(bytes: Seq<u8>) -> Seq<u8> {
    if valid_first_scalar(bytes) {
        bytes.take(step_len(bytes)).reverse()
    } else {
        bytes.take(step_len(bytes))
    }
}

/// `bytes` with the bytes of every character in the opposite order. The
/// reverse of this sequence has the characters of `bytes` in the opposite
/// order, each with its bytes in their own order.
pub open spec fn mirrored(bytes: Seq<u8>) -> Seq<u8>
    decreases bytes.len(),
{
    if bytes.len() == 0 {
        Seq::<u8>::empty()
    } else {
        step_mirrored(bytes) + mirrored(bytes.skip(step_len(bytes)))
    }
}

/// The bytes of `bytes` in the opposite order.
fn reversed(bytes: &[u8]) -> (turned: Vec<u8>)
    ensures
        turned@ == bytes@.reverse(),
{
    let len = bytes.len();
    let mut turned: Vec<u8> = Vec::with_capacity(len);
    let mut i: usize = 0;
    while i < len
        invariant
            len == bytes@.len(),
            i <= len,
            turned@.len() == i,
            forall|j: int| 0 <= j < i ==> #[trigger] turned@[j] == bytes@[len - 1 - j],
        decreases len - i,
    {
        turned.push(bytes[len - 1 - i]);
        i = i + 1;
    }
    proof {
        assert(turned@ =~= bytes@.reverse());
    }
    turned
}

impl Utf8String {
    /// Puts the characters in the opposite order. Where all bytes are
    /// ASCII, that is the opposite order of the bytes.
    pub fn reverse(&mut self)
        ensures
            all_ascii(old(self)@) ==> final(self)@ == old(self)@.reverse(),
            !all_ascii(old(self)@) ==> final(self)@ == mirrored(old(self)@).reverse(),
    {
        let bytes = self.as_slice();
        if self.is_ascii_only() {
            let turned = reversed(bytes);
            *self = Utf8String::new(turned);
            return;
        }
        let len = bytes.len();
        let mut mirror: Vec<u8> = Vec::with_capacity(len);
        let mut at: usize = 0;
        proof {
            assert(bytes@.skip(0) =~= bytes@);
            assert(mirror@ + mirrored(bytes@) =~= mirrored(bytes@));
        }
        while at < len
            invariant
                len == bytes@.len(),
                at <= len,
                mirror@ + mirrored(bytes@.skip(at as int)) == mirrored(bytes@),
            decreases len - at,
        {
            let rest = slice_subrange(bytes, at, len);
            proof {
                assert(rest@ =~= bytes@.skip(at as int));
            }
            let (ch, size) = decode_first(rest);
            let ghost before = mirror@;
            let step = slice_subrange(bytes, at, at + size);
            proof {
                assert(step@ =~= rest@.take(size as int));
                assert(rest@.skip(size as int) =~= bytes@.skip(at + size));
            }
            match ch {
                Some(_) => {
                    let mut turned = reversed(step);
                    mirror.append(&mut turned);
                },
                None => {
                    mirror.extend_from_slice(step);
                    proof {
                        assert(mirror@ =~= before + step@);
                    }
                },
            }
            proof {
                assert(mirror@ == before + step_mirrored(rest@));
                assert(before + step_mirrored(rest@) + mirrored(bytes@.skip(at + size)) =~= before
                    + mirrored(rest@));
            }
            at = at + size;
        }
        proof {
            assert(mirrored(bytes@.skip(len as int)) =~= Seq::<u8>::empty());
            assert(mirror@ =~= mirrored(bytes@));
        }
        let turned = reversed(mirror.as_slice());
        *self = Utf8String::new(turned);
    }
}

} // verus!
