//! Comparisons of byte strings and of text, by value.

use vstd::prelude::*;
use vstd::string::StringSliceAdditionalSpecFns;
use vstd::utf8::encode_utf8_decode_utf8;

verus! {

/// Whether `bytes` begins with `prefix`.
pub(crate) fn starts_with(bytes: &[u8], prefix: &[u8]) -> (yes: bool)
    ensures
        yes == prefix@.is_prefix_of(bytes@),
{
    if prefix.len() > bytes.len() {
        return false;
    }
    let mut at: usize = 0;
    while at < prefix.len()
        invariant
            at <= prefix.len() <= bytes.len(),
            forall|i: int| 0 <= i < at ==> bytes@[i] == prefix@[i],
        decreases prefix.len() - at,
    {
        if bytes[at] != prefix[at] {
            assert(bytes@.subrange(0, prefix@.len() as int)[at as int] != prefix@[at as int]);
            return false;
        }
        at += 1;
    }
    true
}

/// Whether the two byte strings are the same, byte for byte.
pub(crate) fn bytes_equal(left: &[u8], right: &[u8]) -> (same: bool)
    ensures
        same == (left@ == right@),
{
    if left.len() != right.len() {
        return false;
    }
    let begins = starts_with(left, right);
    proof {
        if begins {
            assert(left@ =~= left@.subrange(0, right@.len() as int));
        }
    }
    begins
}

/// Whether the two texts are the same, character for character.
pub(crate) fn text_equal(left: &str, right: &str) -> (same: bool)
    ensures
        same == (left@ == right@),
{
    let same = bytes_equal(left.as_bytes(), right.as_bytes());
    proof {
        // Two texts with one encoding decode to one text.
        encode_utf8_decode_utf8(left@);
        encode_utf8_decode_utf8(right@);
    }
    same
}

} // verus!
