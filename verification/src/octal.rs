//! Decoding of the octal number fields of a header.

use vstd::prelude::*;

verus! {

/// Whether `b` is one of the ASCII digits `'0'` to `'7'`.
pub open spec fn is_octal_digit(b: u8) -> bool {
    0x30 <= b <= 0x37
}

/// The number that the octal digits of `s` spell, read from left to right.
/// Every byte that is not an octal digit is passed over.
pub open spec fn octal_value(s: Seq<u8>) -> nat
    decreases s.len(),
{
    if s.len() == 0 {
        0
    } else if is_octal_digit(s.last()) {
        (octal_value(s.drop_last()) * 8 + (s.last() - 0x30)) as nat
    } else {
        octal_value(s.drop_last())
    }
}

/// `v` where it fits in a `usize`, else the largest `usize`.
pub open spec fn clamp_to_usize(v: nat) -> usize {
    if v <= usize::MAX {
        v as usize
    } else {
        usize::MAX
    }
}

/// Decodes a field of octal digits. Bytes other than `'0'` to `'7'` (padding
/// NULs and spaces, terminators, anything else) are passed over wherever they
/// stand, so an empty field and a field without digits decode to 0. A number
/// too large for a `usize` decodes to `usize::MAX`.
pub fn oct2bin(s: &[u8]) -> (n: usize)
    ensures
        n == clamp_to_usize(octal_value(s@)),
{
    let mut n: usize = 0;
    let mut i: usize = 0;
    while i < s.len()
        invariant
            i <= s.len(),
            n == clamp_to_usize(octal_value(s@.take(i as int))),
        decreases s.len() - i,
    {
        let c: u8 = s[i];
        proof {
            assert(s@.take(i + 1).drop_last() =~= s@.take(i as int));
            assert(s@.take(i + 1).last() == c);
        }
        if 0x30 <= c && c <= 0x37 {
            let d: usize = (c - 0x30) as usize;
            if n > (usize::MAX - d) / 8 {
                n = usize::MAX;
            } else {
                n = n * 8 + d;
            }
        }
        i += 1;
    }
    proof {
        assert(s@.take(i as int) =~= s@);
    }
    n
}

} // verus!
