//! Finding the content of an entry by its name.

use vstd::prelude::*;
use vstd::slice::{slice_subrange, slice_to_vec};
use vstd::utf8::*;
use crate::iter::TarIter;
use crate::model::{lookup, lookup_in};

verus! {

/// What a search hands back, as the model sees it.
pub open spec fn found(r: Option<&[u8]>) -> Option<Seq<u8>> {
    match r {
        Some(c) => Some(c@),
        None => None,
    }
}

/// What an extraction hands back, as the model sees it.
pub open spec fn extracted(r: Option<Vec<u8>>) -> Option<Seq<u8>> {
    match r {
        Some(c) => Some(c@),
        None => None,
    }
}

/// Whether two runs of bytes are the same.
fn same_bytes(x: &[u8], y: &[u8]) -> (r: bool)
    ensures
        r == (x@ == y@),
{
    if x.len() != y.len() {
        return false;
    }
    let mut i: usize = 0;
    while i < x.len()
        invariant
            i <= x.len(),
            x.len() == y.len(),
            x@.take(i as int) == y@.take(i as int),
        decreases x.len() - i,
    {
        if x[i] != y[i] {
            return false;
        }
        proof {
            assert(x@.take(i + 1) =~= x@.take(i as int).push(x@[i as int]));
            assert(y@.take(i + 1) =~= y@.take(i as int).push(y@[i as int]));
        }
        i += 1;
    }
    proof {
        assert(x@.take(i as int) =~= x@);
        assert(y@.take(i as int) =~= y@);
    }
    true
}

/// Whether two texts are the same, character for character. Two texts are the
/// same exactly where their UTF-8 encodings are.
fn same_text(a: &str, b: &str) -> (r: bool)
    ensures
        r == (a@ == b@),
{
    proof {
        broadcast use {encode_utf8_decode_utf8, encode_utf8_valid_utf8};

        assert(decode_utf8(encode_utf8(a@)) == a@);
        assert(decode_utf8(encode_utf8(b@)) == b@);
    }
    same_bytes(a.as_bytes(), b.as_bytes())
}

/// Finds the content of the first entry named exactly `filename`, and hands
/// it out as a part of `archive`, without copying.
///
/// The names are compared as they are: no path is normalised, no trailing NUL
/// forgiven. The result is `None` where the walk over the headers ends before
/// an entry of that name, and where the first entry of that name declares more
/// content than the archive holds.
pub fn tar_lookup<'a>(archive: &'a [u8], filename: &str) -> (r: Option<&'a [u8]>)
    ensures
        found(r) == lookup(archive@, filename@),
{
    let mut it = TarIter::new(archive);
    loop
        invariant
            it.buffer() == archive@,
            lookup(archive@, filename@) == lookup_in(archive@, it.remaining(), filename@),
        decreases it.remaining().len(),
    {
        match it.next() {
            None => {
                return None;
            },
            Some(header) => {
                if same_text(header.name, filename) {
                    if header.file_end <= archive.len() {
                        return Some(slice_subrange(archive, header.file_start, header.file_end));
                    } else {
                        return None;
                    }
                }
            },
        }
    }
}

/// Finds the content of the first entry named exactly `filename` as
/// `tar_lookup` does, and hands out a copy of it.
pub fn extract_file(archive: &[u8], filename: &str) -> (r: Option<Vec<u8>>)
    ensures
        extracted(r) == lookup(archive@, filename@),
{
    match tar_lookup(archive, filename) {
        Some(data) => Some(slice_to_vec(data)),
        None => None,
    }
}

} // verus!
