//! Parsing of one header block.

use vstd::prelude::*;
use vstd::slice::slice_subrange;
use vstd::utf8::*;
use crate::model::{
    first_nul, has_magic, header_at, magic, name_bytes, Entry, BLOCK_SIZE, MAGIC_LEN,
    MAGIC_OFFSET, NAME_LEN, SIZE_LEN, SIZE_OFFSET,
};
use crate::octal::oct2bin;

verus! {

/// One entry of an archive: its name, borrowed from the archive, and where its
/// content stands. The content itself is not held: `file_start` and `file_end`
/// are offsets into the archive that the header was read from.
pub struct TarHeader<'a> {
    /// The entry's path, without the NUL padding of the name field.
    pub name: &'a str,
    /// The declared length of the content in bytes.
    pub size: usize,
    /// The offset in the archive at which the content starts.
    pub file_start: usize,
    /// The offset in the archive at which the content ends.
    pub file_end: usize,
}

impl<'a> View for TarHeader<'a> {
    type V = Entry;

    open spec fn view(&self) -> Entry {
        Entry {
            name: self.name@,
            size: self.size as nat,
            file_start: self.file_start as nat,
            file_end: self.file_end as nat,
        }
    }
}

impl<'a> TarHeader<'a> {
    /// The content's range is as long as the declared size.
    pub open spec fn wf(&self) -> bool {
        self.file_end == self.file_start + self.size
    }
}

/// What a parse hands back, as the model sees it.
pub open spec fn parsed(r: Option<TarHeader<'_>>) -> Option<Entry> {
    match r {
        Some(h) => Some(h@),
        None => None,
    }
}

/// `core::str::from_utf8`: the bytes as text where they are well-formed
/// UTF-8, and nothing where they are not. The text that comes back is what
/// the bytes decode to.
#[verifier::external_body]
fn str_from_utf8<'a>(bytes: &'a [u8]) -> (r: Option<&'a str>)
    ensures
        r is Some <==> valid_utf8(bytes@),
        r matches Some(s) ==> s@ == decode_utf8(bytes@),
{
    match core::str::from_utf8(bytes) {
        Ok(s) => Some(s),
        Err(_) => None,
    }
}

/// The index of the first NUL byte of `field`, or its length if it has none.
fn find_nul(field: &[u8]) -> (i: usize)
    ensures
        i == first_nul(field@),
        i <= field@.len(),
{
    let mut i: usize = 0;
    proof {
        assert(field@.skip(0) =~= field@);
    }
    while i < field.len() && field[i] != 0
        invariant
            i <= field.len(),
            first_nul(field@) == i + first_nul(field@.skip(i as int)),
        decreases field.len() - i,
    {
        proof {
            assert(field@.skip(i as int).drop_first() =~= field@.skip(i + 1));
        }
        i += 1;
    }
    i
}

/// Whether a header block carries the format signature.
fn block_has_magic(block: &[u8]) -> (r: bool)
    requires
        block@.len() == BLOCK_SIZE,
    ensures
        r == has_magic(block@),
{
    let r = block[MAGIC_OFFSET] == 0x75 && block[MAGIC_OFFSET + 1] == 0x73 && block[MAGIC_OFFSET
        + 2] == 0x74 && block[MAGIC_OFFSET + 3] == 0x61 && block[MAGIC_OFFSET + 4] == 0x72;
    proof {
        let found = block@.subrange(MAGIC_OFFSET as int, MAGIC_OFFSET + MAGIC_LEN);
        assert(found.len() == 5);
        assert(found[0] == block@[257]);
        assert(found[1] == block@[258]);
        assert(found[2] == block@[259]);
        assert(found[3] == block@[260]);
        assert(found[4] == block@[261]);
        if r {
            assert(found =~= magic());
        }
    }
    r
}

/// Reads the header that stands at `offset` in `archive`.
///
/// There is no entry, and the result is `None`, where fewer than 512 bytes are
/// left at `offset`, where the block does not carry the signature `ustar`, and
/// where the name is not UTF-8. The size is decoded leniently, as `oct2bin`
/// does. The content's range is computed and not held against the length of
/// the archive: whoever takes the content out checks that. Only a range that
/// no `usize` can express makes the parse fail.
pub fn parse_header<'a>(archive: &'a [u8], offset: usize) -> (r: Option<TarHeader<'a>>)
    ensures
        parsed(r) == header_at(archive@, offset as nat),
        r matches Some(h) ==> h.wf(),
{
    if offset > archive.len() || archive.len() - offset < BLOCK_SIZE {
        return None;
    }
    let block = slice_subrange(archive, offset, offset + BLOCK_SIZE);
    if !block_has_magic(block) {
        return None;
    }
    let size: usize = oct2bin(slice_subrange(block, SIZE_OFFSET, SIZE_OFFSET + SIZE_LEN));
    let field = slice_subrange(block, 0, NAME_LEN);
    let nul: usize = find_nul(field);
    let raw_name = slice_subrange(field, 0, nul);
    proof {
        assert(raw_name@ =~= name_bytes(block@));
    }
    let name = match str_from_utf8(raw_name) {
        Some(s) => s,
        None => {
            return None;
        },
    };
    let file_start: usize = offset + BLOCK_SIZE;
    if size > usize::MAX - file_start {
        return None;
    }
    Some(TarHeader { name, size, file_start, file_end: file_start + size })
}

} // verus!
