//! The mathematical model of an archive: what its bytes mean.
//!
//! Nothing here is executed. An archive is a `Seq<u8>`, an offset is a
//! `nat`, and an entry is the record that one header block describes.

use vstd::prelude::*;
use vstd::utf8::*;
use crate::octal::octal_value;

verus! {

/// The size of a block in bytes. Headers and content are laid out in blocks.
pub const BLOCK_SIZE: usize = 512;

/// The length of the name field, which starts the header.
pub const NAME_LEN: usize = 100;

/// Where the size field starts within the header.
pub const SIZE_OFFSET: usize = 124;

/// The length of the size field.
pub const SIZE_LEN: usize = 11;

/// Where the format signature starts within the header.
pub const MAGIC_OFFSET: usize = 257;

/// The length of the format signature.
pub const MAGIC_LEN: usize = 5;

/// The format signature: the ASCII letters `ustar`.
pub open spec fn magic() -> Seq<u8> {
    seq![0x75u8, 0x73u8, 0x74u8, 0x61u8, 0x72u8]
}

/// One entry of an archive, as its header describes it.
pub struct Entry {
    /// The entry's path.
    pub name: Seq<char>,
    /// The declared length of the content in bytes.
    pub size: nat,
    /// The offset in the archive at which the content starts.
    pub file_start: nat,
    /// The offset in the archive at which the content ends.
    pub file_end: nat,
}

/// The index of the first NUL byte of `field`, or its length if it has none.
pub open spec fn first_nul(field: Seq<u8>) -> nat
    decreases field.len(),
{
    if field.len() == 0 || field[0] == 0 {
        0
    } else {
        1 + first_nul(field.drop_first())
    }
}

/// The bytes of the name that a header block holds: its name field up to the
/// first NUL byte, or the whole field if it has none.
pub open spec fn name_bytes(block: Seq<u8>) -> Seq<u8> {
    let field = block.subrange(0, NAME_LEN as int);
    field.take(first_nul(field) as int)
}

/// The content length that a header block declares.
pub open spec fn declared_size(block: Seq<u8>) -> nat {
    octal_value(block.subrange(SIZE_OFFSET as int, SIZE_OFFSET + SIZE_LEN))
}

/// Whether a header block carries the format signature.
pub open spec fn has_magic(block: Seq<u8>) -> bool {
    block.subrange(MAGIC_OFFSET as int, MAGIC_OFFSET + MAGIC_LEN) == magic()
}

/// The number of blocks that `size` bytes of content take up.
pub open spec fn blocks(size: nat) -> nat {
    (size + 511) / 512
}

/// The offset of the header that follows an entry of `size` bytes whose own
/// header stands at `offset`.
pub open spec fn next_offset(offset: nat, size: nat) -> nat {
    offset + 512 + blocks(size) * 512
}

/// The entry whose header stands at `offset`, if one does. There is none where
/// fewer than 512 bytes are left, where the block lacks the signature, and
/// where the name is not UTF-8. The content's range is not held against the
/// length of the archive, only against the largest offset there is: a header
/// whose content would end beyond `usize::MAX` describes no entry.
pub open spec fn header_at(archive: Seq<u8>, offset: nat) -> Option<Entry> {
    if offset + 512 > archive.len() {
        None
    } else {
        let block = archive.subrange(offset as int, offset + 512 as int);
        let size = declared_size(block);
        if has_magic(block) && valid_utf8(name_bytes(block)) && offset + 512 + size <= usize::MAX {
            Some(
                Entry {
                    name: decode_utf8(name_bytes(block)),
                    size,
                    file_start: offset + 512,
                    file_end: offset + 512 + size,
                },
            )
        } else {
            None
        }
    }
}

/// How many bytes of the archive stand at `offset` or after it.
pub open spec fn bytes_left(archive: Seq<u8>, offset: nat) -> nat {
    if offset <= archive.len() {
        (archive.len() - offset) as nat
    } else {
        0
    }
}

/// The entries that a walk meets which starts at `offset`: the entry there, if
/// any, then those from the offset that follows it. The walk ends at the first
/// offset that holds no header.
pub open spec fn entries_from(archive: Seq<u8>, offset: nat) -> Seq<Entry>
    decreases bytes_left(archive, offset),
{
    match header_at(archive, offset) {
        None => Seq::empty(),
        Some(e) => seq![e] + entries_from(archive, next_offset(offset, e.size)),
    }
}

/// The entries of an archive, in the order in which they stand.
pub open spec fn entries(archive: Seq<u8>) -> Seq<Entry> {
    entries_from(archive, 0)
}

/// The first entry of `es` that is named `name`.
pub open spec fn find_entry(es: Seq<Entry>, name: Seq<char>) -> Option<Entry>
    decreases es.len(),
{
    if es.len() == 0 {
        None
    } else if es[0].name == name {
        Some(es[0])
    } else {
        find_entry(es.drop_first(), name)
    }
}

/// Whether the content of `e` lies within the archive.
pub open spec fn in_bounds(archive: Seq<u8>, e: Entry) -> bool {
    e.file_end <= archive.len()
}

/// The content of `e`, which must lie within the archive.
pub open spec fn content_of(archive: Seq<u8>, e: Entry) -> Seq<u8>
    recommends
        e.file_start <= e.file_end <= archive.len(),
{
    archive.subrange(e.file_start as int, e.file_end as int)
}

/// What a search among `es` for `name` yields: the content of the first entry
/// of that name if it lies within the archive, else nothing.
pub open spec fn lookup_in(archive: Seq<u8>, es: Seq<Entry>, name: Seq<char>) -> Option<Seq<u8>> {
    match find_entry(es, name) {
        Some(e) => if in_bounds(archive, e) {
            Some(content_of(archive, e))
        } else {
            None
        },
        None => None,
    }
}

/// What a search of the archive for `name` yields.
pub open spec fn lookup(archive: Seq<u8>, name: Seq<char>) -> Option<Seq<u8>> {
    lookup_in(archive, entries(archive), name)
}

} // verus!
