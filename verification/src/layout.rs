//! Laws on how archives are laid out: what a well-formed entry reads back
//! as, and what joining archives does to their entries.

use vstd::prelude::*;
use vstd::utf8::*;
use crate::laws::{is_first_match, lemma_find_entry_first};
use crate::model::{
    bytes_left, declared_size, entries, entries_from, first_nul, has_magic, header_at, lookup,
    magic, name_bytes, next_offset, Entry, NAME_LEN,
};

verus! {

/// Whether the name field of a header block spells `name`: the UTF-8 encoding
/// of the name, which holds no NUL byte and is no longer than the field,
/// followed by NUL bytes up to the end of the field.
pub open spec fn spells_name(block: Seq<u8>, name: Seq<char>) -> bool {
    let encoded = encode_utf8(name);
    &&& block.len() >= NAME_LEN
    &&& encoded.len() <= NAME_LEN
    &&& forall|i: int| 0 <= i < encoded.len() ==> #[trigger] encoded[i] != 0
    &&& block.subrange(0, encoded.len() as int) == encoded
    &&& forall|i: int| encoded.len() <= i < NAME_LEN ==> #[trigger] block[i] == 0
}

/// Whether `archive` holds at `offset` a well-formed entry named `name` with
/// the content `content`: a header block with the signature, the name and the
/// length of the content, and behind it the content itself.
pub open spec fn holds_entry_at(
    archive: Seq<u8>,
    offset: nat,
    name: Seq<char>,
    content: Seq<u8>,
) -> bool {
    let block = archive.subrange(offset as int, offset + 512 as int);
    &&& offset + 512 + content.len() <= archive.len()
    &&& has_magic(block)
    &&& spells_name(block, name)
    &&& declared_size(block) == content.len()
    &&& archive.subrange(offset + 512 as int, offset + 512 + content.len() as int) == content
}

/// The entry that a well-formed header at `offset` describes.
pub open spec fn entry_at(offset: nat, name: Seq<char>, content: Seq<u8>) -> Entry {
    Entry {
        name,
        size: content.len(),
        file_start: offset + 512,
        file_end: offset + 512 + content.len(),
    }
}

/// The first NUL byte of a field stands where a NUL-free prefix ends.
pub proof fn lemma_first_nul_at(field: Seq<u8>, k: nat)
    requires
        k <= field.len(),
        forall|i: int| 0 <= i < k ==> #[trigger] field[i] != 0,
        k < field.len() ==> field[k as int] == 0,
    ensures
        first_nul(field) == k,
    decreases k,
{
    if k > 0 {
        let rest = field.drop_first();
        assert(field[0] != 0);
        assert forall|i: int| 0 <= i < k - 1 implies #[trigger] rest[i] != 0 by {
            assert(rest[i] == field[i + 1]);
        }
        lemma_first_nul_at(rest, (k - 1) as nat);
    }
}

/// A header block that spells a name holds the encoding of that name.
pub proof fn lemma_name_bytes_of_spelled(block: Seq<u8>, name: Seq<char>)
    requires
        spells_name(block, name),
    ensures
        name_bytes(block) == encode_utf8(name),
{
    let encoded = encode_utf8(name);
    let field = block.subrange(0, NAME_LEN as int);
    assert forall|i: int| 0 <= i < encoded.len() implies #[trigger] field[i] != 0 by {
        assert(field[i] == block.subrange(0, encoded.len() as int)[i]);
        assert(encoded[i] != 0);
    }
    if encoded.len() < field.len() {
        assert(field[encoded.len() as int] == block[encoded.len() as int]);
    }
    lemma_first_nul_at(field, encoded.len());
    assert(field.take(encoded.len() as int) =~= block.subrange(0, encoded.len() as int));
}

/// A well-formed entry is read back as it was written: the header at its
/// offset yields its name, the length of its content and the range in which
/// the content stands.
pub proof fn lemma_header_of_entry(
    archive: Seq<u8>,
    offset: nat,
    name: Seq<char>,
    content: Seq<u8>,
)
    requires
        archive.len() <= usize::MAX,
        holds_entry_at(archive, offset, name, content),
    ensures
        header_at(archive, offset) == Some(entry_at(offset, name, content)),
{
    broadcast use {encode_utf8_decode_utf8, encode_utf8_valid_utf8};

    let block = archive.subrange(offset as int, offset + 512 as int);
    lemma_name_bytes_of_spelled(block, name);
    assert(valid_utf8(encode_utf8(name)));
    assert(decode_utf8(encode_utf8(name)) == name);
}

/// Whatever is written into a well-formed archive of one entry is read back
/// from it: a search for the entry's name yields exactly its content, be the
/// content empty or not.
pub proof fn lemma_round_trip(archive: Seq<u8>, name: Seq<char>, content: Seq<u8>)
    requires
        archive.len() <= usize::MAX,
        holds_entry_at(archive, 0, name, content),
    ensures
        lookup(archive, name) == Some(content),
{
    lemma_header_of_entry(archive, 0, name, content);
    let e = entry_at(0, name, content);
    assert(entries(archive) == seq![e] + entries_from(archive, next_offset(0, e.size)));
    assert(entries(archive)[0] == e);
    assert(is_first_match(entries(archive), name, 0));
    lemma_find_entry_first(entries(archive), name, 0);
}

/// The entry `e` as it stands when `by` bytes are put in front of its
/// archive: the same name and size, the content range moved.
pub open spec fn shifted(e: Entry, by: nat) -> Entry {
    Entry { name: e.name, size: e.size, file_start: e.file_start + by, file_end: e.file_end + by }
}

/// The offset at which a walk that starts at `offset` ends: the first offset
/// on its way at which no header stands.
pub open spec fn walk_end(archive: Seq<u8>, offset: nat) -> nat
    decreases bytes_left(archive, offset),
{
    match header_at(archive, offset) {
        None => offset,
        Some(e) => walk_end(archive, next_offset(offset, e.size)),
    }
}

/// Whether the entries of an archive fill it exactly: the walk over them ends
/// at the archive's end, with no terminator and no other byte left over.
pub open spec fn filled(archive: Seq<u8>) -> bool {
    walk_end(archive, 0) == archive.len()
}

/// Bytes behind a whole header block do not change what the block says.
pub proof fn lemma_header_at_prefix(archive: Seq<u8>, tail: Seq<u8>, offset: nat)
    requires
        offset + 512 <= archive.len(),
    ensures
        header_at(archive + tail, offset) == header_at(archive, offset),
{
    assert((archive + tail).subrange(offset as int, offset + 512 as int) =~= archive.subrange(
        offset as int,
        offset + 512 as int,
    ));
}

/// Bytes in front of an archive move its headers and leave them otherwise as
/// they are: where no header stood none stands, and where one stood it
/// stands, moved, unless its content would now end beyond `usize::MAX`.
pub proof fn lemma_header_at_shift(front: Seq<u8>, archive: Seq<u8>, offset: nat)
    ensures
        header_at(front + archive, front.len() + offset) == match header_at(archive, offset) {
            Some(e) => if e.file_end + front.len() <= usize::MAX {
                Some(shifted(e, front.len()))
            } else {
                None
            },
            None => None,
        },
{
    if offset + 512 <= archive.len() {
        assert((front + archive).subrange(
            front.len() + offset as int,
            front.len() + offset + 512 as int,
        ) =~= archive.subrange(offset as int, offset + 512 as int));
    }
}

/// The entries of an archive behind `front`, from `offset` on, are the
/// entries of the archive alone, moved by the length of `front`.
pub proof fn lemma_entries_shift(front: Seq<u8>, archive: Seq<u8>, offset: nat)
    requires
        forall|i: int|
            0 <= i < entries_from(archive, offset).len() ==> (#[trigger] entries_from(
                archive,
                offset,
            )[i]).file_end + front.len() <= usize::MAX,
    ensures
        entries_from(front + archive, front.len() + offset) == entries_from(
            archive,
            offset,
        ).map_values(|e: Entry| shifted(e, front.len())),
    decreases bytes_left(archive, offset),
{
    let moved = |e: Entry| shifted(e, front.len());
    lemma_header_at_shift(front, archive, offset);
    match header_at(archive, offset) {
        None => {
            assert(entries_from(archive, offset).map_values(moved) =~= Seq::<Entry>::empty());
        },
        Some(e) => {
            let next = next_offset(offset, e.size);
            let rest = entries_from(archive, next);
            assert(entries_from(archive, offset) == seq![e] + rest);
            assert(entries_from(archive, offset)[0] == e);
            assert forall|i: int| 0 <= i < rest.len() implies (#[trigger] rest[i]).file_end
                + front.len() <= usize::MAX by {
                assert(rest[i] == entries_from(archive, offset)[i + 1]);
            }
            lemma_entries_shift(front, archive, next);
            assert(next_offset(front.len() + offset, e.size) == front.len() + next);
            assert((seq![e] + rest).map_values(moved) =~= seq![shifted(e, front.len())]
                + rest.map_values(moved));
        },
    }
}

/// Joining two archives joins their entries, where the first is filled
/// exactly by its own: the walk over the joined archive meets the entries of
/// the first, then those of the second, each moved by the length of the
/// first. No content range of the second may, moved, end beyond `usize::MAX`,
/// which holds of every entry that lies within a joined archive that a slice
/// can hold.
pub proof fn lemma_entries_of_joined(first: Seq<u8>, second: Seq<u8>, offset: nat)
    requires
        walk_end(first, offset) == first.len(),
        forall|i: int|
            0 <= i < entries(second).len() ==> (#[trigger] entries(second)[i]).file_end
                + first.len() <= usize::MAX,
    ensures
        entries_from(first + second, offset) == entries_from(first, offset) + entries(
            second,
        ).map_values(|e: Entry| shifted(e, first.len())),
    decreases bytes_left(first, offset),
{
    let moved = |e: Entry| shifted(e, first.len());
    match header_at(first, offset) {
        None => {
            lemma_entries_shift(first, second, 0);
            assert(entries_from(first, offset) + entries(second).map_values(moved) =~= entries(
                second,
            ).map_values(moved));
        },
        Some(e) => {
            let next = next_offset(offset, e.size);
            lemma_header_at_prefix(first, second, offset);
            lemma_entries_of_joined(first, second, next);
            assert(seq![e] + (entries_from(first, next) + entries(second).map_values(moved))
                =~= (seq![e] + entries_from(first, next)) + entries(second).map_values(moved));
        },
    }
}

/// A tail that does not start with a header adds no entry to an archive that
/// its entries fill exactly: the walk ends where the tail starts, be the tail
/// a block of zeros, a block without the signature, or a block cut short.
pub proof fn lemma_entries_before_garbage(archive: Seq<u8>, tail: Seq<u8>)
    requires
        filled(archive),
        header_at(tail, 0) is None,
    ensures
        entries(archive + tail) == entries(archive),
{
    assert(entries(tail) =~= Seq::<Entry>::empty());
    lemma_entries_of_joined(archive, tail, 0);
    assert(entries(archive) + entries(tail).map_values(|e: Entry| shifted(e, archive.len()))
        =~= entries(archive));
}

/// A block of zeros is no header, and neither is any block without the
/// signature.
pub proof fn lemma_no_header_without_magic(tail: Seq<u8>)
    requires
        tail.len() >= 512,
        (forall|i: int| 0 <= i < 512 ==> #[trigger] tail[i] == 0) || !has_magic(
            tail.subrange(0, 512),
        ),
    ensures
        header_at(tail, 0) is None,
{
    let block = tail.subrange(0, 512);
    if has_magic(block) {
        assert(block.subrange(257, 262)[0] == tail[257]);
        assert(magic()[0] == 0x75);
    }
}

/// Where a walk has ended at a whole block that is no header, nothing that is
/// put behind the archive adds an entry.
pub proof fn lemma_entries_behind_terminator(archive: Seq<u8>, tail: Seq<u8>, offset: nat)
    requires
        walk_end(archive, offset) + 512 <= archive.len(),
    ensures
        entries_from(archive + tail, offset) == entries_from(archive, offset),
    decreases bytes_left(archive, offset),
{
    match header_at(archive, offset) {
        None => {
            lemma_header_at_prefix(archive, tail, offset);
        },
        Some(e) => {
            lemma_header_at_prefix(archive, tail, offset);
            lemma_entries_behind_terminator(archive, tail, next_offset(offset, e.size));
        },
    }
}

/// Whether `archive` is a well-formed archive of one entry: the entry stands
/// at its start and no header stands behind the entry's padded content.
pub open spec fn holds_one_entry(archive: Seq<u8>, name: Seq<char>, content: Seq<u8>) -> bool {
    &&& holds_entry_at(archive, 0, name, content)
    &&& header_at(archive, next_offset(0, content.len())) is None
}

/// A well-formed archive of one entry has that entry and no other.
pub proof fn lemma_entries_of_one(archive: Seq<u8>, name: Seq<char>, content: Seq<u8>)
    requires
        archive.len() <= usize::MAX,
        holds_one_entry(archive, name, content),
    ensures
        entries(archive) == seq![entry_at(0, name, content)],
{
    lemma_header_of_entry(archive, 0, name, content);
    let e = entry_at(0, name, content);
    assert(entries_from(archive, next_offset(0, e.size)) =~= Seq::<Entry>::empty());
    assert(seq![e] + Seq::<Entry>::empty() =~= seq![e]);
}

/// Two well-formed archives of one entry each, joined, the first without its
/// terminator: the walk over the joined archive meets exactly the two
/// entries, the first's and then the second's, the second behind the padded
/// content of the first. A search finds the content of the first under its
/// name, and that of the second under its own where the names differ.
pub proof fn lemma_two_entries_joined(
    first: Seq<u8>,
    name1: Seq<char>,
    content1: Seq<u8>,
    second: Seq<u8>,
    name2: Seq<char>,
    content2: Seq<u8>,
)
    requires
        (first + second).len() <= usize::MAX,
        holds_entry_at(first, 0, name1, content1),
        first.len() == next_offset(0, content1.len()),
        holds_one_entry(second, name2, content2),
    ensures
        entries(first + second) == seq![
            entry_at(0, name1, content1),
            entry_at(first.len(), name2, content2),
        ],
        lookup(first + second, name1) == Some(content1),
        name1 != name2 ==> lookup(first + second, name2) == Some(content2),
{
    let joined = first + second;
    let e1 = entry_at(0, name1, content1);
    let e2 = entry_at(0, name2, content2);
    let moved = |e: Entry| shifted(e, first.len());
    lemma_header_of_entry(first, 0, name1, content1);
    assert(header_at(first, first.len()) is None);
    assert(entries_from(first, first.len()) =~= Seq::<Entry>::empty());
    assert(entries(first) =~= seq![e1]);
    assert(walk_end(first, first.len()) == first.len());
    assert(filled(first));
    lemma_entries_of_one(second, name2, content2);
    assert(entries(second)[0] == e2);
    lemma_entries_of_joined(first, second, 0);
    assert(seq![e1] + seq![e2].map_values(moved) =~= seq![
        e1,
        entry_at(first.len(), name2, content2),
    ]);
    let es = entries(joined);
    assert(es[0] == e1);
    assert(es[1] == entry_at(first.len(), name2, content2));
    assert(is_first_match(es, name1, 0));
    lemma_find_entry_first(es, name1, 0);
    let end1 = 512 + content1.len() as int;
    assert(joined.subrange(512, end1) =~= first.subrange(512, end1));
    if name1 != name2 {
        assert(is_first_match(es, name2, 1));
        lemma_find_entry_first(es, name2, 1);
        let start2 = first.len() + 512 as int;
        let end2 = 512 + content2.len() as int;
        assert(joined.subrange(start2, first.len() + end2) =~= second.subrange(512, end2));
    }
}

} // verus!
