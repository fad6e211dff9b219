//! What holds of every archive: laws over the model, proved once.

use vstd::prelude::*;
use crate::model::{
    bytes_left, content_of, entries, entries_from, find_entry, header_at, in_bounds, lookup,
    next_offset, Entry,
};
use crate::octal::{is_octal_digit, octal_value};

verus! {

/// A byte that is no octal digit adds nothing to the value of a field,
/// wherever in the field it stands.
pub proof fn lemma_octal_skips_other_bytes(before: Seq<u8>, c: u8, after: Seq<u8>)
    requires
        !is_octal_digit(c),
    ensures
        octal_value(before + seq![c] + after) == octal_value(before + after),
    decreases after.len(),
{
    let with = before + seq![c] + after;
    let without = before + after;
    if after.len() == 0 {
        assert(with.drop_last() =~= before);
        assert(without =~= before);
    } else {
        assert(with.drop_last() =~= before + seq![c] + after.drop_last());
        assert(without.drop_last() =~= before + after.drop_last());
        lemma_octal_skips_other_bytes(before, c, after.drop_last());
    }
}

/// The value of a field is the value of its octal digits alone.
pub proof fn lemma_octal_value_of_digits(s: Seq<u8>)
    ensures
        octal_value(s) == octal_value(s.filter(|b: u8| is_octal_digit(b))),
    decreases s.len(),
{
    let digit = |b: u8| is_octal_digit(b);
    reveal(Seq::filter);
    if s.len() > 0 {
        lemma_octal_value_of_digits(s.drop_last());
        if is_octal_digit(s.last()) {
            assert(s.filter(digit).drop_last() =~= s.drop_last().filter(digit));
        }
    }
}

/// A zero in front of a field does not change its value.
pub proof fn lemma_octal_leading_zero(s: Seq<u8>)
    ensures
        octal_value(seq![0x30u8] + s) == octal_value(s),
    decreases s.len(),
{
    let padded = seq![0x30u8] + s;
    if s.len() == 0 {
        assert(padded.drop_last() =~= Seq::<u8>::empty());
        assert(octal_value(padded.drop_last()) == 0);
    } else {
        assert(padded.drop_last() =~= seq![0x30u8] + s.drop_last());
        lemma_octal_leading_zero(s.drop_last());
    }
}

/// A field without octal digits has the value 0.
pub proof fn lemma_octal_of_padding(s: Seq<u8>)
    requires
        forall|i: int| 0 <= i < s.len() ==> !is_octal_digit(#[trigger] s[i]),
    ensures
        octal_value(s) == 0,
    decreases s.len(),
{
    if s.len() > 0 {
        lemma_octal_of_padding(s.drop_last());
    }
}

/// Whether the entry at index `i` is the first of `es` that is named `name`.
pub open spec fn is_first_match(es: Seq<Entry>, name: Seq<char>, i: int) -> bool {
    &&& 0 <= i < es.len()
    &&& es[i].name == name
    &&& forall|j: int| 0 <= j < i ==> (#[trigger] es[j]).name != name
}

/// A search among entries of which none has the name finds nothing.
pub proof fn lemma_find_entry_absent(es: Seq<Entry>, name: Seq<char>)
    requires
        forall|i: int| 0 <= i < es.len() ==> (#[trigger] es[i]).name != name,
    ensures
        find_entry(es, name) is None,
    decreases es.len(),
{
    if es.len() > 0 {
        assert(es[0].name != name);
        assert forall|i: int| 0 <= i < es.drop_first().len() implies (#[trigger] es.drop_first()[i]).name
            != name by {
            assert(es.drop_first()[i] == es[i + 1]);
        }
        lemma_find_entry_absent(es.drop_first(), name);
    }
}

/// A search finds the first entry that has the name.
pub proof fn lemma_find_entry_first(es: Seq<Entry>, name: Seq<char>, i: int)
    requires
        is_first_match(es, name, i),
    ensures
        find_entry(es, name) == Some(es[i]),
    decreases es.len(),
{
    if i > 0 {
        assert(es[0].name != name);
        let rest = es.drop_first();
        assert(rest[i - 1] == es[i]);
        assert forall|j: int| 0 <= j < i - 1 implies (#[trigger] rest[j]).name != name by {
            assert(rest[j] == es[j + 1]);
        }
        lemma_find_entry_first(rest, name, i - 1);
    }
}

/// What a search finds is the first entry that has the name.
pub proof fn lemma_find_entry_found(es: Seq<Entry>, name: Seq<char>) -> (i: int)
    requires
        find_entry(es, name) is Some,
    ensures
        is_first_match(es, name, i),
        find_entry(es, name) == Some(es[i]),
    decreases es.len(),
{
    if es[0].name == name {
        0
    } else {
        let rest = es.drop_first();
        let k = lemma_find_entry_found(rest, name);
        assert(rest[k] == es[k + 1]);
        assert forall|j: int| 0 <= j < k + 1 implies (#[trigger] es[j]).name != name by {
            if j > 0 {
                assert(rest[j - 1] == es[j]);
            }
        }
        k + 1
    }
}

/// Every entry that a walk meets has a content range as long as its size, and
/// the content starts behind a header that lies within the archive.
pub proof fn lemma_entries_well_formed(archive: Seq<u8>, offset: nat)
    ensures
        forall|i: int|
            0 <= i < entries_from(archive, offset).len() ==> {
                let e = #[trigger] entries_from(archive, offset)[i];
                &&& e.file_end == e.file_start + e.size
                &&& offset + 512 <= e.file_start <= archive.len()
                &&& e.file_end <= usize::MAX
            },
    decreases bytes_left(archive, offset),
{
    match header_at(archive, offset) {
        None => {},
        Some(first) => {
            let next = next_offset(offset, first.size);
            lemma_entries_well_formed(archive, next);
            let rest = entries_from(archive, next);
            assert forall|i: int| 0 <= i < entries_from(archive, offset).len() implies {
                let e = #[trigger] entries_from(archive, offset)[i];
                &&& e.file_end == e.file_start + e.size
                &&& offset + 512 <= e.file_start <= archive.len()
                &&& e.file_end <= usize::MAX
            } by {
                if i > 0 {
                    assert(entries_from(archive, offset)[i] == rest[i - 1]);
                }
            }
        },
    }
}

/// A name that no entry of the archive has is not found.
pub proof fn lemma_lookup_absent(archive: Seq<u8>, name: Seq<char>)
    requires
        forall|i: int| 0 <= i < entries(archive).len() ==> (#[trigger] entries(archive)[i]).name != name,
    ensures
        lookup(archive, name) is None,
{
    lemma_find_entry_absent(entries(archive), name);
}

/// The first entry that has the name decides the search: its content is the
/// result where it lies within the archive, and there is no result where it
/// does not, whatever stands behind it.
pub proof fn lemma_lookup_first_match(archive: Seq<u8>, name: Seq<char>, i: int)
    requires
        is_first_match(entries(archive), name, i),
    ensures
        lookup(archive, name) == if entries(archive)[i].file_end <= archive.len() {
            Some(content_of(archive, entries(archive)[i]))
        } else {
            None
        },
{
    lemma_find_entry_first(entries(archive), name, i);
}

/// What a search yields is never more than the archive holds: it is the
/// content of the first entry of that name, that content lies within the
/// archive, and it is as long as the entry's header declares.
pub proof fn lemma_lookup_within_bounds(archive: Seq<u8>, name: Seq<char>) -> (i: int)
    requires
        lookup(archive, name) is Some,
    ensures
        is_first_match(entries(archive), name, i),
        entries(archive)[i].file_start <= entries(archive)[i].file_end <= archive.len(),
        lookup(archive, name) == Some(
            archive.subrange(
                entries(archive)[i].file_start as int,
                entries(archive)[i].file_end as int,
            ),
        ),
        lookup(archive, name).unwrap().len() == entries(archive)[i].size,
{
    let i = lemma_find_entry_found(entries(archive), name);
    lemma_entries_well_formed(archive, 0);
    i
}

/// An entry whose content runs past the end of the archive is the last that
/// a walk meets.
pub proof fn lemma_walk_ends_at_cut_entry(archive: Seq<u8>, offset: nat)
    requires
        header_at(archive, offset) is Some,
        !in_bounds(archive, header_at(archive, offset).unwrap()),
    ensures
        entries_from(archive, offset) == seq![header_at(archive, offset).unwrap()],
{
    let e = header_at(archive, offset).unwrap();
    let next = next_offset(offset, e.size);
    assert(header_at(archive, next) is None);
    assert(entries_from(archive, next) =~= Seq::<Entry>::empty());
    assert(entries_from(archive, offset) == seq![e] + entries_from(archive, next));
    assert(seq![e] + Seq::<Entry>::empty() =~= seq![e]);
}

} // verus!
