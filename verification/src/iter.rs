//! A walk over the entries of an archive, one header at a time.

use vstd::prelude::*;
use crate::header::{parse_header, parsed, TarHeader};
use crate::model::{entries, entries_from, header_at, next_offset, Entry, BLOCK_SIZE};
use crate::octal::clamp_to_usize;

verus! {

/// A cursor into an archive. It starts at the first header and moves forward
/// only, by one entry for each call of `next`, until it stands where no header
/// is. A new walk takes a new cursor.
pub struct TarIter<'a> {
    archive: &'a [u8],
    offset: usize,
}

impl<'a> TarIter<'a> {
    /// The bytes of the archive that the cursor walks.
    pub closed spec fn buffer(&self) -> Seq<u8> {
        self.archive@
    }

    /// The offset at which the cursor stands.
    pub closed spec fn position(&self) -> nat {
        self.offset as nat
    }

    /// The entries that the cursor has yet to hand out, in order.
    pub open spec fn remaining(&self) -> Seq<Entry> {
        entries_from(self.buffer(), self.position())
    }

    /// A cursor at the start of `archive`: every entry is still to come.
    pub fn new(archive: &'a [u8]) -> (it: Self)
        ensures
            it.buffer() == archive@,
            it.position() == 0,
            it.remaining() == entries(archive@),
    {
        Self { archive, offset: 0 }
    }

    /// Hands out the entry at the cursor and moves the cursor behind that
    /// entry's content, padded to whole blocks. Where no header stands at the
    /// cursor the walk is over: the result is `None`, now and on every later
    /// call, and the cursor stays. An offset beyond the largest `usize` is
    /// kept as `usize::MAX`, where no header can stand either.
    pub fn next(&mut self) -> (r: Option<TarHeader<'a>>)
        ensures
            final(self).buffer() == old(self).buffer(),
            parsed(r) == header_at(old(self).buffer(), old(self).position()),
            r is Some <==> old(self).remaining().len() > 0,
            r matches Some(h) ==> {
                &&& h.wf()
                &&& h@ == old(self).remaining()[0]
                &&& final(self).remaining() == old(self).remaining().drop_first()
                &&& final(self).position() == clamp_to_usize(
                    next_offset(old(self).position(), h@.size),
                )
            },
            r is None ==> *final(self) == *old(self),
            final(self).position() >= old(self).position(),
    {
        let header = match parse_header(self.archive, self.offset) {
            Some(h) => h,
            None => {
                return None;
            },
        };
        let size: usize = header.size;
        let whole: usize = size / BLOCK_SIZE;
        let blocks: usize = if size % BLOCK_SIZE == 0 {
            whole
        } else {
            whole + 1
        };
        let padded: usize = blocks * BLOCK_SIZE;
        let ghost next = next_offset(self.offset as nat, size as nat);
        let ghost rest = entries_from(self.archive@, next);
        proof {
            assert(next == header.file_start + padded);
            assert(old(self).remaining() == seq![header@] + rest);
            assert((seq![header@] + rest).drop_first() =~= rest);
        }
        if padded > usize::MAX - header.file_start {
            self.offset = usize::MAX;
            proof {
                assert(header_at(self.archive@, next) is None);
                assert(header_at(self.archive@, usize::MAX as nat) is None);
            }
        } else {
            self.offset = header.file_start + padded;
        }
        Some(header)
    }
}

} // verus!
