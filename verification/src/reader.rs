//! The boundary to a block device.

use vstd::prelude::*;

verus! {

/// `core::fmt::Error`, the error that a failed read reports. It says nothing
/// but that the read failed.
#[verifier::external_type_specification]
#[verifier::external_body]
pub struct ExFmtError(core::fmt::Error);

/// A source of blocks that can be read in any order, such as a disk. An
/// archive that is not held in memory can be read through it block by block.
/// Nothing in this crate implements it: the crate itself reads archives from
/// memory only.
pub trait TarReader {
    /// Fills `buf` with the bytes of the block at the logical block address
    /// `lba`, or reports that the read failed. The buffer keeps its length.
    fn read_block(&mut self, lba: u64, buf: &mut [u8]) -> (r: core::fmt::Result)
        ensures
            final(buf)@.len() == old(buf)@.len(),
    ;
}

} // verus!
