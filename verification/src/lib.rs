//! A reader for USTAR archives held in memory.
//!
//! An archive is a byte slice made of 512-byte header blocks, each followed by
//! the content of its entry padded to a whole number of blocks. The crate walks
//! the headers one at a time and finds the content of an entry by its name,
//! without copying the archive.
//!
//! `model` says what the bytes of an archive mean; the other modules hold the
//! code that reads them, each function with a contract over that model.

pub mod octal;
pub mod model;
pub mod header;
pub mod iter;
pub mod lookup;
pub mod reader;
pub mod laws;
pub mod layout;

pub use header::{parse_header, TarHeader};
pub use iter::TarIter;
pub use lookup::{extract_file, tar_lookup};
pub use octal::oct2bin;
pub use reader::TarReader;
