//! Failures while reading an archive container.

use vstd::prelude::*;

verus! {

/// Why one archive could not be read.
#[derive(Debug)]
pub enum ArchiveError {
    /// The header's signature is not `LSPK`; holds the four bytes found.
    BadMagic(Vec<u8>),
    /// A byte range lies outside the file.
    OutOfBounds,
    /// A compressed block is corrupt or truncated.
    DecompressionFailure,
    /// No entry of the directory holds a descriptor document.
    NoMetadata,
    /// The descriptor document lacks a required attribute or element.
    MalformedDescriptor,
}

} // verus!
