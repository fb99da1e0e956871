//! The library's error type.

use vstd::prelude::*;

verus! {

/// What can go wrong when building a cell or reading and writing a disk
/// image.
#[derive(Debug, Clone, Copy, PartialEq, Eq, Structural)]
pub enum Error {
    /// A raw 64-bit value that is not a valid H3 cell.
    Index(u64),
    /// A read ran past the end of the image.
    Io,
    /// The image does not start with the magic bytes.
    NotDisktree,
    /// The image has a version this library cannot read.
    Version(u8),
    /// A node tag that points outside the image, at the given offset.
    InvalidTag(u8, u64),
    /// A value length that does not fit a varint, or a byte that does not
    /// start one.
    Varint(u32),
    /// The caller's value encoder reported a failure.
    Writer,
}

} // verus!
