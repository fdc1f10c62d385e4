//! The error taxonomy shared by the pool and the buffer.
use vstd::prelude::*;

verus! {

/// A mapping error from the operating system, as the mapping crate reports it.
#[verifier::external_type_specification]
#[verifier::external_body]
pub struct ExMmapError(mmap_rs::Error);

/// The error of bytes that are not well-formed UTF-8.
#[verifier::external_type_specification]
#[verifier::external_body]
pub struct ExUtf8Error(core::str::Utf8Error);

#[derive(Debug)]
pub enum MByteBufferError {
    /// A write would go past the fixed capacity of the cell.
    MaxCapacity,
    /// No cell could be carved: the region to map would be `size` bytes.
    AllocationFailure { size: usize },
    /// A layout for `size` bytes could not be formed.
    LayoutFailure { size: usize },
    /// A capacity under one byte was asked for.
    MinCapacity,
    /// A cursor position past the valid region was asked for.
    CursorOutOfBounds { length: usize, cursor: usize },
    /// The range `start..end` reaches past the valid region of `length` bytes.
    ReadOutOfBounds { length: usize, start: usize, end: usize },
    /// A truncation to `new` bytes was asked of a buffer of `current` bytes.
    LengthOutOfBounds { current: usize, new: usize },
    /// An error of a value's own decoding, in words.
    OtherError { error: String },
    /// Bytes read as a string are not well-formed UTF-8.
    UnicodeError(core::str::Utf8Error),
    /// A shared cell was already borrowed while it was being encoded.
    RefCellAlreadyBorrowed { error: String, type_label: &'static str },
    /// A value that must not be zero decoded as zero.
    NonZeroIsZero,
    /// A decoded code point is not a character.
    NotAChar,
    /// The operating system refused a mapping.
    Mmap(mmap_rs::Error),
}

pub type Result<T> = core::result::Result<T, MByteBufferError>;

} // verus!
