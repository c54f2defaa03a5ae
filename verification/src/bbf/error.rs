//! What can go wrong when a container is read, built or linearized.
use vstd::prelude::*;

verus! {

/// The index tables of a container.
#[derive(Debug, Clone, Copy, PartialEq, Eq, Structural)]
pub enum Table {
    Asset,
    Page,
    Section,
    Meta,
}

/// Why an operation on a container failed.
#[derive(Debug, PartialEq, Eq, Structural)]
pub enum BbfError {
    /// The bytes are fewer than a header and a footer take.
    ContainerTooSmall,
    /// The first four bytes are not `BBF3`.
    InvalidMagic,
    /// The header names a version other than the one supported.
    UnsupportedVersion(u16),
    /// The footer would end past the end of the bytes.
    FooterOutOfBounds,
    /// An entry index at or past the table's count.
    IndexOutOfBounds(Table, u64),
    /// The position of an entry does not fit in 64 bits.
    OffsetOverflow(Table),
    /// An entry would end past the end of the bytes.
    EntryOutOfBounds(Table),
    /// The string offset that stands for "no string".
    NullString,
    /// A string offset at or past the size of the string pool.
    StringOffsetOutOfPool { offset: u64, pool_size: u64 },
    /// The absolute position of a string does not fit in 64 bits.
    StringOffsetOverflow,
    /// The end of the string pool does not fit in 64 bits.
    StringPoolEndOverflow,
    /// The end of the string pool is past the address space.
    StringPoolEndTooLarge,
    /// A string starts at or past the end of the bytes.
    StringOutOfFile,
    /// The bytes of a string are not UTF-8.
    InvalidUtf8,
    /// No terminating zero within the scanned part of the pool.
    UnterminatedString,
    /// An asset's payload would end past the end of the bytes.
    AssetDataOutOfBounds,
    /// The write position of a builder would pass 2^64.
    CurrentOffsetOverflow,
    /// A container needs at least one asset.
    NoAssets,
    /// The header already carries the linearization flag.
    AlreadyPetrified,
    /// The footer stands before the asset table.
    InvalidFooterOffsets,
    /// The asset table stands inside the header.
    InvalidAssetTableOffset,
    /// The index region is larger than linearization allows.
    IndexTooLarge,
    /// The bytes end before a part that should follow.
    UnexpectedEof,
    /// The archive format can be read by others but not written here.
    UnsupportedArchiveFormat,
}

} // verus!
