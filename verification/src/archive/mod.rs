//! Comic-book archive formats that pages can also be packed into.
use crate::bbf::error::BbfError;
use vstd::prelude::*;

verus! {

/// The archive formats of comic-book readers.
#[derive(Debug, Clone, Copy, PartialEq, Eq, Structural)]
pub enum ArchiveFormat {
    /// A zip archive.
    Cbz,
    /// A tar archive.
    Cbt,
    /// A 7z archive.
    Cb7,
    /// A RAR archive.
    Cbr,
}

impl ArchiveFormat {
    /// The format a numeric code names: 0 zip, 1 tar, 2 7z, any other RAR.
    pub fn from_code(code: i32) -> (f: ArchiveFormat)
        ensures
            code == 0 ==> f == ArchiveFormat::Cbz,
            code == 1 ==> f == ArchiveFormat::Cbt,
            code == 2 ==> f == ArchiveFormat::Cb7,
            code != 0 && code != 1 && code != 2 ==> f == ArchiveFormat::Cbr,
    {
        match code {
            0 => ArchiveFormat::Cbz,
            1 => ArchiveFormat::Cbt,
            2 => ArchiveFormat::Cb7,
            _ => ArchiveFormat::Cbr,
        }
    }

    /// Whether archives of this format can be written: all but RAR, whose compressor is
    /// not open.
    pub fn check_writable(&self) -> (r: Result<(), BbfError>)
        ensures
            *self == ArchiveFormat::Cbr ==> r == Err::<(), BbfError>(
                BbfError::UnsupportedArchiveFormat,
            ),
            *self != ArchiveFormat::Cbr ==> r == Ok::<(), BbfError>(()),
    {
        match self {
            ArchiveFormat::Cbr => Err(BbfError::UnsupportedArchiveFormat),
            _ => Ok(()),
        }
    }
}

} // verus!
