use vstd::prelude::*;

verus! {

/// Why a short 8.3 name could not be encoded or decoded.
#[derive(Debug, Clone, Copy, PartialEq, Eq, Structural)]
pub enum NameError {
    /// The base is longer than 8 bytes or the extension longer than 3.
    TooLong,
    /// Not exactly one `.`, or a byte that is not 7-bit text.
    BadFormat,
}

/// Errors of the image engine.
#[derive(Debug, Clone, Copy, PartialEq, Eq, Structural)]
pub enum FatError {
    /// The boot parameter block is malformed or does not fit the buffer.
    Format,
    /// A short name violates the 8.3 rules.
    Name(NameError),
    /// The target name is already present in the root directory.
    Conflict,
    /// The root directory has no free slot.
    DirectoryFull,
    /// The allocation table has no free cluster.
    FatExhausted,
    /// No root directory entry carries the requested name.
    NotFound,
    /// A cluster chain does not terminate within the table's size.
    CorruptChain,
    /// A cluster or slot lies outside the image.
    Range,
    /// A value that FAT12/16 cannot represent.
    Unsupported,
}

} // verus!
