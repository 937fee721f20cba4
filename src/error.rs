//! Errors of the index scan.
use vstd::prelude::*;

verus! {

/// Why encoded index data could not be decoded.
#[derive(Debug, Clone, Copy, PartialEq, Eq, Structural)]
pub enum DecodeError {
    /// The key is shorter than the table and index prefix.
    KeyTooShort,
    /// No datum could be split off the key payload.
    DatumSplit,
    /// The value holds fewer than eight bytes where the handle is read.
    HandleInValue,
    /// The handle in the key holds fewer than eight bytes after its flag.
    HandleInKey,
    /// The handle in the key has a flag that is neither the signed nor the unsigned integer flag.
    UnexpectedHandleFlag(u8),
    /// A raw datum does not hold a value of the column's type.
    DatumValue,
}

/// A failure of the store that a scan reads.
#[derive(Debug, Clone, Copy, PartialEq, Eq, Structural)]
pub enum StoreError {
    /// A key in the range is locked by a transaction not yet resolved.
    KeyIsLocked,
    /// The store could not read its data.
    Io,
}

/// An error of the index scan.
#[derive(Debug, Clone, Copy, PartialEq, Eq, Structural)]
pub enum Error {
    /// Corrupted data: encoded bytes that cannot be decoded.
    CorruptedData(DecodeError),
    /// A key range whose end is not after its start.
    InvalidRange,
    /// Columns where the handle is not the last column, or comes twice.
    InvalidSchema,
    /// The store failed; its error is handed on unchanged.
    Store(StoreError),
    /// Store entries whose keys do not strictly increase.
    UnorderedKeys,
}

} // verus!
