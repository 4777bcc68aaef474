//! Why a snapshot is refused.

use vstd::prelude::*;

verus! {

/// The defect found in a snapshot.
#[derive(Clone, Copy, Debug, PartialEq, Eq, Structural)]
pub enum ErrorKind {
    /// The file is empty or its first byte is not the magic marker.
    BadMagic,
    /// The second byte is missing or is not the supported format version.
    BadVersion,
    /// A record starts with a tag byte that names no record kind.
    UnknownRecord(u8),
    /// A family record names no family.
    UnknownFamily(u8),
    /// The file ends inside a record.
    Truncated,
    /// A key arrives before any family record.
    MissingFamily,
    /// A directory, queue or bitmap key starts with an unknown subtype.
    UnknownSubtype(u8),
    /// A key is too short for the layout of its family, or a blob key is not
    /// a hash.
    MalformedKey,
    /// A counter value is not eight bytes long, or a bitmap does not decode.
    MalformedValue,
}

/// A defect together with the index of the record that shows it, counted
/// from zero in the order of the file. Header defects carry index zero.
#[derive(Clone, Copy, Debug, PartialEq, Eq, Structural)]
pub struct RestoreError {
    pub kind: ErrorKind,
    pub record: usize,
}

/// A result whose success value is replaced by its view.
pub open spec fn lift<T: View, E>(r: Result<T, E>) -> Result<T::V, E> {
    match r {
        Ok(v) => Ok(v@),
        Err(e) => Err(e),
    }
}

} // verus!
