//! Errors of the library.

use vstd::prelude::*;
use crate::hash::ObjectKey;

verus! {

/// Why stored bytes are not a valid object.
#[derive(Clone, Copy, Debug, PartialEq, Eq, Structural)]
pub enum Corruption {
    /// Fewer than nine bytes, or an unknown type code.
    BadHeader,
    /// The content is not as long as the header says.
    SizeMismatch,
    /// A chunk index with bad lengths, offsets or total.
    BadChunkIndex,
    /// Tree entries that are cut short, badly named or out of order.
    BadTree,
    /// Commit text that does not follow the commit layout.
    BadCommit,
}

/// Errors that the library reports.
#[derive(Clone, Debug, PartialEq, Eq)]
pub enum Error {
    /// A path that needed a parent directory has none.
    PathWithNoParent(Vec<u8>),
    /// A path that needed a final name has none.
    PathWithNoFileName(Vec<u8>),
    /// No object is stored under the key.
    ObjectNotFound(ObjectKey),
    /// Stored bytes failed validation.
    CorruptObject(Corruption),
    /// A directory was expected at the path.
    NotADirectory(Vec<u8>),
    /// Neither a hex key nor a known branch name.
    BadRevSpec(Vec<u8>),
    /// Every path under the root was ignored.
    NothingToHash,
    /// The directory chosen for a new store holds unrelated files.
    UnrelatedContents(Vec<u8>),
    /// An object of one type was found where another was needed.
    WrongObjectType(ObjectKey),
}

} // verus!
