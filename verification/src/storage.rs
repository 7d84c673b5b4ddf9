//! The storage that an execution reads and writes.

use crate::word::Word;
use vstd::prelude::*;

verus! {

/// A store of words under symbolic keys. The engine is generic over it and
/// hands its error on as it is.
pub trait Storage {
    /// The error of this backend.
    type Error;

    /// The word stored under `key`.
    fn read(&self, key: &Word) -> Result<Word, Self::Error>;

    /// Stores `value` under `key`.
    fn write(&mut self, key: Word, value: Word) -> Result<(), Self::Error>;
}

} // verus!
