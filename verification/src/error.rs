//! The ways in which the store refuses.

use vstd::prelude::*;
use vstd::string::StringExecFns;

verus! {

/// Why an operation of the store failed.
#[derive(Clone, Copy, Debug, PartialEq, Eq, Structural)]
pub enum Error {
    /// The bytes at an offset are no record: they end too early, name an unknown
    /// opcode, hold a length above the field limit or text that is not UTF-8, or their
    /// checksum does not match.
    CorruptRecord,
    /// A keydir offset does not lead to a `Set` record of the key it was filed under.
    IndexInconsistency,
    /// The segments found at start-up cannot be taken over: one of them does not scan
    /// as a chain of records, or two of them carry the same id.
    Bootstrap,
    /// A key or a value is longer than the record format lets a field be.
    FieldTooLarge,
}

impl Error {
    /// A short description of the failure, for people.
    pub fn message(&self) -> (text: String)
        ensures
            text@ == (match *self {
                Error::CorruptRecord => "corrupt record"@,
                Error::IndexInconsistency => "indexed key offset does not point to value"@,
                Error::Bootstrap => "failed to parse database log"@,
                Error::FieldTooLarge => "key or value exceeds the field limit"@,
            }),
    {
        match self {
            Error::CorruptRecord => String::from_str("corrupt record"),
            Error::IndexInconsistency => String::from_str(
                "indexed key offset does not point to value",
            ),
            Error::Bootstrap => String::from_str("failed to parse database log"),
            Error::FieldTooLarge => String::from_str("key or value exceeds the field limit"),
        }
    }
}

} // verus!
