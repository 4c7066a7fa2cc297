//! What can go wrong while decoding.

use vstd::prelude::*;

verus! {

/// How a byte source can fail to deliver.
#[derive(Clone, Copy, Debug, PartialEq, Eq)]
pub enum IoFault {
    /// The source ended inside a record.
    UnexpectedEof,
}

/// A breach of the encoding at a place where the format leaves no choice.
#[derive(Clone, Copy, Debug, PartialEq, Eq)]
pub enum Corruption {
    /// A record's payload is too short for its index, directory, key length
    /// and key.
    TruncatedRecord,
    /// A value section is shorter than the four bytes of its length, or than
    /// the length it declares.
    TruncatedValueSection,
    /// A value stream ended where a type tag was due.
    MissingValueType,
    /// A value stream ended inside a length or a number.
    TruncatedNumber,
    /// A list's associative flag is neither 0 nor 1.
    AssocFlag(u8),
    /// The byte after an associative length is missing or not 0.
    AssocMarker,
    /// An associative list declares no entry, or no keyed entry.
    EmptyAssocList,
}

/// Why a decode failed.
#[derive(Debug, PartialEq, Eq)]
pub enum Error {
    /// Entries named this directory index, but no record gave it a name.
    DirectoryCreatedWithoutName(u32),
    /// The value at `key` is a list of `length` entries whose associative
    /// flag is missing.
    ListEntryMissingIsAssocBit { key: String, length: usize },
    Io(IoFault),
    /// The value at `key` starts with a tag that stands for no type.
    UnknownValueType { key: String, value_type: u8 },
    Corrupt(Corruption),
}

/// What an [`Error`] stands for.
pub enum ErrorView {
    DirectoryCreatedWithoutName(u32),
    ListEntryMissingIsAssocBit { key: Seq<char>, length: usize },
    Io(IoFault),
    UnknownValueType { key: Seq<char>, value_type: u8 },
    Corrupt(Corruption),
}

impl View for Error {
    type V = ErrorView;

    open spec fn view(&self) -> ErrorView {
        match self {
            Error::DirectoryCreatedWithoutName(index) => ErrorView::DirectoryCreatedWithoutName(
                *index,
            ),
            Error::ListEntryMissingIsAssocBit { key, length } => {
                ErrorView::ListEntryMissingIsAssocBit { key: key@, length: *length }
            },
            Error::Io(fault) => ErrorView::Io(*fault),
            Error::UnknownValueType { key, value_type } => ErrorView::UnknownValueType {
                key: key@,
                value_type: *value_type,
            },
            Error::Corrupt(corruption) => ErrorView::Corrupt(*corruption),
        }
    }
}

} // verus!
