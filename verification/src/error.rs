//! The ways in which an operation of the storage core fails.

use vstd::prelude::*;

verus! {

/// Every failure is final for the operation that met it; where a name or an
/// identifier is at fault, the error carries it.
#[derive(Clone, Debug, PartialEq, Eq)]
pub enum Error {
    /// No repository, object or reference of this name.
    NotFound(Vec<u8>),
    /// More than one object starts with this abbreviation.
    Ambiguous(Vec<u8>),
    /// The stored bytes of this object are not an encoded object.
    MalformedObject(Vec<u8>),
    /// This reference holds neither an identifier nor `ref: <path>`.
    MalformedReference(Vec<u8>),
    /// Following this reference took more hops than are allowed.
    ReferenceCycle(Vec<u8>),
    /// The object named is not of the kind asked for.
    WrongKind(Vec<u8>),
    /// This is not the tag of any kind of object.
    UnknownKind(Vec<u8>),
    /// The configuration does not declare the supported format version; the
    /// error holds the version that it declares, `None` where it declares
    /// none.
    UnsupportedFormat(Option<String>),
    /// The repository has no configuration.
    MissingConfig,
    /// The configuration cannot be read as key/value sections.
    BadConfig,
    /// The metadata directory exists and is not empty.
    AlreadyInitialized,
    /// A directory was expected at this path, and something else is there.
    NotADirectory(Vec<u8>),
    /// The compressor failed.
    Compression,
}

pub enum ErrorView {
    NotFound(Seq<u8>),
    Ambiguous(Seq<u8>),
    MalformedObject(Seq<u8>),
    MalformedReference(Seq<u8>),
    ReferenceCycle(Seq<u8>),
    WrongKind(Seq<u8>),
    UnknownKind(Seq<u8>),
    UnsupportedFormat(Option<Seq<char>>),
    MissingConfig,
    BadConfig,
    AlreadyInitialized,
    NotADirectory(Seq<u8>),
    Compression,
}

impl View for Error {
    type V = ErrorView;

    open spec fn view(&self) -> ErrorView {
        match self {
            Error::NotFound(n) => ErrorView::NotFound(n@),
            Error::Ambiguous(n) => ErrorView::Ambiguous(n@),
            Error::MalformedObject(n) => ErrorView::MalformedObject(n@),
            Error::MalformedReference(n) => ErrorView::MalformedReference(n@),
            Error::ReferenceCycle(n) => ErrorView::ReferenceCycle(n@),
            Error::WrongKind(n) => ErrorView::WrongKind(n@),
            Error::UnknownKind(n) => ErrorView::UnknownKind(n@),
            Error::UnsupportedFormat(declared) => ErrorView::UnsupportedFormat(
                match declared {
                    Some(v) => Some(v@),
                    None => None,
                },
            ),
            Error::MissingConfig => ErrorView::MissingConfig,
            Error::BadConfig => ErrorView::BadConfig,
            Error::AlreadyInitialized => ErrorView::AlreadyInitialized,
            Error::NotADirectory(n) => ErrorView::NotADirectory(n@),
            Error::Compression => ErrorView::Compression,
        }
    }
}

} // verus!
