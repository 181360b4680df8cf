//! The ways in which reading a catalog can fail.

use vstd::prelude::*;

verus! {

#[verifier::external_type_specification]
#[verifier::external_body]
pub struct ExIoError(std::io::Error);

/// An error met while reading a catalog.
#[derive(Debug)]
pub enum Error {
    /// The file does not start with the magic number of an MO file.
    BadMagic,
    /// A string holds a byte sequence that is invalid in its encoding.
    DecodingError,
    /// The file ends before the data that its tables announce.
    Eof,
    /// The byte source failed.
    Io(std::io::Error),
    /// A line of the metadata has no colon.
    MalformedMetadata,
    /// The metadata is not the first string of the catalog.
    MisplacedMetadata,
    /// The plural formula of the metadata cannot be parsed.
    PluralParsing,
    /// The metadata names an encoding that is not known.
    UnknownEncoding,
}

/// `std::fmt::Display` for `std::io::Error`: the text with which the byte
/// source describes its failure. Nothing is claimed of that text.
#[verifier::external_body]
fn io_error_text(err: &std::io::Error) -> (text: String) {
    format!("{}", err)
}

impl Error {
    /// The text that describes each error but `Io`.
    pub open spec fn text(self) -> Seq<char> {
        match self {
            Error::BadMagic => "bad magic number"@,
            Error::DecodingError => "invalid byte sequence in a string"@,
            Error::Eof => "unxpected end of file"@,
            Error::Io(_) => Seq::empty(),
            Error::MalformedMetadata => "metadata syntax error"@,
            Error::MisplacedMetadata => "misplaced metadata"@,
            Error::PluralParsing => "invalid plural expression"@,
            Error::UnknownEncoding => "unknown encoding specified"@,
        }
    }

    /// A description of the error for people to read. For `Io` it is the byte
    /// source's own description.
    pub fn message(&self) -> (r: String)
        ensures
            !(self is Io) ==> r@ == self.text(),
    {
        match self {
            Error::BadMagic => "bad magic number".to_owned(),
            Error::DecodingError => "invalid byte sequence in a string".to_owned(),
            Error::Eof => "unxpected end of file".to_owned(),
            Error::Io(err) => io_error_text(err),
            Error::MalformedMetadata => "metadata syntax error".to_owned(),
            Error::MisplacedMetadata => "misplaced metadata".to_owned(),
            Error::PluralParsing => "invalid plural expression".to_owned(),
            Error::UnknownEncoding => "unknown encoding specified".to_owned(),
        }
    }
}

impl From<std::io::Error> for Error {
    fn from(inner: std::io::Error) -> (r: Error) {
        Error::Io(inner)
    }
}

impl vstd::std_specs::convert::FromSpecImpl<std::io::Error> for Error {
    open spec fn obeys_from_spec() -> bool {
        true
    }

    open spec fn from_spec(inner: std::io::Error) -> Error {
        Error::Io(inner)
    }
}

} // verus!
