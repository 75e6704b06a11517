//! Error types used throughout the crate.
use vstd::prelude::*;

use crate::text::{ascii_chars, i64_decimal, int_decimal, string_from_bytes};

verus! {

/// The standard library's I/O error, carried through unchanged.
#[verifier::external_type_specification]
#[verifier::external_body]
pub struct ExIoError(std::io::Error);

/// All errors that can occur during FITS I/O operations.
#[derive(Debug)]
pub enum Error {
    /// Malformed FITS header block.
    InvalidHeader,
    /// Premature end of data while reading.
    UnexpectedEof,
    /// Unrecognized BITPIX value.
    InvalidBitpix(i64),
    /// Malformed keyword name in a header card.
    InvalidKeyword,
    /// Unknown or unsupported XTENSION type.
    UnsupportedExtension,
    /// A header value could not be parsed correctly.
    InvalidValue,
    /// A required keyword was not found in the header.
    MissingKeyword(&'static str),
    /// Compressed tile data could not be decompressed.
    DecompressionError(&'static str),
    /// The tile compression algorithm or its parameters are not supported.
    UnsupportedCompression(&'static str),
    /// An I/O error from the standard library.
    Io(std::io::Error),
}

/// Convenience alias used throughout the crate.
pub type Result<T> = core::result::Result<T, Error>;

/// The `Display` text of an I/O error (`ToString::to_string`).
#[verifier::external_body]
fn io_error_text(e: &std::io::Error) -> String {
    e.to_string()
}

/// The message text of each error other than an I/O error.
pub open spec fn spec_message(e: Error) -> Seq<char> {
    match e {
        Error::InvalidHeader => "invalid FITS header"@,
        Error::UnexpectedEof => "unexpected end of file"@,
        Error::InvalidBitpix(v) => "invalid BITPIX value: "@ + ascii_chars(int_decimal(v as int)),
        Error::InvalidKeyword => "invalid keyword name"@,
        Error::UnsupportedExtension => "unsupported XTENSION type"@,
        Error::InvalidValue => "invalid header value"@,
        Error::MissingKeyword(kw) => "missing required keyword: "@ + kw@,
        Error::DecompressionError(m) => "decompression error: "@ + m@,
        Error::UnsupportedCompression(m) => "unsupported compression: "@ + m@,
        Error::Io(_) => "I/O error: "@,
    }
}

impl Error {
    /// The human-readable message for this error.
    pub fn message(&self) -> (r: String)
        ensures
            !(self is Io) ==> r@ == spec_message(*self),
            self is Io ==> r@.subrange(0, 11) == "I/O error: "@,
    {
        match self {
            Error::InvalidHeader => String::from_str("invalid FITS header"),
            Error::UnexpectedEof => String::from_str("unexpected end of file"),
            Error::InvalidBitpix(v) => {
                let mut s = String::from_str("invalid BITPIX value: ");
                let digits = i64_decimal(*v);
                let d = string_from_bytes(digits.as_slice());
                s.append(d.as_str());
                s
            },
            Error::InvalidKeyword => String::from_str("invalid keyword name"),
            Error::UnsupportedExtension => String::from_str("unsupported XTENSION type"),
            Error::InvalidValue => String::from_str("invalid header value"),
            Error::MissingKeyword(kw) => {
                let mut s = String::from_str("missing required keyword: ");
                s.append(kw);
                s
            },
            Error::DecompressionError(m) => {
                let mut s = String::from_str("decompression error: ");
                s.append(m);
                s
            },
            Error::UnsupportedCompression(m) => {
                let mut s = String::from_str("unsupported compression: ");
                s.append(m);
                s
            },
            Error::Io(e) => {
                let mut s = String::from_str("I/O error: ");
                let t = io_error_text(e);
                proof { reveal_strlit("I/O error: "); }
                s.append(t.as_str());
                assert(s@.subrange(0, 11) =~= "I/O error: "@);
                s
            },
        }
    }

    /// Whether this error wraps an underlying error (only I/O errors do).
    pub fn has_source(&self) -> (r: bool)
        ensures
            r == (self is Io),
    {
        match self {
            Error::Io(_) => true,
            _ => false,
        }
    }
}

impl From<std::io::Error> for Error {
    fn from(e: std::io::Error) -> (r: Self) {
        Error::Io(e)
    }
}

impl vstd::std_specs::convert::FromSpecImpl<std::io::Error> for Error {
    open spec fn obeys_from_spec() -> bool {
        true
    }

    open spec fn from_spec(e: std::io::Error) -> Self {
        Error::Io(e)
    }
}

} // verus!
