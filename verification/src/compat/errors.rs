//! Error types for the `fitsio`-style API.
use vstd::prelude::*;

verus! {

/// All errors that can occur in the `fitsio`-style API.
#[derive(Debug)]
pub enum Error {
    /// An error from the core library.
    Fits(crate::error::Error),
    /// A standard I/O error.
    Io(std::io::Error),
    /// A free-form error message.
    Message(String),
}

/// Convenience result type for the `fitsio`-style API.
pub type Result<T> = core::result::Result<T, Error>;

/// The `Display` text of an error: `FITS error: ` and the core message, `I/O
/// error: ` and the I/O error's text, or the message itself.
pub open spec fn spec_compat_message(e: Error) -> Seq<char> {
    match e {
        Error::Fits(inner) => "FITS error: "@ + crate::error::spec_message(inner),
        Error::Io(_) => "I/O error: "@,
        Error::Message(s) => s@,
    }
}

impl Error {
    /// The error's message (its `Display` text). For an I/O error, the text
    /// after `I/O error: ` is the I/O error's own.
    pub fn message(&self) -> (r: String)
        ensures
            !(self is Io) && !(self matches Error::Fits(crate::error::Error::Io(_))) ==> r@ == spec_compat_message(*self),
            self is Io ==> r@.len() >= 11 && r@.subrange(0, 11) == "I/O error: "@,
    {
        match self {
            Error::Fits(inner) => {
                let mut s = String::from_str("FITS error: ");
                let m = inner.message();
                s.append(m.as_str());
                s
            },
            Error::Io(e) => {
                let mut s = String::from_str("I/O error: ");
                let t = io_text(e);
                proof { reveal_strlit("I/O error: "); }
                let ghost before = s@;
                s.append(t.as_str());
                assert(s@.subrange(0, 11) =~= before);
                s
            },
            Error::Message(m) => m.clone(),
        }
    }

    /// Whether the error has an underlying cause (`std::error::Error::source`):
    /// true for core and I/O errors, false for a message.
    pub fn has_source(&self) -> (r: bool)
        ensures
            r == !(self is Message),
    {
        match self {
            Error::Message(_) => false,
            _ => true,
        }
    }
}

/// The `Display` text of an I/O error (`ToString::to_string`).
#[verifier::external_body]
fn io_text(e: &std::io::Error) -> String {
    e.to_string()
}

impl From<crate::error::Error> for Error {
    fn from(e: crate::error::Error) -> (r: Self) {
        Error::Fits(e)
    }
}

impl vstd::std_specs::convert::FromSpecImpl<crate::error::Error> for Error {
    open spec fn obeys_from_spec() -> bool {
        true
    }

    open spec fn from_spec(e: crate::error::Error) -> Self {
        Error::Fits(e)
    }
}

impl From<std::io::Error> for Error {
    fn from(e: std::io::Error) -> (r: Self) {
        Error::Io(e)
    }
}

impl vstd::std_specs::convert::FromSpecImpl<std::io::Error> for Error {
    open spec fn obeys_from_spec() -> bool {
        true
    }

    open spec fn from_spec(e: std::io::Error) -> Self {
        Error::Io(e)
    }
}

} // verus!
