use fitsio_pure::error::Error;
use fitsio_pure::error::Result;


#[test]
fn display_invalid_header() {
    let e = Error::InvalidHeader;
    assert_eq!(e.message(), "invalid FITS header");
}

#[test]
fn display_unexpected_eof() {
    let e = Error::UnexpectedEof;
    assert_eq!(e.message(), "unexpected end of file");
}

#[test]
fn display_invalid_bitpix() {
    let e = Error::InvalidBitpix(-99);
    assert_eq!(e.message(), "invalid BITPIX value: -99");
}

#[test]
fn display_invalid_keyword() {
    let e = Error::InvalidKeyword;
    assert_eq!(e.message(), "invalid keyword name");
}

#[test]
fn display_unsupported_extension() {
    let e = Error::UnsupportedExtension;
    assert_eq!(e.message(), "unsupported XTENSION type");
}

#[test]
fn display_invalid_value() {
    let e = Error::InvalidValue;
    assert_eq!(e.message(), "invalid header value");
}

#[test]
fn display_missing_keyword() {
    let e = Error::MissingKeyword("NAXIS");
    assert_eq!(e.message(), "missing required keyword: NAXIS");
}

#[test]
fn error_display_io_error() {
    let io_err = std::io::Error::new(std::io::ErrorKind::NotFound, "file not found");
    let e = Error::Io(io_err);
    assert_eq!(e.message(), "I/O error: file not found");
}

#[test]
fn io_error_from_conversion() {
    let io_err = std::io::Error::other("oops");
    let e: Error = io_err.into();
    assert!(matches!(e, Error::Io(_)));
}

#[test]
fn result_type_alias() {
    let ok: Result<u32> = Ok(42);
    assert!(ok.is_ok());

    let err: Result<u32> = Err(Error::InvalidHeader);
    assert!(err.is_err());
}

#[test]
fn debug_formatting() {
    let e = Error::InvalidBitpix(99);
    let debug = format!("{e:?}");
    assert!(debug.contains("InvalidBitpix"));
    assert!(debug.contains("99"));
}

#[test]
fn std_error_source() {
    let e = Error::InvalidHeader;
    assert!(!e.has_source());

    let io_err = std::io::Error::other("inner");
    let e = Error::Io(io_err);
    assert!(e.has_source());
}

