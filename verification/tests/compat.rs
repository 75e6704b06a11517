use fitsio_pure::compat::errors::Error;
use fitsio_pure::compat::headers::HeaderValue;
use fitsio_pure::compat::images::ImageType;
use fitsio_pure::compat::tables::{ColumnDataDescription, ColumnDataType, ColumnDescription};

#[test]
fn from_fits_error() {
    let e: Error = fitsio_pure::Error::InvalidHeader.into();
    assert!(matches!(e, Error::Fits(fitsio_pure::Error::InvalidHeader)));
}

#[test]
fn from_io_error() {
    let io_err = std::io::Error::new(std::io::ErrorKind::NotFound, "not found");
    let e: Error = io_err.into();
    assert!(matches!(e, Error::Io(_)));
}

#[test]
fn display_fits_error() {
    let e = Error::Fits(fitsio_pure::Error::InvalidHeader);
    let s = e.message();
    assert!(s.contains("FITS error"));
}

#[test]
fn errors_display_io_error() {
    let io_err = std::io::Error::new(std::io::ErrorKind::NotFound, "gone");
    let e = Error::Io(io_err);
    let s = e.message();
    assert!(s.contains("I/O error"));
}

#[test]
fn display_message() {
    let e = Error::Message("something went wrong".into());
    assert_eq!(e.message(), "something went wrong");
}

#[test]
fn error_source() {
    let e = Error::Message("msg".into());
    assert!(!e.has_source());

    let e = Error::Fits(fitsio_pure::Error::InvalidHeader);
    assert!(e.has_source());
}

#[test]
fn header_value_struct() {
    let hv = HeaderValue {
        value: 42i64,
        comment: Some("the answer".to_string()),
    };
    assert_eq!(hv.value, 42);
    assert_eq!(hv.comment.as_deref(), Some("the answer"));
}

#[test]
fn image_type_bitpix_roundtrip() {
    for &(it, bp) in &[
        (ImageType::UnsignedByte, 8),
        (ImageType::Short, 16),
        (ImageType::Long, 32),
        (ImageType::LongLong, 64),
        (ImageType::Float, -32),
        (ImageType::Double, -64),
    ] {
        assert_eq!(it.to_bitpix(), bp);
        assert_eq!(ImageType::from_bitpix(bp).unwrap(), it);
    }
}

#[test]
fn invalid_bitpix() {
    assert!(ImageType::from_bitpix(7).is_err());
}

#[test]
fn column_description_to_concrete() {
    let desc = ColumnDescription {
        name: "X".to_string(),
        data_type: ColumnDataDescription::new(ColumnDataType::Int),
    };
    let concrete = desc.to_concrete();
    assert_eq!(concrete.name, "X");
    assert_eq!(concrete.data_type, ColumnDataType::Int);
    assert_eq!(concrete.repeat, 1);
}

#[test]
fn column_data_description_builder() {
    let desc = ColumnDataDescription::new(ColumnDataType::String)
        .with_repeat(20)
        .with_width(20);
    assert_eq!(desc.data_type, ColumnDataType::String);
    assert_eq!(desc.repeat, 20);
    assert_eq!(desc.width, 20);
}

#[test]
fn mod_reexports_core() {
    assert_eq!(fitsio_pure::BLOCK_SIZE, 2880);
}

#[test]
fn lib_reexports_core() {
    assert_eq!(fitsio_pure::BLOCK_SIZE, 2880);
}
