use fitsio_pure::compat::fitsfile::{FileOpenMode, FitsFile};
use fitsio_pure::compat::hdu::HduInfo;
use fitsio_pure::compat::headers::{ReadsKey, WritesKey};
use fitsio_pure::compat::images::{int_equivalent, pixels_in_reach_exec, ImageDescription, ImageType, ReadImage, WriteImage};
use fitsio_pure::compat::images::ImageType::{Byte, Float, Long, Short, UnsignedByte, UnsignedLong, UnsignedShort};
use fitsio_pure::image::{read_image_data, ImageData};
use fitsio_pure::header::{kw, serialize_header, Card};
use fitsio_pure::value::Value;
use fitsio_pure::bintable::{serialize_binary_table_hdu, BinaryColumnData, BinaryColumnDescriptor, BinaryColumnType};
use fitsio_pure::compat::tables::{column_in_reach_exec, ReadsCol};
use fitsio_pure::compat::hdu::FitsHdu;

fn created(path: &str) -> FitsFile {
    FitsFile::create(path).into_file().unwrap()
}

#[test]
fn create_and_open() {
    let f = created("test.fits");
    assert_eq!(f.mode(), FileOpenMode::ReadWrite);
    assert!(f.data().len() >= 2880);
}

#[test]
fn primary_hdu() {
    let f = created("test.fits");
    let hdu = f.primary_hdu().unwrap();
    assert_eq!(hdu.hdu_index, 0);
}

#[test]
fn num_hdus() {
    let f = created("test.fits");
    assert_eq!(f.num_hdus().unwrap(), 1);
}

#[test]
fn create_image_extension() {
    let mut f = created("test.fits");
    let desc = ImageDescription { data_type: ImageType::Float, dimensions: vec![10, 10] };
    let hdu = f.create_image("SCI", &desc).unwrap();
    assert_eq!(hdu.hdu_index, 1);
    assert_eq!(f.num_hdus().unwrap(), 2);
}

#[test]
fn hdu_by_name() {
    let mut f = created("test.fits");
    let desc = ImageDescription { data_type: ImageType::Float, dimensions: vec![10] };
    f.create_image("SCI", &desc).unwrap();
    let hdu = f.hdu("SCI").unwrap();
    assert_eq!(hdu.hdu_index, 1);
}

#[test]
fn hdu_by_index() {
    let f = created("test.fits");
    let hdu = f.hdu(0usize).unwrap();
    assert_eq!(hdu.hdu_index, 0);
}

#[test]
fn hdu_not_found() {
    let f = created("test.fits");
    assert!(f.hdu("MISSING").is_err());
}

#[test]
fn iter_hdus() {
    let mut f = created("test.fits");
    let desc = ImageDescription { data_type: ImageType::Short, dimensions: vec![5] };
    f.create_image("EXT1", &desc).unwrap();
    f.create_image("EXT2", &desc).unwrap();
    let hdus = f.iter().unwrap();
    assert_eq!(hdus.len(), 3);
}

#[test]
fn hdu_info_primary_empty() {
    let f = created("test.fits");
    let hdu = f.primary_hdu().unwrap();
    let info = hdu.info(&f).unwrap();
    match info {
        HduInfo::ImageInfo { shape, .. } => {
            assert!(shape.is_empty());
        }
        _ => panic!("Expected ImageInfo"),
    }
}

#[test]
fn hdu_read_write_key() {
    let mut f = created("test.fits");
    let hdu = f.primary_hdu().unwrap();
    hdu.write_key(&mut f, "TESTVAL", &42i64).unwrap();
    let val: i64 = hdu.read_key(&f, "TESTVAL").unwrap();
    assert_eq!(val, 42);
}

#[test]
fn read_write_integer_key() {
    let mut f = created("test.fits");
    let hdu = f.primary_hdu().unwrap();
    i64::write_key(&mut f, &hdu, "TESTKEY", &42).unwrap();
    let val = i64::read_key(&f, &hdu, "TESTKEY").unwrap();
    assert_eq!(val, 42);
}

#[test]
fn read_write_bool_key() {
    let mut f = created("test.fits");
    let hdu = f.primary_hdu().unwrap();
    bool::write_key(&mut f, &hdu, "FLAG", &true).unwrap();
    let val = bool::read_key(&f, &hdu, "FLAG").unwrap();
    assert!(val);
}

#[test]
fn read_write_string_key() {
    let mut f = created("test.fits");
    let hdu = f.primary_hdu().unwrap();
    String::write_key(&mut f, &hdu, "OBJECT", &"NGC 1234".to_string()).unwrap();
    let val = String::read_key(&f, &hdu, "OBJECT").unwrap();
    assert_eq!(val, "NGC 1234");
}

#[test]
fn read_missing_key_returns_error() {
    let f = created("test.fits");
    let hdu = f.primary_hdu().unwrap();
    assert!(i64::read_key(&f, &hdu, "MISSING").is_err());
}

#[test]
fn unsigned_short_image_stores_offset_values() {
    let mut f = created("u16.fits");
    let desc = ImageDescription { data_type: ImageType::UnsignedShort, dimensions: vec![3] };
    let hdu = f.create_image("SCI", &desc).unwrap();
    u16::write_image(&mut f, &hdu, &[0u16, 32768, 65535]).unwrap();
    let bzero: i64 = i64::read_key(&f, &hdu, "BZERO").unwrap();
    assert_eq!(bzero, 32768);
    let parsed = fitsio_pure::hdu::parse_fits(f.data()).unwrap();
    let raw = read_image_data(f.data(), &parsed.hdus[hdu.hdu_index]).unwrap();
    assert_eq!(raw, ImageData::I16(vec![-32768, 0, 32767]));
    match hdu.info(&f).unwrap() {
        HduInfo::ImageInfo { image_type, .. } => assert_eq!(image_type, ImageType::UnsignedShort),
        _ => panic!("expected an image"),
    }
}

#[test]
fn byte_and_unsigned_images_carry_bzero() {
    let mut f = created("b.fits");
    let desc = ImageDescription { data_type: ImageType::Byte, dimensions: vec![2] };
    let hdu = f.create_image("B", &desc).unwrap();
    assert_eq!(i64::read_key(&f, &hdu, "BZERO").unwrap(), -128);
    i8::write_image(&mut f, &hdu, &[-128i8, 127]).unwrap();
    let parsed = fitsio_pure::hdu::parse_fits(f.data()).unwrap();
    let raw = read_image_data(f.data(), &parsed.hdus[hdu.hdu_index]).unwrap();
    assert_eq!(raw, ImageData::U8(vec![0, 255]));
    let desc = ImageDescription { data_type: ImageType::UnsignedLong, dimensions: vec![1] };
    let hdu = f.create_image("L", &desc).unwrap();
    assert_eq!(i64::read_key(&f, &hdu, "BZERO").unwrap(), 2147483648);
    let desc = ImageDescription { data_type: ImageType::Short, dimensions: vec![1] };
    let hdu = f.create_image("S", &desc).unwrap();
    assert!(i64::read_key(&f, &hdu, "BZERO").is_err());
}

#[test]
fn read_applies_bscale_and_bzero() {
    let mut f = created("scaled.fits");
    let desc = ImageDescription { data_type: ImageType::Short, dimensions: vec![3] };
    let hdu = f.create_image("SCI", &desc).unwrap();
    i16::write_image(&mut f, &hdu, &[0, 1, 2]).unwrap();
    hdu.write_key(&mut f, "BSCALE", &2i64).unwrap();
    hdu.write_key(&mut f, "BZERO", &100i64).unwrap();

    assert_eq!(i32::read_image(&f, &hdu).unwrap(), vec![100, 102, 104]);
    match hdu.info(&f).unwrap() {
        HduInfo::ImageInfo { image_type, .. } => assert_eq!(image_type, ImageType::Long),
        _ => panic!("expected an image"),
    }
}

#[test]
fn integer_equivalent_types() {
    for &(stored, bscale, bzero, want) in &[
        (Short, 1i128, 0i128, Short),
        (Short, 1, 32_768, UnsignedShort),
        (Short, 2, 32_768, Long),
        (Short, 1, 100, Long),
        (UnsignedByte, 1, -128, Byte),
        (Long, 1, 2_147_483_648, UnsignedLong),
        (Float, 2, 1, Float),
        (Short, 1, 3_000_000_000, Float),
    ] {
        assert_eq!(int_equivalent(stored, bscale, bzero), want);
    }
}

fn typed_table(f: &mut FitsFile) -> FitsHdu {
    let columns = vec![
        BinaryColumnDescriptor {
            name: Some(String::from("NAME")),
            repeat: 6,
            col_type: BinaryColumnType::Ascii,
            byte_width: 6,
        },
        BinaryColumnDescriptor {
            name: Some(String::from("FLAG")),
            repeat: 1,
            col_type: BinaryColumnType::Logical,
            byte_width: 1,
        },
    ];
    let col_data = vec![
        BinaryColumnData::Ascii(vec![String::from("alpha"), String::from("be"), String::from("gamma")]),
        BinaryColumnData::Logical(vec![true, false, true]),
    ];
    let hdu_bytes = serialize_binary_table_hdu(&columns, &col_data, 3).unwrap();
    let mut data = f.data().to_vec();
    data.extend_from_slice(&hdu_bytes);
    f.set_data(data);
    f.hdu(1usize).unwrap()
}

#[test]
fn read_string_and_bool_columns() {
    let mut f = created("table.fits");
    let hdu = typed_table(&mut f);
    assert!(column_in_reach_exec(&f, 1, "NAME"));
    let names: Vec<String> = hdu.read_col(&f, "NAME").unwrap();
    assert_eq!(names, vec![String::from("alpha"), String::from("be"), String::from("gamma")]);
    let flags: Vec<bool> = hdu.read_col(&f, "FLAG").unwrap();
    assert_eq!(flags, vec![true, false, true]);
}

#[test]
fn read_column_of_wrong_kind_is_error() {
    let mut f = created("table.fits");
    let hdu = typed_table(&mut f);
    let e = bool::read_col(&f, &hdu, "NAME").unwrap_err();
    assert_eq!(e.message(), "column is not boolean type");
    let e = String::read_col(&f, &hdu, "FLAG").unwrap_err();
    assert_eq!(e.message(), "column is not string type");
}

#[test]
fn read_missing_column_names_it() {
    let mut f = created("table.fits");
    let hdu = typed_table(&mut f);
    let e = String::read_col(&f, &hdu, "MISSING").unwrap_err();
    assert_eq!(e.message(), "column 'MISSING' not found");
    let primary = f.primary_hdu().unwrap();
    let e = bool::read_col(&f, &primary, "FLAG").unwrap_err();
    assert_eq!(e.message(), "HDU is not a table");
}

#[test]
fn u16_uses_cfitsio_storage_convention() {
    let mut f = created("u16.fits");
    let desc = ImageDescription { data_type: ImageType::UnsignedShort, dimensions: vec![3] };
    let hdu = f.create_image("SCI", &desc).unwrap();
    u16::write_image(&mut f, &hdu, &[0u16, 32768, 65535]).unwrap();

    let bzero: i64 = i64::read_key(&f, &hdu, "BZERO").unwrap();
    assert_eq!(bzero, 32768);

    let parsed = fitsio_pure::hdu::parse_fits(f.data()).unwrap();
    let raw = read_image_data(f.data(), &parsed.hdus[hdu.hdu_index]).unwrap();
    assert_eq!(raw, ImageData::I16(vec![-32768, 0, 32767]));

    assert!(i16::read_image(&f, &hdu).is_err());
}

#[test]
fn create_and_read_image_u8() {
    let mut f = created("img.fits");
    let desc = ImageDescription { data_type: ImageType::UnsignedByte, dimensions: vec![4] };
    let hdu = f.create_image("RAW", &desc).unwrap();
    let pixels: Vec<u8> = vec![0, 127, 200, 255];
    u8::write_image(&mut f, &hdu, &pixels).unwrap();

    let read_back = u8::read_image(&f, &hdu).unwrap();
    assert_eq!(read_back, pixels);
}

fn roundtrip_unsigned<T>(data_type: ImageType, pixels: Vec<T>)
where
    T: ReadImage + WriteImage + Clone + PartialEq + std::fmt::Debug,
{
    let mut f = created("img.fits");
    let desc = ImageDescription { data_type, dimensions: vec![pixels.len()] };
    let hdu = f.create_image("SCI", &desc).unwrap();
    <T as WriteImage>::write_image(&mut f, &hdu, &pixels).unwrap();

    let read_back = <T as ReadImage>::read_image(&f, &hdu).unwrap();
    assert_eq!(read_back, pixels);
}

#[test]
fn create_and_read_image_u16() {
    roundtrip_unsigned::<u16>(ImageType::UnsignedShort, vec![0, 1, 32767, 32768, 40000, 65535]);
}

#[test]
fn create_and_read_image_u32() {
    roundtrip_unsigned::<u32>(ImageType::UnsignedLong, vec![0, 1, 2_147_483_647, 2_147_483_648, u32::MAX]);
}

#[test]
fn create_and_read_image_i8() {
    roundtrip_unsigned::<i8>(ImageType::Byte, vec![-128, -1, 0, 1, 127]);
}

#[test]
fn read_image_applies_integer_bzero() {
    let mut f = created("img.fits");
    let desc = ImageDescription { data_type: ImageType::Short, dimensions: vec![3] };
    let hdu = f.create_image("SCI", &desc).unwrap();
    i16::write_image(&mut f, &hdu, &[0, 1, 2]).unwrap();
    hdu.write_key(&mut f, "BZERO", &100i64).unwrap();
    assert!(pixels_in_reach_exec(&f, hdu.hdu_index));
    assert_eq!(i32::read_image(&f, &hdu).unwrap(), vec![100, 101, 102]);
    let e = u8::read_image(&f, &hdu);
    assert!(e.is_ok());
    hdu.write_key(&mut f, "BZERO", &300i64).unwrap();
    let e = u8::read_image(&f, &hdu).unwrap_err();
    assert_eq!(e.message(), "pixel value out of range for u8");
}

#[test]
fn read_image_of_float_pixels_needs_floating_point() {
    let mut f = created("img.fits");
    let desc = ImageDescription { data_type: ImageType::Float, dimensions: vec![3] };
    let hdu = f.create_image("SCI", &desc).unwrap();
    let e = i32::read_image(&f, &hdu).unwrap_err();
    assert_eq!(e.message(), "scaled pixel values need floating point");
}

#[test]
fn read_image_scales_with_negative_bscale() {
    let mut f = created("img.fits");
    let desc = ImageDescription { data_type: ImageType::Short, dimensions: vec![3] };
    let hdu = f.create_image("SCI", &desc).unwrap();
    i16::write_image(&mut f, &hdu, &[-3, 0, 5]).unwrap();
    hdu.write_key(&mut f, "BSCALE", &-3i64).unwrap();
    hdu.write_key(&mut f, "BZERO", &7i64).unwrap();
    assert_eq!(i64::read_image(&f, &hdu).unwrap(), vec![16, 7, -8]);
    let e = u8::read_image(&f, &hdu).unwrap_err();
    assert_eq!(e.message(), "pixel value out of range for u8");
}

#[test]
fn create_and_read_image_u64() {
    roundtrip_unsigned::<u64>(
        ImageType::UnsignedLongLong,
        vec![0, 1, 9_223_372_036_854_775_807, 9_223_372_036_854_775_808, u64::MAX],
    );
}

fn scaled_primary(bscale: Value, bzero: Value) -> FitsFile {
    let card = |k: &str, v: Value| Card { keyword: kw(k.as_bytes()), value: Some(v), comment: None };
    let cards = vec![
        card("SIMPLE", Value::Logical(true)),
        card("BITPIX", Value::Integer(16)),
        card("NAXIS", Value::Integer(1)),
        card("NAXIS1", Value::Integer(3)),
        card("BSCALE", bscale),
        card("BZERO", bzero),
    ];
    let mut data = serialize_header(&cards);
    for raw in [1i16, 2, 3] {
        data.extend_from_slice(&raw.to_be_bytes());
    }
    data.resize(2 * 2880, 0);
    FitsFile::from_bytes(data, String::from("scaled.fits"), FileOpenMode::ReadOnly)
}

#[test]
fn info_with_fractional_scale_is_float() {
    let f = scaled_primary(Value::Float(String::from("0.5")), Value::Integer(0));
    let hdu = f.primary_hdu().unwrap();
    match hdu.info(&f).unwrap() {
        HduInfo::ImageInfo { image_type, .. } => assert_eq!(image_type, ImageType::Float),
        _ => panic!("expected an image"),
    }
    assert!(i32::read_image(&f, &hdu).is_err());
}

#[test]
fn integral_real_scale_reads_exactly() {
    let f = scaled_primary(Value::Float(String::from("2.0")), Value::Float(String::from("32768.")));
    let hdu = f.primary_hdu().unwrap();
    assert_eq!(i64::read_image(&f, &hdu).unwrap(), vec![32770, 32772, 32774]);
    match hdu.info(&f).unwrap() {
        HduInfo::ImageInfo { image_type, .. } => assert_eq!(image_type, ImageType::Long),
        _ => panic!("expected an image"),
    }
}
