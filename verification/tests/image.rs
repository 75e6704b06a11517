use fitsio_pure::endian::write_u64_be;
use fitsio_pure::endian::write_u32_be;
use fitsio_pure::endian::read_u64_be;
use fitsio_pure::endian::read_u32_be;
use fitsio_pure::block::BLOCK_SIZE;
use fitsio_pure::header::Card;
use fitsio_pure::hdu::Hdu;
use fitsio_pure::hdu::HduInfo;
use fitsio_pure::image::ImageData;
use fitsio_pure::value::Value;
use fitsio_pure::io::Write;
use fitsio_pure::image::blank_mask;
use fitsio_pure::image::build_image_hdu;
use fitsio_pure::primary::build_primary_header;
use fitsio_pure::image::bytes_per_pixel;
use fitsio_pure::image::extract_blank;
use fitsio_pure::image::image_dimensions;
use fitsio_pure::block::padded_byte_len;
use fitsio_pure::hdu::parse_fits;
use fitsio_pure::endian::read_i16_be;
use fitsio_pure::endian::read_i32_be;
use fitsio_pure::image::read_image_data;
use fitsio_pure::image::read_image_region;
use fitsio_pure::image::read_image_rows;
use fitsio_pure::image::read_image_section;
use fitsio_pure::header::serialize_header;
use fitsio_pure::image::serialize_image_f32;
use fitsio_pure::image::serialize_image_f64;
use fitsio_pure::image::serialize_image_i16;
use fitsio_pure::image::serialize_image_i32;
use fitsio_pure::image::serialize_image_i64;
use fitsio_pure::image::serialize_image_u8;
use fitsio_pure::endian::write_i16_be;
use fitsio_pure::endian::write_i32_be;
use fitsio_pure::endian::write_i64_be;


// --- Floating-point pixels travel as their IEEE bit patterns ---

fn write_f32_be(buf: &mut [u8], v: f32) {
    write_u32_be(buf, v.to_bits());
}

fn write_f64_be(buf: &mut [u8], v: f64) {
    write_u64_be(buf, v.to_bits());
}

fn read_f32_be(buf: &[u8]) -> f32 {
    f32::from_bits(read_u32_be(buf))
}

fn read_f64_be(buf: &[u8]) -> f64 {
    f64::from_bits(read_u64_be(buf))
}

fn bits32(v: &[f32]) -> Vec<u32> {
    v.iter().map(|x| x.to_bits()).collect()
}

fn bits64(v: &[f64]) -> Vec<u64> {
    v.iter().map(|x| x.to_bits()).collect()
}

fn f32_image(v: Vec<f32>) -> ImageData {
    ImageData::F32(bits32(&v))
}

fn f64_image(v: Vec<f64>) -> ImageData {
    ImageData::F64(bits64(&v))
}

/// Pad a keyword name to 8 bytes with trailing spaces.
fn kw(name: &[u8]) -> [u8; 8] {
    let mut buf = [b' '; 8];
    let len = name.len().min(8);
    buf[..len].copy_from_slice(&name[..len]);
    buf
}

fn card(keyword: &str, value: Value) -> Card {
    Card {
        keyword: kw(keyword.as_bytes()),
        value: Some(value),
        comment: None,
    }
}

fn primary_header_image(bitpix: i64, dims: &[usize]) -> Vec<Card> {
    let mut cards = vec![
        card("SIMPLE", Value::Logical(true)),
        card("BITPIX", Value::Integer(bitpix)),
        card("NAXIS", Value::Integer(dims.len() as i64)),
    ];
    for (i, &d) in dims.iter().enumerate() {
        let name = std::format!("NAXIS{}", i + 1);
        cards.push(card(&name, Value::Integer(d as i64)));
    }
    cards
}

/// Build a FITS byte buffer from header cards and raw data bytes.
fn build_fits(header_cards: &[Card], data: &[u8]) -> Vec<u8> {
    let header = serialize_header(header_cards);
    let padded_data_len = padded_byte_len(data.len());
    let mut result = Vec::with_capacity(header.len() + padded_data_len);
    result.extend_from_slice(&header);
    result.resize(header.len() + padded_data_len, 0u8);
    result[header.len()..header.len() + data.len()].copy_from_slice(data);
    result
}

/// Parse primary HDU from a FITS byte buffer.
fn parse_primary(data: &[u8]) -> Hdu {
    fitsio_pure::hdu::parse_fits(data)
        .unwrap()
        .hdus
        .into_iter()
        .next()
        .unwrap()
}

// ---- BITPIX 8 (u8) ----

#[test]
fn read_u8_image() {
    let pixels: Vec<u8> = vec![0, 1, 127, 255];
    let cards = primary_header_image(8, &[4]);
    let fits = build_fits(&cards, &pixels);
    let hdu = parse_primary(&fits);

    let data = read_image_data(&fits, &hdu).unwrap();
    assert_eq!(data, ImageData::U8(vec![0, 1, 127, 255]));
}

// ---- BITPIX 16 (i16) ----

#[test]
fn read_i16_image() {
    let values: [i16; 4] = [0, 1, -1, i16::MAX];
    let mut raw = vec![0u8; 8];
    for (i, &v) in values.iter().enumerate() {
        write_i16_be(&mut raw[i * 2..], v);
    }

    let cards = primary_header_image(16, &[4]);
    let fits = build_fits(&cards, &raw);
    let hdu = parse_primary(&fits);

    let data = read_image_data(&fits, &hdu).unwrap();
    assert_eq!(data, ImageData::I16(vec![0, 1, -1, i16::MAX]));
}

// ---- BITPIX 32 (i32) ----

#[test]
fn read_i32_image() {
    let values: [i32; 3] = [0, -42, i32::MAX];
    let mut raw = vec![0u8; 12];
    for (i, &v) in values.iter().enumerate() {
        write_i32_be(&mut raw[i * 4..], v);
    }

    let cards = primary_header_image(32, &[3]);
    let fits = build_fits(&cards, &raw);
    let hdu = parse_primary(&fits);

    let data = read_image_data(&fits, &hdu).unwrap();
    assert_eq!(data, ImageData::I32(vec![0, -42, i32::MAX]));
}

// ---- BITPIX 64 (i64) ----

#[test]
fn read_i64_image() {
    let values: [i64; 2] = [i64::MIN, i64::MAX];
    let mut raw = vec![0u8; 16];
    for (i, &v) in values.iter().enumerate() {
        write_i64_be(&mut raw[i * 8..], v);
    }

    let cards = primary_header_image(64, &[2]);
    let fits = build_fits(&cards, &raw);
    let hdu = parse_primary(&fits);

    let data = read_image_data(&fits, &hdu).unwrap();
    assert_eq!(data, ImageData::I64(vec![i64::MIN, i64::MAX]));
}

// ---- BITPIX -32 (f32) ----

#[test]
fn read_f32_image() {
    let values: [f32; 3] = [0.0, 1.5, -42.25];
    let mut raw = vec![0u8; 12];
    for (i, &v) in values.iter().enumerate() {
        write_f32_be(&mut raw[i * 4..], v);
    }

    let cards = primary_header_image(-32, &[3]);
    let fits = build_fits(&cards, &raw);
    let hdu = parse_primary(&fits);

    let data = read_image_data(&fits, &hdu).unwrap();
    assert_eq!(data, f32_image(vec![0.0, 1.5, -42.25]));
}

// ---- BITPIX -64 (f64) ----

#[test]
fn read_f64_image() {
    let values: [f64; 2] = [core::f64::consts::FRAC_1_SQRT_2, -1e100];
    let mut raw = vec![0u8; 16];
    for (i, &v) in values.iter().enumerate() {
        write_f64_be(&mut raw[i * 8..], v);
    }

    let cards = primary_header_image(-64, &[2]);
    let fits = build_fits(&cards, &raw);
    let hdu = parse_primary(&fits);

    let data = read_image_data(&fits, &hdu).unwrap();
    assert_eq!(
        data,
        f64_image(vec![core::f64::consts::FRAC_1_SQRT_2, -1e100])
    );
}

// ---- Zero-size image ----

#[test]
fn read_zero_size_image() {
    let cards = primary_header_image(16, &[]);
    let fits = build_fits(&cards, &[]);
    let hdu = parse_primary(&fits);

    let data = read_image_data(&fits, &hdu).unwrap();
    assert_eq!(data, ImageData::I16(Vec::new()));
}

// ---- Single pixel ----

#[test]
fn read_single_pixel_u8() {
    let cards = primary_header_image(8, &[1]);
    let fits = build_fits(&cards, &[42]);
    let hdu = parse_primary(&fits);

    let data = read_image_data(&fits, &hdu).unwrap();
    assert_eq!(data, ImageData::U8(vec![42]));
}

#[test]
fn read_single_pixel_f32() {
    let mut raw = vec![0u8; 4];
    write_f32_be(&mut raw, 2.5);

    let cards = primary_header_image(-32, &[1]);
    let fits = build_fits(&cards, &raw);
    let hdu = parse_primary(&fits);

    let data = read_image_data(&fits, &hdu).unwrap();
    assert_eq!(data, f32_image(vec![2.5]));
}

// ---- 2D image ----

#[test]
fn read_2d_i16_image() {
    let width = 3;
    let height = 2;
    let pixel_count = width * height;
    let mut raw = vec![0u8; pixel_count * 2];
    for i in 0..pixel_count {
        write_i16_be(&mut raw[i * 2..], (i + 1) as i16);
    }

    let cards = primary_header_image(16, &[width, height]);
    let fits = build_fits(&cards, &raw);
    let hdu = parse_primary(&fits);

    let data = read_image_data(&fits, &hdu).unwrap();
    assert_eq!(data, ImageData::I16(vec![1, 2, 3, 4, 5, 6]));
}

// ---- BSCALE/BZERO ----

// ---- extract_bscale_bzero ----

// ---- read_image_physical ----

// ---- image_dimensions ----

#[test]
fn image_dimensions_2d() {
    let cards = primary_header_image(16, &[100, 200]);
    let fits = build_fits(&cards, &vec![0u8; 100 * 200 * 2]);
    let hdu = parse_primary(&fits);

    let dims = image_dimensions(&hdu).unwrap();
    assert_eq!(dims, vec![100, 200]);
}

#[test]
fn image_dimensions_0d() {
    let cards = primary_header_image(8, &[]);
    let fits = build_fits(&cards, &[]);
    let hdu = parse_primary(&fits);

    let dims = image_dimensions(&hdu).unwrap();
    assert!(dims.is_empty());
}

// ---- Invalid BITPIX ----

#[test]
fn read_image_data_invalid_bitpix() {
    // Build an HDU with a fake invalid bitpix by constructing one manually
    let hdu = Hdu {
        info: HduInfo::Primary {
            bitpix: 7,
            naxes: vec![10],
        },
        header_start: 0,
        data_start: 2880,
        data_len: 10,
        cards: vec![],
    };
    let fits = vec![0u8; 5760];
    let result = read_image_data(&fits, &hdu);
    assert!(result.is_err());
}

// ---- Truncated data ----

#[test]
fn read_image_data_truncated() {
    let hdu = Hdu {
        info: HduInfo::Primary {
            bitpix: 8,
            naxes: vec![100],
        },
        header_start: 0,
        data_start: 2880,
        data_len: 100,
        cards: vec![],
    };
    // Provide a buffer that is too small
    let fits = vec![0u8; 2900];
    let result = read_image_data(&fits, &hdu);
    assert!(result.is_err());
}

// ---- Non-image HDU ----

#[test]
fn image_dimensions_non_image_hdu() {
    let hdu = Hdu {
        info: HduInfo::AsciiTable {
            naxis1: 100,
            naxis2: 50,
            tfields: 5,
        },
        header_start: 0,
        data_start: 2880,
        data_len: 5000,
        cards: vec![],
    };
    assert!(image_dimensions(&hdu).is_err());
}

// ---- 3D cube ----

#[test]
fn read_3d_f32_cube() {
    let dims = [2, 2, 2];
    let pixel_count: usize = dims.iter().product();
    let mut raw = vec![0u8; pixel_count * 4];
    for i in 0..pixel_count {
        write_f32_be(&mut raw[i * 4..], (i as f32) + 0.5);
    }

    let cards = primary_header_image(-32, &dims);
    let fits = build_fits(&cards, &raw);
    let hdu = parse_primary(&fits);

    let data = read_image_data(&fits, &hdu).unwrap();
    let expected: Vec<f32> = (0..pixel_count).map(|i| (i as f32) + 0.5).collect();
    assert_eq!(data, f32_image(expected));
}

// ---- Empty zero-length BITPIX variants ----

#[test]
fn zero_length_all_bitpix_types() {
    for &bitpix in &[8i64, 16, 32, 64, -32, -64] {
        let cards = primary_header_image(bitpix, &[]);
        let fits = build_fits(&cards, &[]);
        let hdu = parse_primary(&fits);

        let data = read_image_data(&fits, &hdu).unwrap();
        match (bitpix, &data) {
            (8, ImageData::U8(v)) => assert!(v.is_empty()),
            (16, ImageData::I16(v)) => assert!(v.is_empty()),
            (32, ImageData::I32(v)) => assert!(v.is_empty()),
            (64, ImageData::I64(v)) => assert!(v.is_empty()),
            (-32, ImageData::F32(v)) => assert!(v.is_empty()),
            (-64, ImageData::F64(v)) => assert!(v.is_empty()),
            _ => panic!("Unexpected variant for bitpix={}", bitpix),
        }
    }
}

// ---- Write tests ----

#[test]
fn serialize_u8_roundtrip() {
    let pixels: Vec<u8> = (0..=255).collect();
    let bytes = serialize_image_u8(&pixels);
    assert_eq!(&bytes[..256], &pixels[..]);
}

#[test]
fn serialize_u8_padding() {
    let pixels = vec![42u8; 100];
    let bytes = serialize_image_u8(&pixels);
    assert_eq!(bytes.len(), fitsio_pure::block::BLOCK_SIZE);
    assert_eq!(&bytes[..100], &pixels[..]);
    for &b in &bytes[100..] {
        assert_eq!(b, 0);
    }
}

#[test]
fn serialize_i16_roundtrip() {
    let pixels: Vec<i16> = vec![0, 1, -1, i16::MIN, i16::MAX, 256, -256];
    let bytes = serialize_image_i16(&pixels);
    for (i, &expected) in pixels.iter().enumerate() {
        let actual = read_i16_be(&bytes[i * 2..]);
        assert_eq!(actual, expected);
    }
}

#[test]
fn serialize_i32_roundtrip() {
    let pixels: Vec<i32> = vec![0, 1, -1, i32::MIN, i32::MAX];
    let bytes = serialize_image_i32(&pixels);
    for (i, &expected) in pixels.iter().enumerate() {
        let actual = read_i32_be(&bytes[i * 4..]);
        assert_eq!(actual, expected);
    }
}

#[test]
fn serialize_f32_roundtrip() {
    let pixels: Vec<f32> = vec![0.0, 1.0, -1.0, f32::MAX, core::f32::consts::PI];
    let bytes = serialize_image_f32(&bits32(&pixels));
    for (i, &expected) in pixels.iter().enumerate() {
        let actual = read_f32_be(&bytes[i * 4..]);
        assert_eq!(actual, expected);
    }
}

#[test]
fn serialize_f64_roundtrip() {
    let pixels: Vec<f64> = vec![0.0, 1.0, -1.0, f64::MAX, core::f64::consts::PI];
    let bytes = serialize_image_f64(&bits64(&pixels));
    for (i, &expected) in pixels.iter().enumerate() {
        let actual = read_f64_be(&bytes[i * 8..]);
        assert_eq!(actual, expected);
    }
}

#[test]
fn serialize_empty_images() {
    assert!(serialize_image_u8(&[]).is_empty());
    assert!(serialize_image_i16(&[]).is_empty());
    assert!(serialize_image_i32(&[]).is_empty());
    assert!(serialize_image_i64(&[]).is_empty());
    assert!(serialize_image_f32(&[]).is_empty());
    assert!(serialize_image_f64(&[]).is_empty());
}

#[test]
fn all_serializers_block_aligned() {
    assert_eq!(
        serialize_image_u8(&[1; 100]).len() % fitsio_pure::block::BLOCK_SIZE,
        0
    );
    assert_eq!(
        serialize_image_i16(&[1; 100]).len() % fitsio_pure::block::BLOCK_SIZE,
        0
    );
    assert_eq!(
        serialize_image_i32(&[1; 100]).len() % fitsio_pure::block::BLOCK_SIZE,
        0
    );
    assert_eq!(
        serialize_image_i64(&[1; 100]).len() % fitsio_pure::block::BLOCK_SIZE,
        0
    );
    assert_eq!(
        serialize_image_f32(&[1.0f32.to_bits(); 100]).len() % fitsio_pure::block::BLOCK_SIZE,
        0
    );
    assert_eq!(
        serialize_image_f64(&[1.0f64.to_bits(); 100]).len() % fitsio_pure::block::BLOCK_SIZE,
        0
    );
}

#[test]
fn build_image_hdu_block_aligned() {
    let data = ImageData::U8(vec![1; 100]);
    let hdu = build_image_hdu(8, &[100], &data).unwrap();
    assert_eq!(hdu.len() % fitsio_pure::block::BLOCK_SIZE, 0);
}

#[test]
fn build_image_hdu_invalid_bitpix() {
    let data = ImageData::U8(vec![1]);
    assert!(build_image_hdu(12, &[1], &data).is_err());
}

// ---- Region/section/row tests ----

fn build_i16_image_fits(cols: usize, rows: usize) -> (Vec<u8>, Vec<i16>) {
    let cards = fitsio_pure::primary::build_primary_header(16, &[cols, rows]).unwrap();
    let n = cols * rows;
    let mut raw = vec![0u8; n * 2];
    let mut expected = Vec::with_capacity(n);
    for i in 0..n {
        let val = i as i16;
        write_i16_be(&mut raw[i * 2..], val);
        expected.push(val);
    }
    (build_fits(&cards, &raw), expected)
}

fn build_i16_cube_fits(nx: usize, ny: usize, nz: usize) -> (Vec<u8>, Vec<i16>) {
    let cards = fitsio_pure::primary::build_primary_header(16, &[nx, ny, nz]).unwrap();
    let n = nx * ny * nz;
    let mut raw = vec![0u8; n * 2];
    let mut expected = Vec::with_capacity(n);
    for i in 0..n {
        let val = i as i16;
        write_i16_be(&mut raw[i * 2..], val);
        expected.push(val);
    }
    (build_fits(&cards, &raw), expected)
}

#[test]
fn bpp_valid_values() {
    assert_eq!(bytes_per_pixel(8).unwrap(), 1);
    assert_eq!(bytes_per_pixel(16).unwrap(), 2);
    assert_eq!(bytes_per_pixel(32).unwrap(), 4);
    assert_eq!(bytes_per_pixel(64).unwrap(), 8);
    assert_eq!(bytes_per_pixel(-32).unwrap(), 4);
    assert_eq!(bytes_per_pixel(-64).unwrap(), 8);
}

#[test]
fn bpp_invalid() {
    assert!(bytes_per_pixel(0).is_err());
    assert!(bytes_per_pixel(7).is_err());
}

#[test]
fn section_full_image() {
    let (fits, expected) = build_i16_image_fits(10, 10);
    let parsed = fitsio_pure::hdu::parse_fits(&fits).unwrap();
    let hdu = parsed.primary();
    let data = read_image_section(&fits, hdu, 0, 100).unwrap();
    match data {
        ImageData::I16(v) => assert_eq!(v, expected),
        other => panic!("Expected I16, got {:?}", other),
    }
}

#[test]
fn section_partial() {
    let (fits, expected) = build_i16_image_fits(10, 10);
    let parsed = fitsio_pure::hdu::parse_fits(&fits).unwrap();
    let hdu = parsed.primary();
    let data = read_image_section(&fits, hdu, 5, 10).unwrap();
    match data {
        ImageData::I16(v) => assert_eq!(v, expected[5..15]),
        other => panic!("Expected I16, got {:?}", other),
    }
}

#[test]
fn section_out_of_bounds() {
    let (fits, _) = build_i16_image_fits(10, 10);
    let parsed = fitsio_pure::hdu::parse_fits(&fits).unwrap();
    let hdu = parsed.primary();
    assert!(read_image_section(&fits, hdu, 95, 10).is_err());
}

#[test]
fn rows_single() {
    let (fits, expected) = build_i16_image_fits(10, 5);
    let parsed = fitsio_pure::hdu::parse_fits(&fits).unwrap();
    let hdu = parsed.primary();
    let data = read_image_rows(&fits, hdu, 2, 1).unwrap();
    match data {
        ImageData::I16(v) => assert_eq!(v, expected[20..30]),
        other => panic!("Expected I16, got {:?}", other),
    }
}

#[test]
fn rows_1d_errors() {
    let cards = fitsio_pure::primary::build_primary_header(16, &[100]).unwrap();
    let raw = vec![0u8; 200];
    let fits = build_fits(&cards, &raw);
    let parsed = fitsio_pure::hdu::parse_fits(&fits).unwrap();
    let hdu = parsed.primary();
    assert!(read_image_rows(&fits, hdu, 0, 1).is_err());
}

#[test]
fn region_2d_subregion() {
    let (fits, _) = build_i16_image_fits(6, 5);
    let parsed = fitsio_pure::hdu::parse_fits(&fits).unwrap();
    let hdu = parsed.primary();
    let data = read_image_region(&fits, hdu, &[(1, 4), (2, 4)]).unwrap();
    match data {
        ImageData::I16(v) => {
            assert_eq!(v.len(), 6);
            assert_eq!(v, vec![13, 14, 15, 19, 20, 21]);
        }
        other => panic!("Expected I16, got {:?}", other),
    }
}

#[test]
fn region_3d_subregion() {
    let (fits, _) = build_i16_cube_fits(4, 3, 2);
    let parsed = fitsio_pure::hdu::parse_fits(&fits).unwrap();
    let hdu = parsed.primary();
    let data = read_image_region(&fits, hdu, &[(1, 3), (0, 2), (0, 2)]).unwrap();
    match data {
        ImageData::I16(v) => {
            assert_eq!(v.len(), 8);
            assert_eq!(v, vec![1, 2, 5, 6, 13, 14, 17, 18]);
        }
        other => panic!("Expected I16, got {:?}", other),
    }
}

#[test]
fn region_wrong_dim_count() {
    let (fits, _) = build_i16_image_fits(10, 10);
    let parsed = fitsio_pure::hdu::parse_fits(&fits).unwrap();
    let hdu = parsed.primary();
    assert!(read_image_region(&fits, hdu, &[(0, 10), (0, 10), (0, 1)]).is_err());
}

#[test]
fn region_empty_range() {
    let (fits, _) = build_i16_image_fits(10, 10);
    let parsed = fitsio_pure::hdu::parse_fits(&fits).unwrap();
    let hdu = parsed.primary();
    let data = read_image_region(&fits, hdu, &[(5, 5), (0, 10)]).unwrap();
    match data {
        ImageData::I16(v) => assert!(v.is_empty()),
        other => panic!("Expected I16, got {:?}", other),
    }
}

// ---- BLANK keyword ----

#[test]
fn extract_blank_present() {
    let cards = vec![
        card("SIMPLE", Value::Logical(true)),
        card("BITPIX", Value::Integer(16)),
        card("NAXIS", Value::Integer(1)),
        card("NAXIS1", Value::Integer(4)),
        card("BLANK", Value::Integer(-32768)),
    ];
    assert_eq!(extract_blank(&cards), Some(-32768));
}

#[test]
fn extract_blank_absent() {
    let cards = vec![
        card("SIMPLE", Value::Logical(true)),
        card("BITPIX", Value::Integer(16)),
        card("NAXIS", Value::Integer(0)),
    ];
    assert_eq!(extract_blank(&cards), None);
}

#[test]
fn blank_mask_i16() {
    let data = ImageData::I16(vec![1, -32768, 3, -32768]);
    let mask = blank_mask(&data, Some(-32768));
    assert_eq!(mask, Some(vec![false, true, false, true]));
}

#[test]
fn blank_mask_no_blank_keyword() {
    let data = ImageData::I16(vec![1, 2, 3]);
    assert!(blank_mask(&data, None).is_none());
}

#[test]
fn blank_mask_no_matches() {
    let data = ImageData::I16(vec![1, 2, 3]);
    assert!(blank_mask(&data, Some(-32768)).is_none());
}

#[test]
fn blank_mask_f32_nan() {
    let data = f32_image(vec![1.0, f32::NAN, 3.0]);
    let mask = blank_mask(&data, None);
    assert_eq!(mask, Some(vec![false, true, false]));
}

// ---- BSCALE/BZERO write path ----

// ---- read_image_data_into ----

