use fitsio_pure::block::padded_byte_len;
use fitsio_pure::hdu::{Hdu, HduInfo};
use fitsio_pure::header::{kw, serialize_header, Card};
use fitsio_pure::table::{
    ascii_column_readable_exec, ascii_table_readable_exec, build_ascii_table_cards, format_ascii_field, read_ascii_column,
    read_ascii_row, serialize_ascii_table, serialize_ascii_table_hdu, AsciiColumnData, AsciiColumnDescriptor,
    AsciiColumnFormat,
};
use fitsio_pure::value::Value;

fn mk_card(keyword: &str, value: Value) -> Card {
    Card { keyword: kw(keyword.as_bytes()), value: Some(value), comment: None }
}

fn build_table_cards(
    naxis1: usize,
    naxis2: usize,
    col_descs: &[(Option<&str>, &str, usize)],
) -> Vec<Card> {
    let tfields = col_descs.len();
    let mut cards = vec![
        mk_card("XTENSION", Value::String(String::from("TABLE"))),
        mk_card("BITPIX", Value::Integer(8)),
        mk_card("NAXIS", Value::Integer(2)),
        mk_card("NAXIS1", Value::Integer(naxis1 as i64)),
        mk_card("NAXIS2", Value::Integer(naxis2 as i64)),
        mk_card("PCOUNT", Value::Integer(0)),
        mk_card("GCOUNT", Value::Integer(1)),
        mk_card("TFIELDS", Value::Integer(tfields as i64)),
    ];
    for (i, (name, tform, tbcol)) in col_descs.iter().enumerate() {
        let n = i + 1;
        cards.push(mk_card(
            &format!("TFORM{}", n),
            Value::String(String::from(*tform)),
        ));
        cards.push(mk_card(
            &format!("TBCOL{}", n),
            Value::Integer(*tbcol as i64),
        ));
        if let Some(nm) = name {
            cards.push(mk_card(
                &format!("TTYPE{}", n),
                Value::String(String::from(*nm)),
            ));
        }
    }
    cards
}

fn find_card_integer(cards: &[Card], keyword: &str) -> Option<i64> {
    for c in cards {
        if c.keyword_str() == keyword {
            if let Some(Value::Integer(n)) = &c.value {
                return Some(*n);
            }
            return None;
        }
    }
    None
}

fn build_hdu(cards: Vec<Card>, data: &[u8]) -> (Vec<u8>, Hdu) {
    let header_bytes = serialize_header(&cards);
    let data_padded_len = padded_byte_len(data.len());
    let mut fits_data = Vec::with_capacity(header_bytes.len() + data_padded_len);
    fits_data.extend_from_slice(&header_bytes);
    fits_data.resize(header_bytes.len() + data_padded_len, 0u8);
    fits_data[header_bytes.len()..header_bytes.len() + data.len()].copy_from_slice(data);

    let naxis1 = find_card_integer(&cards, "NAXIS1").unwrap_or(0) as usize;
    let naxis2 = find_card_integer(&cards, "NAXIS2").unwrap_or(0) as usize;
    let tfields = find_card_integer(&cards, "TFIELDS").unwrap_or(0) as usize;

    let hdu = Hdu {
        info: HduInfo::AsciiTable { naxis1, naxis2, tfields },
        header_start: 0,
        data_start: header_bytes.len(),
        data_len: data.len(),
        cards,
    };
    (fits_data, hdu)
}

/// The value of a float field's text (FITS writes `D` for the exponent).
fn float_of(text: &str) -> f64 {
    text.replace('D', "E").replace('d', "e").parse::<f64>().unwrap()
}

fn table_hdu(cards: Vec<Card>, naxis1: usize, naxis2: usize, tfields: usize, header_len: usize) -> Hdu {
    Hdu {
        info: HduInfo::AsciiTable { naxis1, naxis2, tfields },
        header_start: 0,
        data_start: header_len,
        data_len: naxis1 * naxis2,
        cards,
    }
}

#[test]
fn read_column_character() {
    let naxis1 = 10;
    let naxis2 = 3;
    let cards = build_table_cards(naxis1, naxis2, &[(Some("NAME"), "A10", 1)]);

    let mut raw = vec![b' '; naxis1 * naxis2];
    raw[0..5].copy_from_slice(b"Hello");
    raw[10..15].copy_from_slice(b"World");
    raw[20..24].copy_from_slice(b"Test");

    let (fits_data, hdu) = build_hdu(cards, &raw);
    assert!(ascii_column_readable_exec(&fits_data, &hdu, 0));
    let col = read_ascii_column(&fits_data, &hdu, 0).unwrap();
    match col {
        AsciiColumnData::Character(vals) => {
            assert_eq!(vals.len(), 3);
            assert_eq!(vals[0], "Hello");
            assert_eq!(vals[1], "World");
            assert_eq!(vals[2], "Test");
        }
        other => panic!("Expected Character, got {:?}", other),
    }
}

#[test]
fn read_column_integer() {
    let naxis1 = 10;
    let naxis2 = 3;
    let cards = build_table_cards(naxis1, naxis2, &[(None, "I10", 1)]);

    let mut raw = vec![b' '; naxis1 * naxis2];
    let vals_str = ["        42", "      -999", "   1234567"];
    for (i, s) in vals_str.iter().enumerate() {
        raw[i * naxis1..i * naxis1 + 10].copy_from_slice(s.as_bytes());
    }

    let (fits_data, hdu) = build_hdu(cards, &raw);
    let col = read_ascii_column(&fits_data, &hdu, 0).unwrap();
    match col {
        AsciiColumnData::Integer(vals) => assert_eq!(vals, vec![42, -999, 1234567]),
        other => panic!("Expected Integer, got {:?}", other),
    }
}

#[test]
fn read_column_float_f() {
    let naxis1 = 12;
    let naxis2 = 2;
    let cards = build_table_cards(naxis1, naxis2, &[(None, "F12.4", 1)]);

    let mut raw = vec![b' '; naxis1 * naxis2];
    raw[0..11].copy_from_slice("    3.14160".as_bytes());
    raw[12..23].copy_from_slice("  -99.99000".as_bytes());

    let (fits_data, hdu) = build_hdu(cards, &raw);
    let col = read_ascii_column(&fits_data, &hdu, 0).unwrap();
    match col {
        AsciiColumnData::Float(vals) => {
            assert_eq!(vals.len(), 2);
            assert!((float_of(&vals[0]) - 3.14160).abs() < 1e-4);
            assert!((float_of(&vals[1]) - (-99.99)).abs() < 1e-2);
        }
        other => panic!("Expected Float, got {:?}", other),
    }
}

#[test]
fn read_column_float_e() {
    let naxis1 = 15;
    let naxis2 = 2;
    let cards = build_table_cards(naxis1, naxis2, &[(None, "E15.7", 1)]);

    let mut raw = vec![b' '; naxis1 * naxis2];
    raw[0..15].copy_from_slice("  1.2340000E+05".as_bytes());
    raw[15..30].copy_from_slice(" -6.7800000E-03".as_bytes());

    let (fits_data, hdu) = build_hdu(cards, &raw);
    let col = read_ascii_column(&fits_data, &hdu, 0).unwrap();
    match col {
        AsciiColumnData::Float(vals) => {
            assert_eq!(vals.len(), 2);
            assert!((float_of(&vals[0]) - 1.234e5).abs() < 1.0);
            assert!((float_of(&vals[1]) - (-6.78e-3)).abs() < 1e-6);
        }
        other => panic!("Expected Float, got {:?}", other),
    }
}

#[test]
fn read_column_double_d() {
    let naxis1 = 25;
    let naxis2 = 1;
    let cards = build_table_cards(naxis1, naxis2, &[(None, "D25.17", 1)]);

    let mut raw = vec![b' '; naxis1 * naxis2];
    let v1 = b" 3.14159265358979300D+00 ";
    assert_eq!(v1.len(), naxis1);
    raw[0..naxis1].copy_from_slice(v1);

    let (fits_data, hdu) = build_hdu(cards, &raw);
    let col = read_ascii_column(&fits_data, &hdu, 0).unwrap();
    match col {
        AsciiColumnData::Float(vals) => {
            assert_eq!(vals.len(), 1);
            assert!((float_of(&vals[0]) - core::f64::consts::PI).abs() < 1e-14);
        }
        other => panic!("Expected Float, got {:?}", other),
    }
}

#[test]
fn read_multi_column_table() {
    let naxis1 = 22;
    let naxis2 = 2;
    let cards = build_table_cards(
        naxis1,
        naxis2,
        &[(Some("NAME"), "A10", 1), (Some("ID"), "I4", 11), (Some("FLUX"), "E8.2", 15)],
    );

    let mut raw = vec![b' '; naxis1 * naxis2];
    raw[0..5].copy_from_slice(b"Alpha");
    raw[10..14].copy_from_slice(b" 100");
    raw[14..22].copy_from_slice(b"1.23E+01");
    raw[22..26].copy_from_slice(b"Beta");
    raw[32..36].copy_from_slice(b"  42");
    raw[36..44].copy_from_slice(b"-5.0E-02");

    let (fits_data, hdu) = build_hdu(cards, &raw);

    match read_ascii_column(&fits_data, &hdu, 0).unwrap() {
        AsciiColumnData::Character(vals) => {
            assert_eq!(vals[0], "Alpha");
            assert_eq!(vals[1], "Beta");
        }
        other => panic!("Expected Character, got {:?}", other),
    }
    match read_ascii_column(&fits_data, &hdu, 1).unwrap() {
        AsciiColumnData::Integer(vals) => {
            assert_eq!(vals[0], 100);
            assert_eq!(vals[1], 42);
        }
        other => panic!("Expected Integer, got {:?}", other),
    }
    match read_ascii_column(&fits_data, &hdu, 2).unwrap() {
        AsciiColumnData::Float(vals) => {
            assert!((float_of(&vals[0]) - 12.3).abs() < 0.1);
            assert!((float_of(&vals[1]) - (-0.05)).abs() < 0.01);
        }
        other => panic!("Expected Float, got {:?}", other),
    }
}

#[test]
fn read_row_basic() {
    let naxis1 = 18;
    let naxis2 = 2;
    let cards = build_table_cards(naxis1, naxis2, &[(Some("LABEL"), "A8", 1), (Some("COUNT"), "I10", 9)]);

    let mut raw = vec![b' '; naxis1 * naxis2];
    raw[0..4].copy_from_slice(b"Star");
    raw[8..18].copy_from_slice(b"       123");
    raw[18..24].copy_from_slice(b"Galaxy");
    raw[26..36].copy_from_slice(b"       456");

    let (fits_data, hdu) = build_hdu(cards, &raw);
    assert!(ascii_table_readable_exec(&fits_data, &hdu));

    let row0 = read_ascii_row(&fits_data, &hdu, 0).unwrap();
    assert_eq!(row0.len(), 2);
    assert_eq!(row0[0], AsciiColumnData::Character(vec![String::from("Star")]));
    assert_eq!(row0[1], AsciiColumnData::Integer(vec![123]));

    let row1 = read_ascii_row(&fits_data, &hdu, 1).unwrap();
    assert_eq!(row1[0], AsciiColumnData::Character(vec![String::from("Galaxy")]));
    assert_eq!(row1[1], AsciiColumnData::Integer(vec![456]));
}

#[test]
fn read_column_out_of_bounds() {
    let naxis1 = 10;
    let naxis2 = 1;
    let cards = build_table_cards(naxis1, naxis2, &[(None, "A10", 1)]);
    let raw = vec![b' '; naxis1 * naxis2];
    let (fits_data, hdu) = build_hdu(cards, &raw);
    assert!(read_ascii_column(&fits_data, &hdu, 1).is_err());
}

#[test]
fn read_row_out_of_bounds() {
    let naxis1 = 10;
    let naxis2 = 1;
    let cards = build_table_cards(naxis1, naxis2, &[(None, "A10", 1)]);
    let raw = vec![b' '; naxis1 * naxis2];
    let (fits_data, hdu) = build_hdu(cards, &raw);
    assert!(read_ascii_row(&fits_data, &hdu, 1).is_err());
}

#[test]
fn read_field_that_is_not_a_number_is_error() {
    let naxis1 = 8;
    let cards = build_table_cards(naxis1, 1, &[(None, "F8.2", 1)]);
    let (fits_data, hdu) = build_hdu(cards, b"  12.x4 ");
    assert!(read_ascii_column(&fits_data, &hdu, 0).is_err());
    let cards = build_table_cards(naxis1, 1, &[(None, "F8.2", 1)]);
    let (fits_data, hdu) = build_hdu(cards, b"    -inf");
    match read_ascii_column(&fits_data, &hdu, 0).unwrap() {
        AsciiColumnData::Float(vals) => assert_eq!(vals, vec![String::from("-inf")]),
        other => panic!("Expected Float, got {:?}", other),
    }
}

#[test]
fn format_field_character() {
    let data = AsciiColumnData::Character(vec![String::from("Hi")]);
    let fmt = AsciiColumnFormat::Character(8);
    let s = format_ascii_field(&data, &fmt, 0).unwrap();
    assert_eq!(s.len(), 8);
    assert_eq!(s, "Hi      ");
}

#[test]
fn format_field_integer() {
    let data = AsciiColumnData::Integer(vec![42]);
    let fmt = AsciiColumnFormat::Integer(10);
    let s = format_ascii_field(&data, &fmt, 0).unwrap();
    assert_eq!(s.len(), 10);
    assert_eq!(s.trim(), "42");
    assert!(s.ends_with("42"));
}

#[test]
fn format_field_float_f() {
    let data = AsciiColumnData::Float(vec![format!("{:.*}", 4, 3.125f64)]);
    let fmt = AsciiColumnFormat::FloatF(12, 4);
    let s = format_ascii_field(&data, &fmt, 0).unwrap();
    assert_eq!(s.len(), 12);
    assert!(s.contains("3.1250"));
}

#[test]
fn format_field_float_e() {
    let data = AsciiColumnData::Float(vec![format!("{:.*E}", 3, 1.234e5f64)]);
    let fmt = AsciiColumnFormat::FloatE(15, 3);
    let s = format_ascii_field(&data, &fmt, 0).unwrap();
    assert_eq!(s.len(), 15);
    assert!(s.contains('E'));
}

#[test]
fn format_field_double_d() {
    let data = AsciiColumnData::Float(vec![format!("{:.*E}", 10, 1.234e5f64).replace('E', "D")]);
    let fmt = AsciiColumnFormat::DoubleE(25, 10);
    let s = format_ascii_field(&data, &fmt, 0).unwrap();
    assert_eq!(s.len(), 25);
    assert!(s.contains('D'));
}

#[test]
fn format_field_cuts_to_width() {
    let data = AsciiColumnData::Character(vec![String::from("Andromeda")]);
    assert_eq!(format_ascii_field(&data, &AsciiColumnFormat::Character(4), 0).unwrap(), "Andr");
    let data = AsciiColumnData::Integer(vec![-123456]);
    assert_eq!(format_ascii_field(&data, &AsciiColumnFormat::Integer(4), 0).unwrap(), "3456");
}

#[test]
fn roundtrip_character_column() {
    let cols = vec![AsciiColumnDescriptor { name: Some(String::from("LABEL")), format: AsciiColumnFormat::Character(8), tbcol: 0 }];
    let data = vec![AsciiColumnData::Character(vec![String::from("Alpha"), String::from("Beta"), String::from("Gamma")])];

    let naxis1 = 8;
    let naxis2 = 3;
    let cards = build_ascii_table_cards(&cols, naxis2).unwrap();
    let serialized = serialize_ascii_table(&cols, &data, naxis1).unwrap();

    let header_bytes = serialize_header(&cards);
    let mut fits_data = Vec::new();
    fits_data.extend_from_slice(&header_bytes);
    fits_data.extend_from_slice(&serialized);
    let hdu = table_hdu(cards, naxis1, naxis2, 1, header_bytes.len());

    match read_ascii_column(&fits_data, &hdu, 0).unwrap() {
        AsciiColumnData::Character(vals) => assert_eq!(vals, vec!["Alpha", "Beta", "Gamma"]),
        other => panic!("Expected Character, got {:?}", other),
    }
}

#[test]
fn roundtrip_integer_column() {
    let cols = vec![AsciiColumnDescriptor { name: Some(String::from("COUNT")), format: AsciiColumnFormat::Integer(10), tbcol: 0 }];
    let data = vec![AsciiColumnData::Integer(vec![42, -7, 1000000])];

    let naxis1 = 10;
    let naxis2 = 3;
    let cards = build_ascii_table_cards(&cols, naxis2).unwrap();
    let serialized = serialize_ascii_table(&cols, &data, naxis1).unwrap();

    let header_bytes = serialize_header(&cards);
    let mut fits_data = Vec::new();
    fits_data.extend_from_slice(&header_bytes);
    fits_data.extend_from_slice(&serialized);
    let hdu = table_hdu(cards, naxis1, naxis2, 1, header_bytes.len());

    match read_ascii_column(&fits_data, &hdu, 0).unwrap() {
        AsciiColumnData::Integer(vals) => assert_eq!(vals, vec![42, -7, 1000000]),
        other => panic!("Expected Integer, got {:?}", other),
    }
}

#[test]
fn roundtrip_float_column() {
    let cols = vec![AsciiColumnDescriptor { name: Some(String::from("FLUX")), format: AsciiColumnFormat::FloatE(15, 7), tbcol: 0 }];
    let texts: Vec<String> = [1.234e5f64, -6.78e-3].iter().map(|f| format!("{:.*E}", 7, f)).collect();
    let data = vec![AsciiColumnData::Float(texts)];

    let naxis1 = 15;
    let naxis2 = 2;
    let cards = build_ascii_table_cards(&cols, naxis2).unwrap();
    let serialized = serialize_ascii_table(&cols, &data, naxis1).unwrap();

    let header_bytes = serialize_header(&cards);
    let mut fits_data = Vec::new();
    fits_data.extend_from_slice(&header_bytes);
    fits_data.extend_from_slice(&serialized);
    let hdu = table_hdu(cards, naxis1, naxis2, 1, header_bytes.len());

    match read_ascii_column(&fits_data, &hdu, 0).unwrap() {
        AsciiColumnData::Float(vals) => {
            assert_eq!(vals.len(), 2);
            assert!((float_of(&vals[0]) - 1.234e5).abs() / 1.234e5 < 1e-6);
            assert!((float_of(&vals[1]) - (-6.78e-3)).abs() / 6.78e-3 < 1e-6);
        }
        other => panic!("Expected Float, got {:?}", other),
    }
}

#[test]
fn roundtrip_multi_column() {
    let cols = vec![
        AsciiColumnDescriptor { name: Some(String::from("NAME")), format: AsciiColumnFormat::Character(8), tbcol: 0 },
        AsciiColumnDescriptor { name: Some(String::from("COUNT")), format: AsciiColumnFormat::Integer(6), tbcol: 8 },
        AsciiColumnDescriptor { name: Some(String::from("FLUX")), format: AsciiColumnFormat::FloatF(10, 3), tbcol: 14 },
    ];
    let data = vec![
        AsciiColumnData::Character(vec![String::from("Vega"), String::from("Sirius")]),
        AsciiColumnData::Integer(vec![100, 200]),
        AsciiColumnData::Float(vec![format!("{:.*}", 3, 3.125f64), format!("{:.*}", 3, -2.625f64)]),
    ];

    let naxis1 = 24;
    let naxis2 = 2;
    let cards = build_ascii_table_cards(&cols, naxis2).unwrap();
    let serialized = serialize_ascii_table(&cols, &data, naxis1).unwrap();

    let header_bytes = serialize_header(&cards);
    let mut fits_data = Vec::new();
    fits_data.extend_from_slice(&header_bytes);
    fits_data.extend_from_slice(&serialized);
    let hdu = table_hdu(cards, naxis1, naxis2, 3, header_bytes.len());

    match read_ascii_column(&fits_data, &hdu, 0).unwrap() {
        AsciiColumnData::Character(vals) => {
            assert_eq!(vals[0], "Vega");
            assert_eq!(vals[1], "Sirius");
        }
        other => panic!("Expected Character, got {:?}", other),
    }
    match read_ascii_column(&fits_data, &hdu, 1).unwrap() {
        AsciiColumnData::Integer(vals) => assert_eq!(vals, vec![100, 200]),
        other => panic!("Expected Integer, got {:?}", other),
    }
    match read_ascii_column(&fits_data, &hdu, 2).unwrap() {
        AsciiColumnData::Float(vals) => {
            assert!((float_of(&vals[0]) - 3.125).abs() < 0.001);
            assert!((float_of(&vals[1]) - (-2.625)).abs() < 0.001);
        }
        other => panic!("Expected Float, got {:?}", other),
    }
}

#[test]
fn serialize_empty_table() {
    let cols: Vec<AsciiColumnDescriptor> = vec![];
    let data: Vec<AsciiColumnData> = vec![];
    let result = serialize_ascii_table(&cols, &data, 0).unwrap();
    assert!(result.is_empty());
}

#[test]
fn serialize_mismatched_columns_data_is_error() {
    let cols = vec![AsciiColumnDescriptor { name: None, format: AsciiColumnFormat::Integer(10), tbcol: 0 }];
    let data: Vec<AsciiColumnData> = vec![];
    assert!(serialize_ascii_table(&cols, &data, 10).is_err());
}

#[test]
fn serialize_rows_are_spaced_and_blocks_zeroed() {
    let cols = vec![AsciiColumnDescriptor { name: None, format: AsciiColumnFormat::Integer(4), tbcol: 1 }];
    let data = vec![AsciiColumnData::Integer(vec![7, 12])];
    let bytes = serialize_ascii_table(&cols, &data, 6).unwrap();
    assert_eq!(bytes.len(), 2880);
    assert_eq!(&bytes[..12], b"     7    12");
    assert!(bytes[12..].iter().all(|&b| b == 0));
}

#[test]
fn format_field_out_of_bounds_index() {
    let data = AsciiColumnData::Integer(vec![42]);
    let fmt = AsciiColumnFormat::Integer(10);
    assert!(format_ascii_field(&data, &fmt, 1).is_err());
}

#[test]
fn format_field_type_mismatch_is_error() {
    let data = AsciiColumnData::Integer(vec![42]);
    let fmt = AsciiColumnFormat::Character(10);
    assert!(format_ascii_field(&data, &fmt, 0).is_err());
}

#[test]
fn read_non_ascii_table_hdu_is_error() {
    let hdu = Hdu {
        info: HduInfo::Primary { bitpix: 8, naxes: vec![] },
        header_start: 0,
        data_start: 0,
        data_len: 0,
        cards: vec![],
    };
    assert!(read_ascii_column(&[], &hdu, 0).is_err());
}

#[test]
fn serialize_hdu_produces_valid_fits() {
    let cols = vec![
        AsciiColumnDescriptor { name: Some(String::from("NAME")), format: AsciiColumnFormat::Character(8), tbcol: 0 },
        AsciiColumnDescriptor { name: Some(String::from("COUNT")), format: AsciiColumnFormat::Integer(6), tbcol: 8 },
    ];
    let data = vec![
        AsciiColumnData::Character(vec![String::from("Vega"), String::from("Sirius")]),
        AsciiColumnData::Integer(vec![100, 200]),
    ];

    let hdu_bytes = serialize_ascii_table_hdu(&cols, &data).unwrap();
    assert_eq!(hdu_bytes.len() % 2880, 0);

    let primary_cards = vec![
        mk_card("SIMPLE", Value::Logical(true)),
        mk_card("BITPIX", Value::Integer(8)),
        mk_card("NAXIS", Value::Integer(0)),
    ];
    let primary_header = serialize_header(&primary_cards);

    let mut fits = Vec::new();
    fits.extend_from_slice(&primary_header);
    fits.extend_from_slice(&hdu_bytes);

    let parsed = fitsio_pure::hdu::parse_fits(&fits).unwrap();
    assert_eq!(parsed.len(), 2);

    let hdu = parsed.get(1).unwrap();
    match &hdu.info {
        HduInfo::AsciiTable { naxis1, naxis2, tfields } => {
            assert_eq!(*naxis1, 14);
            assert_eq!(*naxis2, 2);
            assert_eq!(*tfields, 2);
        }
        other => panic!("Expected AsciiTable, got {:?}", other),
    }

    match read_ascii_column(&fits, hdu, 0).unwrap() {
        AsciiColumnData::Character(vals) => {
            assert_eq!(vals[0], "Vega");
            assert_eq!(vals[1], "Sirius");
        }
        other => panic!("Expected Character, got {:?}", other),
    }

    match read_ascii_column(&fits, hdu, 1).unwrap() {
        AsciiColumnData::Integer(vals) => assert_eq!(vals, vec![100, 200]),
        other => panic!("Expected Integer, got {:?}", other),
    }
}
