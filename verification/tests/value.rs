use fitsio_pure::value::Value;
use fitsio_pure::value::format_value;
use fitsio_pure::value::parse_value;


/// Helper: create a 70-byte field from a string, right-padded with spaces.
fn make_field(s: &str) -> [u8; 70] {
    let mut buf = [b' '; 70];
    let bytes = s.as_bytes();
    let len = bytes.len().min(70);
    buf[..len].copy_from_slice(&bytes[..len]);
    buf
}

// ---- Logical ----

/// The number that a FITS float text spells (with a `D` exponent read as `E`).
fn float_of(t: &str) -> f64 {
    t.replace('D', "E").replace('d', "e").parse().unwrap()
}

#[test]
fn parse_logical_true() {
    let field = make_field("                   T");
    let (val, comment) = parse_value(&field).unwrap();
    assert_eq!(val, Value::Logical(true));
    assert!(comment.is_none());
}

#[test]
fn parse_logical_false() {
    let field = make_field("                   F");
    let (val, comment) = parse_value(&field).unwrap();
    assert_eq!(val, Value::Logical(false));
    assert!(comment.is_none());
}

#[test]
fn parse_logical_with_comment() {
    let field = make_field("                   T / this is a flag");
    let (val, comment) = parse_value(&field).unwrap();
    assert_eq!(val, Value::Logical(true));
    assert_eq!(comment.unwrap(), "this is a flag");
}

// ---- Integer ----

#[test]
fn parse_integer_positive() {
    let field = make_field("                  42");
    let (val, comment) = parse_value(&field).unwrap();
    assert_eq!(val, Value::Integer(42));
    assert!(comment.is_none());
}

#[test]
fn parse_integer_negative() {
    let field = make_field("                 -99");
    let (val, comment) = parse_value(&field).unwrap();
    assert_eq!(val, Value::Integer(-99));
    assert!(comment.is_none());
}

#[test]
fn parse_integer_with_comment() {
    let field = make_field("                1024 / block count");
    let (val, comment) = parse_value(&field).unwrap();
    assert_eq!(val, Value::Integer(1024));
    assert_eq!(comment.unwrap(), "block count");
}

#[test]
fn parse_integer_zero() {
    let field = make_field("                   0");
    let (val, _) = parse_value(&field).unwrap();
    assert_eq!(val, Value::Integer(0));
}

// ---- Float ----

#[test]
fn parse_float_simple() {
    let field = make_field("             9.80665");
    let (val, _) = parse_value(&field).unwrap();
    match val {
        Value::Float(f) => assert!((float_of(&f) - 9.80665).abs() < 1e-10),
        other => panic!("Expected Float, got {:?}", other),
    }
}

#[test]
fn parse_float_scientific_e() {
    let field = make_field("           1.234E+05");
    let (val, _) = parse_value(&field).unwrap();
    match val {
        Value::Float(f) => assert!((float_of(&f) - 1.234e5).abs() < 1e-5),
        other => panic!("Expected Float, got {:?}", other),
    }
}

#[test]
fn parse_float_d_exponent() {
    let field = make_field("           1.234D+05");
    let (val, _) = parse_value(&field).unwrap();
    match val {
        Value::Float(f) => assert!((float_of(&f) - 1.234e5).abs() < 1e-5),
        other => panic!("Expected Float, got {:?}", other),
    }
}

#[test]
fn parse_float_negative_exponent() {
    let field = make_field("          -2.5D-03");
    let (val, _) = parse_value(&field).unwrap();
    match val {
        Value::Float(f) => assert!((float_of(&f) - (-2.5e-3)).abs() < 1e-15),
        other => panic!("Expected Float, got {:?}", other),
    }
}

#[test]
fn parse_float_with_comment() {
    let field = make_field("               0.5 / scale factor");
    let (val, comment) = parse_value(&field).unwrap();
    match val {
        Value::Float(f) => assert!((float_of(&f) - 0.5).abs() < 1e-10),
        other => panic!("Expected Float, got {:?}", other),
    }
    assert_eq!(comment.unwrap(), "scale factor");
}

// ---- String ----

#[test]
fn parse_string_simple() {
    let field = make_field("'SIMPLE  '");
    let (val, _) = parse_value(&field).unwrap();
    assert_eq!(val, Value::String(String::from("SIMPLE")));
}

#[test]
fn parse_string_with_comment() {
    let field = make_field("'IMAGE   '           / image type");
    let (val, comment) = parse_value(&field).unwrap();
    assert_eq!(val, Value::String(String::from("IMAGE")));
    assert_eq!(comment.unwrap(), "image type");
}

#[test]
fn parse_string_embedded_quotes() {
    let field = make_field("'it''s ok'");
    let (val, _) = parse_value(&field).unwrap();
    assert_eq!(val, Value::String(String::from("it's ok")));
}

#[test]
fn parse_string_empty() {
    let field = make_field("'        '");
    let (val, _) = parse_value(&field).unwrap();
    assert_eq!(val, Value::String(String::from("")));
}

#[test]
fn parse_string_min_padding() {
    // String shorter than 8 chars, padded to 8.
    let field = make_field("'AB      '");
    let (val, _) = parse_value(&field).unwrap();
    assert_eq!(val, Value::String(String::from("AB")));
}

// ---- Complex Integer ----

#[test]
fn parse_complex_int() {
    let field = make_field("            (42, -7)");
    let (val, _) = parse_value(&field).unwrap();
    assert_eq!(val, Value::ComplexInt(42, -7));
}

#[test]
fn parse_complex_int_with_comment() {
    let field = make_field("            (1, 2) / impedance");
    let (val, comment) = parse_value(&field).unwrap();
    assert_eq!(val, Value::ComplexInt(1, 2));
    assert_eq!(comment.unwrap(), "impedance");
}

// ---- Complex Float ----

#[test]
fn parse_complex_float() {
    let field = make_field("       (1.5, -3.25)");
    let (val, _) = parse_value(&field).unwrap();
    match val {
        Value::ComplexFloat(re, im) => {
            assert!((float_of(&re) - 1.5).abs() < 1e-10);
            assert!((float_of(&im) - (-3.25)).abs() < 1e-10);
        }
        other => panic!("Expected ComplexFloat, got {:?}", other),
    }
}

// ---- Round-trip tests ----

#[test]
fn roundtrip_logical() {
    for &b in &[true, false] {
        let v = Value::Logical(b);
        let buf = format_value(&v);
        let (parsed, _) = parse_value(&buf).unwrap();
        assert_eq!(parsed, v);
    }
}

#[test]
fn roundtrip_integer() {
    for &n in &[0i64, 1, -1, 42, -9999, i64::MAX, i64::MIN] {
        let v = Value::Integer(n);
        let buf = format_value(&v);
        let (parsed, _) = parse_value(&buf).unwrap();
        assert_eq!(parsed, v, "round-trip failed for {}", n);
    }
}

#[test]
fn roundtrip_float() {
    for &f in &[0.0f64, 1.0, -1.0, 9.80665, 1.23e10, -4.56e-20] {
        let v = Value::Float(format!("{:?}", f));
        let buf = format_value(&v);
        let (parsed, _) = parse_value(&buf).unwrap();
        match parsed {
            Value::Float(pf) => {
                let pf = float_of(&pf);
                if f == 0.0 {
                    assert_eq!(pf, 0.0);
                } else {
                    let rel_err = ((pf - f) / f).abs();
                    assert!(
                        rel_err < 1e-10,
                        "round-trip float failed: {} vs {} (rel err {})",
                        f,
                        pf,
                        rel_err
                    );
                }
            }
            other => panic!("Expected Float, got {:?}", other),
        }
    }
}

#[test]
fn roundtrip_string() {
    for s in &["HELLO", "", "it's here", "X", "A long string value"] {
        let v = Value::String(String::from(*s));
        let buf = format_value(&v);
        let (parsed, _) = parse_value(&buf).unwrap();
        assert_eq!(parsed, v, "round-trip failed for {:?}", s);
    }
}

#[test]
fn roundtrip_complex_int() {
    let v = Value::ComplexInt(10, -20);
    let buf = format_value(&v);
    let (parsed, _) = parse_value(&buf).unwrap();
    assert_eq!(parsed, v);
}

#[test]
fn roundtrip_complex_float() {
    let v = Value::ComplexFloat("1.5".to_string(), "-2.5".to_string());
    let buf = format_value(&v);
    let (parsed, _) = parse_value(&buf).unwrap();
    match parsed {
        Value::ComplexFloat(re, im) => {
            assert!((float_of(&re) - 1.5).abs() < 1e-10);
            assert!((float_of(&im) - (-2.5)).abs() < 1e-10);
        }
        other => panic!("Expected ComplexFloat, got {:?}", other),
    }
}

// ---- Format tests ----

#[test]
fn format_logical_position() {
    let buf = format_value(&Value::Logical(true));
    // Logical should be at index 19 (column 30 of card).
    assert_eq!(buf[19], b'T');
    // Everything else should be spaces.
    for (i, &b) in buf.iter().enumerate() {
        if i != 19 {
            assert_eq!(b, b' ', "non-space at index {}", i);
        }
    }
}

#[test]
fn format_integer_right_justified() {
    let buf = format_value(&Value::Integer(42));
    let first20 = core::str::from_utf8(&buf[..20]).unwrap();
    assert_eq!(first20.trim(), "42");
    // Check right-justification.
    assert_eq!(buf[19], b'2');
    assert_eq!(buf[18], b'4');
}

#[test]
fn format_string_quotes_and_padding() {
    let buf = format_value(&Value::String(String::from("AB")));
    // Should start with quote.
    assert_eq!(buf[0], b'\'');
    // Content.
    assert_eq!(buf[1], b'A');
    assert_eq!(buf[2], b'B');
    // Padded to 8 chars, closing quote at index 9.
    assert_eq!(buf[9], b'\'');
}

#[test]
fn format_string_embedded_quotes() {
    let buf = format_value(&Value::String(String::from("it's")));
    let s = core::str::from_utf8(&buf).unwrap();
    // Should contain doubled quotes.
    assert!(s.contains("it''s"), "Expected doubled quote in: {}", s);
}

// ---- Edge cases ----

#[test]
fn parse_empty_field_returns_none() {
    assert!(parse_value(b"").is_none());
}

#[test]
fn parse_all_spaces_returns_none() {
    let field = make_field("");
    assert!(parse_value(&field).is_none());
}

#[test]
fn parse_integer_comment_no_trailing_space() {
    // Real-world: "BITPIX  =                  -32 /No.Bits per pixel"
    let field = make_field("                 -32 /No.Bits per pixel");
    let (val, comment) = parse_value(&field).unwrap();
    assert_eq!(val, Value::Integer(-32));
    assert_eq!(comment.unwrap(), "No.Bits per pixel");
}

#[test]
fn parse_float_comment_no_trailing_space() {
    let field = make_field("               0.5 /scale");
    let (val, comment) = parse_value(&field).unwrap();
    match val {
        Value::Float(f) => assert!((float_of(&f) - 0.5).abs() < 1e-10),
        other => panic!("Expected Float, got {:?}", other),
    }
    assert_eq!(comment.unwrap(), "scale");
}

#[test]
fn parse_string_comment_no_trailing_space() {
    let field = make_field("'IMAGE   '           /image type");
    let (val, comment) = parse_value(&field).unwrap();
    assert_eq!(val, Value::String(String::from("IMAGE")));
    assert_eq!(comment.unwrap(), "image type");
}

#[test]
fn parse_large_integer() {
    let field = make_field("       9999999999999");
    let (val, _) = parse_value(&field).unwrap();
    assert_eq!(val, Value::Integer(9999999999999));
}

#[test]
fn format_value_field_is_70_bytes() {
    let buf = format_value(&Value::Integer(1));
    assert_eq!(buf.len(), 70);
}

