use fitsio_pure::table::AsciiColumnFormat;
use fitsio_pure::header::Card;
use fitsio_pure::header::kw;
use fitsio_pure::value::Value;
use fitsio_pure::table::format_tform;
use fitsio_pure::table::parse_ascii_table_columns;
use fitsio_pure::table::parse_tform_ascii;
use fitsio_pure::table::build_ascii_table_cards;
use fitsio_pure::table::AsciiColumnDescriptor;

use std::string::String;
use std::vec;

// ---- TFORM parsing ----

#[test]
fn parse_tform_character() {
    let fmt = parse_tform_ascii("A20").unwrap();
    assert_eq!(fmt, AsciiColumnFormat::Character(20));
    assert_eq!(fmt.width(), 20);
}

#[test]
fn parse_tform_integer() {
    let fmt = parse_tform_ascii("I10").unwrap();
    assert_eq!(fmt, AsciiColumnFormat::Integer(10));
    assert_eq!(fmt.width(), 10);
}

#[test]
fn parse_tform_float_f() {
    let fmt = parse_tform_ascii("F12.4").unwrap();
    assert_eq!(fmt, AsciiColumnFormat::FloatF(12, 4));
    assert_eq!(fmt.width(), 12);
}

#[test]
fn parse_tform_float_e() {
    let fmt = parse_tform_ascii("E15.7").unwrap();
    assert_eq!(fmt, AsciiColumnFormat::FloatE(15, 7));
    assert_eq!(fmt.width(), 15);
}

#[test]
fn parse_tform_double_d() {
    let fmt = parse_tform_ascii("D25.17").unwrap();
    assert_eq!(fmt, AsciiColumnFormat::DoubleE(25, 17));
    assert_eq!(fmt.width(), 25);
}

#[test]
fn parse_tform_with_whitespace() {
    let fmt = parse_tform_ascii("  A5  ").unwrap();
    assert_eq!(fmt, AsciiColumnFormat::Character(5));
}

#[test]
fn parse_tform_empty_is_error() {
    assert!(parse_tform_ascii("").is_err());
}

#[test]
fn parse_tform_unknown_code_is_error() {
    assert!(parse_tform_ascii("X10").is_err());
}

#[test]
fn parse_tform_missing_decimal_is_error() {
    assert!(parse_tform_ascii("F12").is_err());
}

// ---- Column descriptor parsing ----

fn mk_card(keyword: &str, value: Value) -> Card {
    Card { keyword: kw(keyword.as_bytes()), value: Some(value), comment: None }
}

fn build_table_cards(
    naxis1: usize,
    naxis2: usize,
    col_descs: &[(Option<&str>, &str, usize)],
) -> Vec<Card> {
    let tfields = col_descs.len();
    let mut cards = vec![
        mk_card("XTENSION", Value::String(String::from("TABLE"))),
        mk_card("BITPIX", Value::Integer(8)),
        mk_card("NAXIS", Value::Integer(2)),
        mk_card("NAXIS1", Value::Integer(naxis1 as i64)),
        mk_card("NAXIS2", Value::Integer(naxis2 as i64)),
        mk_card("PCOUNT", Value::Integer(0)),
        mk_card("GCOUNT", Value::Integer(1)),
        mk_card("TFIELDS", Value::Integer(tfields as i64)),
    ];
    for (i, (name, tform, tbcol)) in col_descs.iter().enumerate() {
        let n = i + 1;
        cards.push(mk_card(
            &format!("TFORM{}", n),
            Value::String(String::from(*tform)),
        ));
        cards.push(mk_card(
            &format!("TBCOL{}", n),
            Value::Integer(*tbcol as i64),
        ));
        if let Some(nm) = name {
            cards.push(mk_card(
                &format!("TTYPE{}", n),
                Value::String(String::from(*nm)),
            ));
        }
    }
    cards
}

#[test]
fn table_parse_columns_basic() {
    let cards = build_table_cards(
        30,
        2,
        &[
            (Some("NAME"), "A10", 1),
            (None, "I8", 11),
            (Some("VALUE"), "F12.4", 19),
        ],
    );
    let cols = parse_ascii_table_columns(&cards, 3).unwrap();
    assert_eq!(cols.len(), 3);

    assert_eq!(cols[0].name, Some(String::from("NAME")));
    assert_eq!(cols[0].format, AsciiColumnFormat::Character(10));
    assert_eq!(cols[0].tbcol, 0);

    assert_eq!(cols[1].name, None);
    assert_eq!(cols[1].format, AsciiColumnFormat::Integer(8));
    assert_eq!(cols[1].tbcol, 10);

    assert_eq!(cols[2].name, Some(String::from("VALUE")));
    assert_eq!(cols[2].format, AsciiColumnFormat::FloatF(12, 4));
    assert_eq!(cols[2].tbcol, 18);
}

// ---- Reading: character column ----

// ---- Reading: integer column ----

// ---- Reading: float F column ----

// ---- Reading: float E column ----

// ---- Reading: double D column ----

// ---- Reading: multiple columns ----

// ---- Reading: row ----

// ---- Reading: out of bounds ----

// ---- Writing: format_ascii_field ----

// ---- Writing: build cards ----

// ---- Write + read roundtrip ----

// ---- Edge cases ----

#[test]
fn format_tform_roundtrip() {
    let cases = vec![
        AsciiColumnFormat::Character(20),
        AsciiColumnFormat::Integer(10),
        AsciiColumnFormat::FloatF(12, 4),
        AsciiColumnFormat::FloatE(15, 7),
        AsciiColumnFormat::DoubleE(25, 17),
    ];
    for fmt in &cases {
        let s = format_tform(fmt);
        let parsed = parse_tform_ascii(&s).unwrap();
        assert_eq!(&parsed, fmt);
    }
}

// ---- serialize_ascii_table_hdu ----


fn find_card_integer(cards: &[Card], keyword: &str) -> Option<i64> {
    for c in cards {
        if c.keyword_str() == keyword {
            if let Some(Value::Integer(n)) = &c.value {
                return Some(*n);
            }
            return None;
        }
    }
    None
}

#[test]
fn build_cards_basic() {
    let cols = vec![
        AsciiColumnDescriptor {
            name: Some(String::from("NAME")),
            format: AsciiColumnFormat::Character(10),
            tbcol: 0,
        },
        AsciiColumnDescriptor {
            name: None,
            format: AsciiColumnFormat::Integer(8),
            tbcol: 10,
        },
    ];
    let cards = build_ascii_table_cards(&cols, 5).unwrap();

    assert_eq!(cards[0].keyword_str(), "XTENSION");
    assert_eq!(cards[1].keyword_str(), "BITPIX");
    assert_eq!(cards[1].value, Some(Value::Integer(8)));
    assert_eq!(cards[2].keyword_str(), "NAXIS");
    assert_eq!(cards[2].value, Some(Value::Integer(2)));
    assert_eq!(cards[3].keyword_str(), "NAXIS1");
    assert_eq!(cards[3].value, Some(Value::Integer(18)));
    assert_eq!(cards[4].keyword_str(), "NAXIS2");
    assert_eq!(cards[4].value, Some(Value::Integer(5)));
    assert_eq!(cards[7].keyword_str(), "TFIELDS");
    assert_eq!(cards[7].value, Some(Value::Integer(2)));
}

#[test]
fn build_cards_naxis1_computed_correctly() {
    let cols = vec![
        AsciiColumnDescriptor {
            name: None,
            format: AsciiColumnFormat::Character(5),
            tbcol: 0,
        },
        AsciiColumnDescriptor {
            name: None,
            format: AsciiColumnFormat::Integer(10),
            tbcol: 5,
        },
        AsciiColumnDescriptor {
            name: None,
            format: AsciiColumnFormat::FloatE(15, 7),
            tbcol: 15,
        },
    ];
    let cards = build_ascii_table_cards(&cols, 1).unwrap();
    let naxis1 = find_card_integer(&cards, "NAXIS1").unwrap();
    assert_eq!(naxis1, 30);
}

#[test]
fn build_cards_names_and_positions() {
    let cols = vec![
        AsciiColumnDescriptor {
            name: Some(String::from("ID")),
            format: AsciiColumnFormat::Integer(6),
            tbcol: 0,
        },
        AsciiColumnDescriptor {
            name: Some(String::from("LABEL")),
            format: AsciiColumnFormat::Character(12),
            tbcol: 6,
        },
    ];
    let cards = build_ascii_table_cards(&cols, 3).unwrap();
    assert_eq!(find_card_integer(&cards, "NAXIS1"), Some(18));
    assert_eq!(find_card_integer(&cards, "TBCOL1"), Some(1));
    assert_eq!(find_card_integer(&cards, "TBCOL2"), Some(7));
    let parsed = parse_ascii_table_columns(&cards, 2).unwrap();
    assert_eq!(parsed, cols);
}
