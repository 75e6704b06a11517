use fitsio_pure::block::BLOCK_SIZE;
use fitsio_pure::block::CARDS_PER_BLOCK;
use fitsio_pure::block::CARD_SIZE;
use fitsio_pure::header::Card;
use fitsio_pure::error::Error;
use fitsio_pure::header::HduType;
use fitsio_pure::value::Value;
use fitsio_pure::header::format_card;
use fitsio_pure::header::format_end_card;
use fitsio_pure::header::header_byte_len;
use fitsio_pure::header::kw;
use fitsio_pure::header::parse_card;
use fitsio_pure::header::parse_header_blocks;
use fitsio_pure::value::parse_value;
use fitsio_pure::header::serialize_header;
use fitsio_pure::header::validate_required_keywords;

use std::string::String;

fn make_card(s: &str) -> [u8; CARD_SIZE] {
    let mut buf = [b' '; CARD_SIZE];
    let bytes = s.as_bytes();
    let len = bytes.len().min(CARD_SIZE);
    buf[..len].copy_from_slice(&bytes[..len]);
    buf
}

fn make_header_block(cards: &[[u8; CARD_SIZE]]) -> Vec<u8> {
    assert!(cards.len() <= CARDS_PER_BLOCK);
    let mut block = vec![b' '; BLOCK_SIZE];
    for (i, card) in cards.iter().enumerate() {
        let start = i * CARD_SIZE;
        block[start..start + CARD_SIZE].copy_from_slice(card);
    }
    block
}

/// The number that a FITS float text spells (with a `D` exponent read as `E`).
fn float_of(t: &str) -> f64 {
    t.replace('D', "E").replace('d', "e").parse().unwrap()
}

#[test]
fn parse_card_string_value() {
    let card = make_card("TELESCOP= 'Hubble  '           / telescope name");
    let c = parse_card(&card).unwrap();
    assert_eq!(c.keyword_str(), "TELESCOP");
    assert_eq!(c.value, Some(Value::String(String::from("Hubble"))));
    assert_eq!(c.comment, Some(String::from("telescope name")));
}

#[test]
fn parse_card_string_no_comment() {
    let card = make_card("OBJECT  = 'NGC 1234'");
    let c = parse_card(&card).unwrap();
    assert_eq!(c.keyword_str(), "OBJECT");
    assert_eq!(c.value, Some(Value::String(String::from("NGC 1234"))));
    assert!(c.comment.is_none());
}

#[test]
fn parse_card_integer_value() {
    let card = make_card("BITPIX  =                    16 / bits per pixel");
    let c = parse_card(&card).unwrap();
    assert_eq!(c.keyword_str(), "BITPIX");
    assert_eq!(c.value, Some(Value::Integer(16)));
    assert_eq!(c.comment, Some(String::from("bits per pixel")));
}

#[test]
fn parse_card_integer_negative() {
    let card = make_card("BITPIX  =                   -32 / IEEE float");
    let c = parse_card(&card).unwrap();
    assert_eq!(c.value, Some(Value::Integer(-32)));
}

#[test]
fn parse_card_float_value() {
    let card = make_card("CRVAL1  =            2.7315E+02 / temperature");
    let c = parse_card(&card).unwrap();
    match c.value {
        Some(Value::Float(f)) => assert!((float_of(&f) - 273.15).abs() < 1e-5),
        other => panic!("Expected Float, got {:?}", other),
    }
}

#[test]
fn parse_card_logical_true() {
    let card = make_card("SIMPLE  =                    T / standard FITS");
    let c = parse_card(&card).unwrap();
    assert_eq!(c.value, Some(Value::Logical(true)));
}

#[test]
fn parse_card_logical_false() {
    let card = make_card("EXTEND  =                    F");
    let c = parse_card(&card).unwrap();
    assert_eq!(c.value, Some(Value::Logical(false)));
}

#[test]
fn parse_card_comment_keyword() {
    let card = make_card("COMMENT This is a comment about the FITS file.");
    let c = parse_card(&card).unwrap();
    assert_eq!(c.keyword_str(), "COMMENT");
    assert!(c.value.is_none());
    assert_eq!(
        c.comment,
        Some(String::from("This is a comment about the FITS file."))
    );
    assert!(c.is_commentary());
}

#[test]
fn parse_card_history_keyword() {
    let card = make_card("HISTORY Created by fitsio-pure v0.1");
    let c = parse_card(&card).unwrap();
    assert_eq!(c.keyword_str(), "HISTORY");
    assert!(c.is_commentary());
}

#[test]
fn parse_card_blank_keyword() {
    let card = make_card("        some free-form text here");
    let c = parse_card(&card).unwrap();
    assert!(c.is_blank());
    assert!(c.is_commentary());
}

#[test]
fn parse_card_blank_keyword_empty() {
    let card = [b' '; CARD_SIZE];
    let c = parse_card(&card).unwrap();
    assert!(c.is_blank());
    assert!(c.comment.is_none());
}

#[test]
fn parse_card_end() {
    let card = make_card("END");
    let c = parse_card(&card).unwrap();
    assert!(c.is_end());
}

#[test]
fn parse_card_invalid_keyword_lowercase() {
    let card = make_card("bitpix  =                    16");
    assert!(matches!(parse_card(&card), Err(Error::InvalidKeyword)));
}

#[test]
fn parse_card_invalid_keyword_special_chars() {
    let card = make_card("FOO@BAR =                    16");
    assert!(parse_card(&card).is_err());
}

#[test]
fn parse_card_empty_value_with_comment() {
    let card = make_card("BLANK   =                      / undefined value");
    let c = parse_card(&card).unwrap();
    assert!(c.value.is_none());
    assert_eq!(c.comment, Some(String::from("undefined value")));
}

#[test]
fn parse_card_hyphen_keyword() {
    let card = make_card("DATE-OBS= '2024-01-15'");
    let c = parse_card(&card).unwrap();
    assert_eq!(c.keyword_str(), "DATE-OBS");
}

#[test]
fn parse_card_string_with_embedded_quotes() {
    let card = make_card("COMMENT1= 'it''s ok '");
    let c = parse_card(&card).unwrap();
    assert_eq!(c.value, Some(Value::String(String::from("it's ok"))));
}

#[test]
fn parse_header_simple() {
    let cards = [
        make_card("SIMPLE  =                    T / conforms to FITS standard"),
        make_card("BITPIX  =                   16 / 16-bit integers"),
        make_card("NAXIS   =                    2 / number of axes"),
        make_card("NAXIS1  =                  100 / width"),
        make_card("NAXIS2  =                  200 / height"),
        make_card("END"),
    ];
    let block = make_header_block(&cards);
    let parsed = parse_header_blocks(&block).unwrap();

    assert_eq!(parsed.len(), 6);
    assert_eq!(parsed[0].keyword_str(), "SIMPLE");
    assert_eq!(parsed[0].value, Some(Value::Logical(true)));
    assert!(parsed[5].is_end());
}

#[test]
fn parse_header_no_end_card() {
    let cards = [
        make_card("SIMPLE  =                    T"),
        make_card("BITPIX  =                    8"),
    ];
    let block = make_header_block(&cards);
    assert!(matches!(
        parse_header_blocks(&block),
        Err(Error::UnexpectedEof)
    ));
}

#[test]
fn parse_header_empty_data() {
    assert!(matches!(
        parse_header_blocks(&[]),
        Err(Error::UnexpectedEof)
    ));
}

#[test]
fn parse_header_too_small() {
    let data = vec![b' '; 100];
    assert!(matches!(
        parse_header_blocks(&data),
        Err(Error::UnexpectedEof)
    ));
}

#[test]
fn parse_header_spanning_two_blocks() {
    let mut data = vec![b' '; 2 * BLOCK_SIZE];
    for i in 0..CARDS_PER_BLOCK {
        let kw = std::format!("KEY{:<5}", i);
        let card_str = std::format!("{}=                     {}", kw, i);
        let card = make_card(&card_str);
        let start = i * CARD_SIZE;
        data[start..start + CARD_SIZE].copy_from_slice(&card);
    }
    let end_card = make_card("END");
    data[BLOCK_SIZE..BLOCK_SIZE + CARD_SIZE].copy_from_slice(&end_card);

    let parsed = parse_header_blocks(&data).unwrap();
    assert_eq!(parsed.len(), CARDS_PER_BLOCK + 1);
    assert!(parsed.last().unwrap().is_end());
}

#[test]
fn header_byte_len_single_block() {
    let cards = [
        make_card("SIMPLE  =                    T"),
        make_card("END"),
    ];
    let block = make_header_block(&cards);
    assert_eq!(header_byte_len(&block).unwrap(), BLOCK_SIZE);
}

#[test]
fn header_byte_len_no_end() {
    let cards = [make_card("SIMPLE  =                    T")];
    let block = make_header_block(&cards);
    assert!(header_byte_len(&block).is_err());
}



fn make_keyword(name: &str) -> [u8; 8] {
    let mut k = [b' '; 8];
    let bytes = name.as_bytes();
    let len = bytes.len().min(8);
    k[..len].copy_from_slice(&bytes[..len]);
    k
}

#[test]
fn format_card_string_value_is_80_bytes() {
    let card = Card {
        keyword: make_keyword("TELESCOP"),
        value: Some(Value::String(String::from("Hubble"))),
        comment: None,
    };
    assert_eq!(format_card(&card).len(), 80);
}

#[test]
fn format_card_value_indicator() {
    let card = Card {
        keyword: make_keyword("TELESCOP"),
        value: Some(Value::String(String::from("Hubble"))),
        comment: None,
    };
    let buf = format_card(&card);
    assert_eq!(&buf[8..10], b"= ");
}

#[test]
fn format_card_integer_value() {
    let card = Card {
        keyword: make_keyword("NAXIS"),
        value: Some(Value::Integer(2)),
        comment: None,
    };
    let buf = format_card(&card);
    assert_eq!(&buf[0..8], b"NAXIS   ");
    assert_eq!(buf[29], b'2');
}

#[test]
fn format_card_logical_value() {
    let card = Card {
        keyword: make_keyword("SIMPLE"),
        value: Some(Value::Logical(true)),
        comment: None,
    };
    let buf = format_card(&card);
    assert_eq!(buf[29], b'T');
}

#[test]
fn format_card_with_comment() {
    let card = Card {
        keyword: make_keyword("NAXIS"),
        value: Some(Value::Integer(2)),
        comment: Some(String::from("number of axes")),
    };
    let buf = format_card(&card);
    let s = core::str::from_utf8(&buf).unwrap();
    assert!(s.contains("/ number of axes"));
}

#[test]
fn end_card_format() {
    let buf = format_end_card();
    assert_eq!(buf.len(), 80);
    assert_eq!(&buf[0..3], b"END");
    for &b in &buf[3..] {
        assert_eq!(b, b' ');
    }
}

#[test]
fn serialize_header_block_aligned() {
    let cards = vec![Card {
        keyword: make_keyword("SIMPLE"),
        value: Some(Value::Logical(true)),
        comment: None,
    }];
    let header = serialize_header(&cards);
    assert_eq!(header.len() % BLOCK_SIZE, 0);
    assert_eq!(header.len(), BLOCK_SIZE);
}

#[test]
fn serialize_header_contains_end() {
    let cards = vec![Card {
        keyword: make_keyword("SIMPLE"),
        value: Some(Value::Logical(true)),
        comment: None,
    }];
    let header = serialize_header(&cards);
    assert_eq!(&header[80..83], b"END");
}

#[test]
fn serialize_header_padding_is_spaces() {
    let cards = vec![Card {
        keyword: make_keyword("SIMPLE"),
        value: Some(Value::Logical(true)),
        comment: None,
    }];
    let header = serialize_header(&cards);
    for &b in &header[160..] {
        assert_eq!(b, b' ');
    }
}

#[test]
fn serialize_header_empty_cards() {
    let header = serialize_header(&[]);
    assert_eq!(header.len(), BLOCK_SIZE);
    assert_eq!(&header[0..3], b"END");
}

#[test]
fn serialize_header_exactly_one_block() {
    let cards: Vec<Card> = (0..35)
        .map(|i| Card {
            keyword: make_keyword(&std::format!("KEY{:05}", i)),
            value: Some(Value::Integer(i as i64)),
            comment: None,
        })
        .collect();
    assert_eq!(serialize_header(&cards).len(), BLOCK_SIZE);
}

#[test]
fn serialize_header_spills_to_two_blocks() {
    let cards: Vec<Card> = (0..36)
        .map(|i| Card {
            keyword: make_keyword(&std::format!("KEY{:05}", i)),
            value: Some(Value::Integer(i as i64)),
            comment: None,
        })
        .collect();
    assert_eq!(serialize_header(&cards).len(), 2 * BLOCK_SIZE);
}

#[test]
fn format_commentary_card() {
    let card = Card {
        keyword: make_keyword("COMMENT"),
        value: None,
        comment: Some(String::from("This is a comment.")),
    };
    let buf = format_card(&card);
    let text = core::str::from_utf8(&buf[8..]).unwrap();
    assert!(text.starts_with("This is a comment."));
}

#[test]
fn format_blank_card() {
    let card = Card {
        keyword: [b' '; 8],
        value: None,
        comment: None,
    };
    let buf = format_card(&card);
    for &b in &buf[..] {
        assert_eq!(b, b' ');
    }
}

#[test]
fn roundtrip_card_logical() {
    let card = Card {
        keyword: make_keyword("SIMPLE"),
        value: Some(Value::Logical(true)),
        comment: None,
    };
    let buf = format_card(&card);
    let (val, _) = parse_value(&buf[10..80]).unwrap();
    assert_eq!(val, Value::Logical(true));
}

#[test]
fn roundtrip_card_integer() {
    let card = Card {
        keyword: make_keyword("BITPIX"),
        value: Some(Value::Integer(-32)),
        comment: None,
    };
    let buf = format_card(&card);
    let (val, _) = parse_value(&buf[10..80]).unwrap();
    assert_eq!(val, Value::Integer(-32));
}

#[test]
fn roundtrip_card_string() {
    let card = Card {
        keyword: make_keyword("OBJECT"),
        value: Some(Value::String(String::from("NGC 1234"))),
        comment: None,
    };
    let buf = format_card(&card);
    let (val, _) = parse_value(&buf[10..80]).unwrap();
    assert_eq!(val, Value::String(String::from("NGC 1234")));
}

#[test]
fn roundtrip_card_string_with_comment() {
    let card = Card {
        keyword: make_keyword("OBJECT"),
        value: Some(Value::String(String::from("M31"))),
        comment: Some(String::from("Andromeda Galaxy")),
    };
    let buf = format_card(&card);
    let (val, comment) = parse_value(&buf[10..80]).unwrap();
    assert_eq!(val, Value::String(String::from("M31")));
    assert_eq!(comment.unwrap(), "Andromeda Galaxy");
}

#[test]
fn roundtrip_serialize_then_parse() {
    let cards = vec![
        Card {
            keyword: make_keyword("SIMPLE"),
            value: Some(Value::Logical(true)),
            comment: Some(String::from("conforms to FITS")),
        },
        Card {
            keyword: make_keyword("BITPIX"),
            value: Some(Value::Integer(16)),
            comment: None,
        },
        Card {
            keyword: make_keyword("NAXIS"),
            value: Some(Value::Integer(0)),
            comment: None,
        },
    ];
    let header = serialize_header(&cards);
    let parsed = parse_header_blocks(&header).unwrap();

    assert_eq!(parsed.len(), 4); // 3 cards + END
    assert_eq!(parsed[0].keyword_str(), "SIMPLE");
    assert_eq!(parsed[0].value, Some(Value::Logical(true)));
    assert_eq!(parsed[1].value, Some(Value::Integer(16)));
    assert_eq!(parsed[2].value, Some(Value::Integer(0)));
    assert!(parsed[3].is_end());
}



fn card(keyword: &[u8], value: Option<Value>) -> Card {
    Card {
        keyword: kw(keyword),
        value,
        comment: None,
    }
}

#[test]
fn valid_primary_header() {
    let cards = [
        card(b"SIMPLE", Some(Value::Logical(true))),
        card(b"BITPIX", Some(Value::Integer(16))),
        card(b"NAXIS", Some(Value::Integer(2))),
    ];
    assert!(validate_required_keywords(HduType::Primary, &cards).is_ok());
}

#[test]
fn primary_missing_simple() {
    let cards = [
        card(b"BITPIX", Some(Value::Integer(16))),
        card(b"NAXIS", Some(Value::Integer(2))),
    ];
    assert!(matches!(
        validate_required_keywords(HduType::Primary, &cards),
        Err(Error::MissingKeyword("SIMPLE"))
    ));
}

#[test]
fn primary_missing_bitpix() {
    let cards = [
        card(b"SIMPLE", Some(Value::Logical(true))),
        card(b"NAXIS", Some(Value::Integer(2))),
    ];
    assert!(matches!(
        validate_required_keywords(HduType::Primary, &cards),
        Err(Error::MissingKeyword("BITPIX"))
    ));
}

#[test]
fn primary_missing_naxis() {
    let cards = [
        card(b"SIMPLE", Some(Value::Logical(true))),
        card(b"BITPIX", Some(Value::Integer(16))),
    ];
    assert!(matches!(
        validate_required_keywords(HduType::Primary, &cards),
        Err(Error::MissingKeyword("NAXIS"))
    ));
}

#[test]
fn primary_simple_not_true() {
    let cards = [
        card(b"SIMPLE", Some(Value::Logical(false))),
        card(b"BITPIX", Some(Value::Integer(16))),
        card(b"NAXIS", Some(Value::Integer(0))),
    ];
    assert!(matches!(
        validate_required_keywords(HduType::Primary, &cards),
        Err(Error::InvalidHeader)
    ));
}

#[test]
fn primary_wrong_order() {
    let cards = [
        card(b"BITPIX", Some(Value::Integer(16))),
        card(b"SIMPLE", Some(Value::Logical(true))),
        card(b"NAXIS", Some(Value::Integer(0))),
    ];
    assert!(matches!(
        validate_required_keywords(HduType::Primary, &cards),
        Err(Error::MissingKeyword("SIMPLE"))
    ));
}

#[test]
fn primary_empty_cards() {
    let cards: &[Card] = &[];
    assert!(matches!(
        validate_required_keywords(HduType::Primary, cards),
        Err(Error::MissingKeyword("SIMPLE"))
    ));
}

#[test]
fn valid_image_extension() {
    let cards = [
        card(b"XTENSION", Some(Value::String(String::from("IMAGE")))),
        card(b"BITPIX", Some(Value::Integer(-32))),
        card(b"NAXIS", Some(Value::Integer(2))),
        card(b"NAXIS1", Some(Value::Integer(512))),
        card(b"NAXIS2", Some(Value::Integer(512))),
        card(b"PCOUNT", Some(Value::Integer(0))),
        card(b"GCOUNT", Some(Value::Integer(1))),
    ];
    assert!(validate_required_keywords(HduType::Image, &cards).is_ok());
}

#[test]
fn image_wrong_xtension() {
    let cards = [
        card(b"XTENSION", Some(Value::String(String::from("TABLE")))),
        card(b"BITPIX", Some(Value::Integer(-32))),
        card(b"NAXIS", Some(Value::Integer(2))),
        card(b"PCOUNT", Some(Value::Integer(0))),
        card(b"GCOUNT", Some(Value::Integer(1))),
    ];
    assert!(matches!(
        validate_required_keywords(HduType::Image, &cards),
        Err(Error::InvalidHeader)
    ));
}

#[test]
fn image_missing_pcount() {
    let cards = [
        card(b"XTENSION", Some(Value::String(String::from("IMAGE")))),
        card(b"BITPIX", Some(Value::Integer(-32))),
        card(b"NAXIS", Some(Value::Integer(2))),
        card(b"GCOUNT", Some(Value::Integer(1))),
    ];
    assert!(matches!(
        validate_required_keywords(HduType::Image, &cards),
        Err(Error::MissingKeyword("PCOUNT"))
    ));
}

#[test]
fn valid_ascii_table() {
    let cards = [
        card(b"XTENSION", Some(Value::String(String::from("TABLE")))),
        card(b"BITPIX", Some(Value::Integer(8))),
        card(b"NAXIS", Some(Value::Integer(2))),
        card(b"NAXIS1", Some(Value::Integer(100))),
        card(b"NAXIS2", Some(Value::Integer(50))),
        card(b"PCOUNT", Some(Value::Integer(0))),
        card(b"GCOUNT", Some(Value::Integer(1))),
        card(b"TFIELDS", Some(Value::Integer(5))),
    ];
    assert!(validate_required_keywords(HduType::AsciiTable, &cards).is_ok());
}

#[test]
fn ascii_table_wrong_bitpix() {
    let cards = [
        card(b"XTENSION", Some(Value::String(String::from("TABLE")))),
        card(b"BITPIX", Some(Value::Integer(16))),
        card(b"NAXIS", Some(Value::Integer(2))),
        card(b"NAXIS1", Some(Value::Integer(100))),
        card(b"NAXIS2", Some(Value::Integer(50))),
        card(b"PCOUNT", Some(Value::Integer(0))),
        card(b"GCOUNT", Some(Value::Integer(1))),
        card(b"TFIELDS", Some(Value::Integer(5))),
    ];
    assert!(matches!(
        validate_required_keywords(HduType::AsciiTable, &cards),
        Err(Error::InvalidHeader)
    ));
}

#[test]
fn ascii_table_missing_tfields() {
    let cards = [
        card(b"XTENSION", Some(Value::String(String::from("TABLE")))),
        card(b"BITPIX", Some(Value::Integer(8))),
        card(b"NAXIS", Some(Value::Integer(2))),
        card(b"NAXIS1", Some(Value::Integer(100))),
        card(b"NAXIS2", Some(Value::Integer(50))),
        card(b"PCOUNT", Some(Value::Integer(0))),
        card(b"GCOUNT", Some(Value::Integer(1))),
    ];
    assert!(matches!(
        validate_required_keywords(HduType::AsciiTable, &cards),
        Err(Error::MissingKeyword("TFIELDS"))
    ));
}

#[test]
fn valid_binary_table() {
    let cards = [
        card(b"XTENSION", Some(Value::String(String::from("BINTABLE")))),
        card(b"BITPIX", Some(Value::Integer(8))),
        card(b"NAXIS", Some(Value::Integer(2))),
        card(b"NAXIS1", Some(Value::Integer(32))),
        card(b"NAXIS2", Some(Value::Integer(1000))),
        card(b"PCOUNT", Some(Value::Integer(0))),
        card(b"GCOUNT", Some(Value::Integer(1))),
        card(b"TFIELDS", Some(Value::Integer(3))),
    ];
    assert!(validate_required_keywords(HduType::BinaryTable, &cards).is_ok());
}

#[test]
fn binary_table_wrong_xtension() {
    let cards = [
        card(b"XTENSION", Some(Value::String(String::from("IMAGE")))),
        card(b"BITPIX", Some(Value::Integer(8))),
        card(b"NAXIS", Some(Value::Integer(2))),
        card(b"NAXIS1", Some(Value::Integer(32))),
        card(b"NAXIS2", Some(Value::Integer(1000))),
        card(b"PCOUNT", Some(Value::Integer(0))),
        card(b"GCOUNT", Some(Value::Integer(1))),
        card(b"TFIELDS", Some(Value::Integer(3))),
    ];
    assert!(matches!(
        validate_required_keywords(HduType::BinaryTable, &cards),
        Err(Error::InvalidHeader)
    ));
}

#[test]
fn binary_table_wrong_bitpix() {
    let cards = [
        card(b"XTENSION", Some(Value::String(String::from("BINTABLE")))),
        card(b"BITPIX", Some(Value::Integer(-32))),
        card(b"NAXIS", Some(Value::Integer(2))),
        card(b"NAXIS1", Some(Value::Integer(32))),
        card(b"NAXIS2", Some(Value::Integer(1000))),
        card(b"PCOUNT", Some(Value::Integer(0))),
        card(b"GCOUNT", Some(Value::Integer(1))),
        card(b"TFIELDS", Some(Value::Integer(3))),
    ];
    assert!(matches!(
        validate_required_keywords(HduType::BinaryTable, &cards),
        Err(Error::InvalidHeader)
    ));
}

#[test]
fn binary_table_missing_naxis2() {
    let cards = [
        card(b"XTENSION", Some(Value::String(String::from("BINTABLE")))),
        card(b"BITPIX", Some(Value::Integer(8))),
        card(b"NAXIS", Some(Value::Integer(2))),
        card(b"NAXIS1", Some(Value::Integer(32))),
        card(b"PCOUNT", Some(Value::Integer(0))),
        card(b"GCOUNT", Some(Value::Integer(1))),
        card(b"TFIELDS", Some(Value::Integer(3))),
    ];
    assert!(matches!(
        validate_required_keywords(HduType::BinaryTable, &cards),
        Err(Error::MissingKeyword("NAXIS2"))
    ));
}

#[test]
fn image_xtension_with_trailing_spaces() {
    let cards = [
        card(b"XTENSION", Some(Value::String(String::from("IMAGE   ")))),
        card(b"BITPIX", Some(Value::Integer(-64))),
        card(b"NAXIS", Some(Value::Integer(0))),
        card(b"PCOUNT", Some(Value::Integer(0))),
        card(b"GCOUNT", Some(Value::Integer(1))),
    ];
    assert!(validate_required_keywords(HduType::Image, &cards).is_ok());
}

#[test]
fn hdu_type_clone_copy_eq() {
    let a = HduType::Primary;
    let b = a;
    assert_eq!(a, b);
}

