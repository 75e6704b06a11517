use fitsio_pure::bintable::{
    build_binary_table_cards, read_binary_column, read_binary_column_range, serialize_binary_table_hdu, BinaryColumnData,
    BinaryColumnDescriptor, BinaryColumnType,
};
use fitsio_pure::compat::fitsfile::FitsFile;
use fitsio_pure::compat::hdu::FitsHdu;
use fitsio_pure::compat::tables::{column_writable_exec, ReadsCol, ReadsColRange, WritesCol};
use fitsio_pure::hdu::parse_fits;
use fitsio_pure::header::{serialize_header, Card};
use fitsio_pure::value::Value;

fn created(path: &str) -> FitsFile {
    FitsFile::create(path).into_file().unwrap()
}

fn append_hdu(f: &mut FitsFile, hdu_bytes: &[u8]) -> FitsHdu {
    let mut data = f.data().to_vec();
    data.extend_from_slice(hdu_bytes);
    f.set_data(data);
    f.hdu(1usize).unwrap()
}

fn column(name: &str, col_type: BinaryColumnType, byte_width: usize) -> BinaryColumnDescriptor {
    BinaryColumnDescriptor { name: Some(name.to_string()), repeat: 1, col_type, byte_width }
}

fn doubles(v: &[f64]) -> BinaryColumnData {
    BinaryColumnData::Double(v.iter().map(|x| x.to_bits()).collect())
}

fn double_values(d: BinaryColumnData) -> Vec<f64> {
    match d {
        BinaryColumnData::Double(v) => v.into_iter().map(f64::from_bits).collect(),
        other => panic!("expected doubles, got {:?}", other),
    }
}

/// The VAL column of HDU 1, read as stored doubles.
fn val_column(f: &FitsFile) -> Vec<f64> {
    let parsed = parse_fits(f.data()).unwrap();
    double_values(read_binary_column(f.data(), &parsed.hdus[1], 1).unwrap())
}

fn make_test_table(f: &mut FitsFile) -> FitsHdu {
    let columns = vec![column("ID", BinaryColumnType::Int, 4), column("VAL", BinaryColumnType::Double, 8)];
    let col_data = vec![BinaryColumnData::Int(vec![10, 20, 30, 40, 50]), doubles(&[1.5, 2.5, 3.5, 4.5, 5.5])];
    let hdu_bytes = serialize_binary_table_hdu(&columns, &col_data, 5).unwrap();
    append_hdu(f, &hdu_bytes)
}

fn make_typed_table(f: &mut FitsFile) -> FitsHdu {
    let columns = vec![
        column("FLAG", BinaryColumnType::Logical, 1),
        column("SHORT", BinaryColumnType::Short, 2),
        column("FLOAT", BinaryColumnType::Float, 4),
    ];
    let col_data = vec![
        BinaryColumnData::Logical(vec![true, false, true, true]),
        BinaryColumnData::Short(vec![-1, 0, 255, 300]),
        BinaryColumnData::Float(vec![1.5f32.to_bits(), (-2.5f32).to_bits(), 2.4f32.to_bits(), 3.0e9f32.to_bits()]),
    ];
    let hdu_bytes = serialize_binary_table_hdu(&columns, &col_data, 4).unwrap();
    append_hdu(f, &hdu_bytes)
}

/// A `TFORM I` column with `TZERO1 = 32768`: the FITS encoding of `u16`.
fn make_unsigned_table(f: &mut FitsFile) -> FitsHdu {
    let columns = vec![column("U16", BinaryColumnType::Short, 2)];
    let mut cards = build_binary_table_cards(&columns, 3, 0).unwrap();
    let mut keyword = [b' '; 8];
    keyword[..6].copy_from_slice(b"TZERO1");
    cards.push(Card { keyword, value: Some(Value::Integer(32768)), comment: None });

    let mut hdu_bytes = serialize_header(&cards);
    for raw in [-32768i16, -1, 32767] {
        hdu_bytes.extend_from_slice(&raw.to_be_bytes());
    }
    hdu_bytes.resize(hdu_bytes.len().div_ceil(2880) * 2880, 0);
    append_hdu(f, &hdu_bytes)
}

#[test]
fn create_table_and_read() {
    let mut f = created("table.fits");
    let columns = vec![column("ID", BinaryColumnType::Int, 4), column("VAL", BinaryColumnType::Double, 8)];
    let col_data = vec![BinaryColumnData::Int(vec![10, 20, 30]), doubles(&[1.5, 2.5, 3.5])];
    let hdu_bytes = serialize_binary_table_hdu(&columns, &col_data, 3).unwrap();
    let hdu = append_hdu(&mut f, &hdu_bytes);

    let ids: Vec<i32> = i32::read_col(&f, &hdu, "ID").unwrap();
    assert_eq!(ids, vec![10, 20, 30]);

    let vals = val_column(&f);
    assert!((vals[0] - 1.5).abs() < 1e-10);
    assert!((vals[1] - 2.5).abs() < 1e-10);
    assert!((vals[2] - 3.5).abs() < 1e-10);
}

#[test]
fn read_missing_column_returns_error() {
    let mut f = created("table.fits");
    let columns = vec![column("X", BinaryColumnType::Int, 4)];
    let col_data = vec![BinaryColumnData::Int(vec![1])];
    let hdu_bytes = serialize_binary_table_hdu(&columns, &col_data, 1).unwrap();
    let hdu = append_hdu(&mut f, &hdu_bytes);
    assert!(i32::read_col(&f, &hdu, "MISSING").is_err());
}

#[test]
fn read_col_range_middle_rows() {
    let mut f = created("table.fits");
    let hdu = make_test_table(&mut f);

    let ids: Vec<i32> = i32::read_col_range(&f, &hdu, "ID", 1, 3).unwrap();
    assert_eq!(ids, vec![20, 30, 40]);

    let parsed = parse_fits(f.data()).unwrap();
    let vals = double_values(read_binary_column_range(f.data(), &parsed.hdus[1], 1, 2, 2).unwrap());
    assert!((vals[0] - 3.5).abs() < 1e-10);
    assert!((vals[1] - 4.5).abs() < 1e-10);
}

#[test]
fn read_col_range_first_row() {
    let mut f = created("table.fits");
    let hdu = make_test_table(&mut f);
    let ids: Vec<i32> = i32::read_col_range(&f, &hdu, "ID", 0, 1).unwrap();
    assert_eq!(ids, vec![10]);
}

#[test]
fn read_col_range_out_of_bounds() {
    let mut f = created("table.fits");
    let hdu = make_test_table(&mut f);
    assert!(i32::read_col_range(&f, &hdu, "ID", 3, 5).is_err());
}

#[test]
fn write_col_i32() {
    let mut f = created("table.fits");
    let hdu = make_test_table(&mut f);
    assert!(column_writable_exec(&f, 1, "ID"));

    let new_data = vec![100, 200, 300, 400, 500];
    i32::write_col(&mut f, &hdu, "ID", &new_data).unwrap();

    let read_back: Vec<i32> = i32::read_col(&f, &hdu, "ID").unwrap();
    assert_eq!(read_back, new_data);
}

#[test]
fn write_col_preserves_other_columns() {
    let mut f = created("table.fits");
    let hdu = make_test_table(&mut f);

    i32::write_col(&mut f, &hdu, "ID", &[100, 200, 300, 400, 500]).unwrap();

    let vals = val_column(&f);
    assert!((vals[0] - 1.5).abs() < 1e-10);
    assert!((vals[4] - 5.5).abs() < 1e-10);
}

#[test]
fn hdu_write_col_method() {
    let mut f = created("table.fits");
    let hdu = make_test_table(&mut f);

    hdu.write_col(&mut f, "ID", &[99i32, 88, 77, 66, 55]).unwrap();
    let read_back: Vec<i32> = hdu.read_col(&f, "ID").unwrap();
    assert_eq!(read_back, vec![99, 88, 77, 66, 55]);
}

#[test]
fn hdu_read_col_range_method() {
    let mut f = created("table.fits");
    let hdu = make_test_table(&mut f);

    let ids: Vec<i64> = hdu.read_col_range(&f, "ID", 0, 3).unwrap();
    assert_eq!(ids, vec![10, 20, 30]);
    let parsed = parse_fits(f.data()).unwrap();
    let vals = double_values(read_binary_column_range(f.data(), &parsed.hdus[1], 1, 0, 3).unwrap());
    assert_eq!(vals.len(), 3);
    assert!((vals[0] - 1.5).abs() < 1e-10);
    assert!((vals[2] - 3.5).abs() < 1e-10);
}

#[test]
fn read_bool_column() {
    let mut f = created("t.fits");
    let hdu = make_typed_table(&mut f);

    let flags: Vec<bool> = hdu.read_col(&f, "FLAG").unwrap();
    assert_eq!(flags, vec![true, false, true, true]);

    let range: Vec<bool> = hdu.read_col_range(&f, "FLAG", 1, 2).unwrap();
    assert_eq!(range, vec![false, true]);

    assert!(bool::read_col(&f, &hdu, "SHORT").is_err());
}

#[test]
fn read_integer_column_as_other_types() {
    let mut f = created("t.fits");
    let hdu = make_typed_table(&mut f);

    let wide: Vec<i64> = hdu.read_col(&f, "SHORT").unwrap();
    assert_eq!(wide, vec![-1, 0, 255, 300]);

    assert!(u8::read_col(&f, &hdu, "SHORT").is_err());
    let narrow: Vec<u8> = hdu.read_col_range(&f, "SHORT", 1, 2).unwrap();
    assert_eq!(narrow, vec![0, 255]);
}

#[test]
fn write_checks_storage_range() {
    let mut f = created("t.fits");
    let hdu = make_typed_table(&mut f);

    assert!(i64::write_col(&mut f, &hdu, "SHORT", &[1, 2, 3, 40000]).is_err());
    let unchanged: Vec<i16> = hdu.read_col(&f, "SHORT").unwrap();
    assert_eq!(unchanged, vec![-1, 0, 255, 300]);

    u32::write_col(&mut f, &hdu, "SHORT", &[0, 1, 2, 32767]).unwrap();
    let read_back: Vec<i16> = hdu.read_col(&f, "SHORT").unwrap();
    assert_eq!(read_back, vec![0, 1, 2, 32767]);
}

#[test]
fn tzero_column_reads_and_writes_unsigned() {
    let mut f = created("t.fits");
    let hdu = make_unsigned_table(&mut f);

    let values: Vec<u16> = hdu.read_col(&f, "U16").unwrap();
    assert_eq!(values, vec![0, 32767, 65535]);
    let wide: Vec<i64> = hdu.read_col(&f, "U16").unwrap();
    assert_eq!(wide, vec![0, 32767, 65535]);
    assert!(i16::read_col(&f, &hdu, "U16").is_err());

    u16::write_col(&mut f, &hdu, "U16", &[65535, 40000, 1]).unwrap();
    let parsed = parse_fits(f.data()).unwrap();
    let raw = read_binary_column(f.data(), &parsed.hdus[1], 0).unwrap();
    assert_eq!(raw, BinaryColumnData::Short(vec![32767, 7232, -32767]));
}

#[test]
fn column_errors_name_the_column() {
    let mut f = created("t.fits");
    let hdu = make_typed_table(&mut f);

    let e = i32::read_col(&f, &hdu, "FLAG").unwrap_err();
    assert_eq!(e.message(), "column 'FLAG' is not numeric type");
    let e = i32::read_col(&f, &hdu, "FLOAT").unwrap_err();
    assert_eq!(e.message(), "scaled column values need floating point");
    let e = u8::read_col(&f, &hdu, "SHORT").unwrap_err();
    assert_eq!(e.message(), "value out of range for column 'SHORT'");
    let e = i32::write_col(&mut f, &hdu, "SHORT", &[1, 2, 3]).unwrap_err();
    assert!(e.message().len() > 0);
    let e = i32::write_col(&mut f, &hdu, "FLAG", &[1, 2, 3, 4]).unwrap_err();
    assert_eq!(e.message(), "column 'FLAG' is not numeric type");
}

#[test]
fn write_string_column() {
    let mut f = created("t.fits");
    let columns = vec![BinaryColumnDescriptor {
        name: Some("NAME".to_string()),
        repeat: 5,
        col_type: BinaryColumnType::Ascii,
        byte_width: 5,
    }];
    let col_data = vec![BinaryColumnData::Ascii(vec!["a".to_string(), "b".to_string()])];
    let hdu_bytes = serialize_binary_table_hdu(&columns, &col_data, 2).unwrap();
    let hdu = append_hdu(&mut f, &hdu_bytes);

    String::write_col(&mut f, &hdu, "NAME", &["hello".to_string(), "x".to_string()]).unwrap();
    let names: Vec<String> = hdu.read_col(&f, "NAME").unwrap();
    assert_eq!(names, vec!["hello".to_string(), "x".to_string()]);
    let tail: Vec<String> = String::read_col_range(&f, &hdu, "NAME", 1, 1).unwrap();
    assert_eq!(tail, vec!["x".to_string()]);
}
