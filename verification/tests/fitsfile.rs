use fitsio_pure::bintable::{BinaryColumnDescriptor, BinaryColumnType};
use fitsio_pure::compat::fitsfile::{FileOpenMode, FitsFile};
use fitsio_pure::compat::hdu::HduInfo;
use fitsio_pure::compat::headers::{ReadsKey, WritesKey};
use fitsio_pure::compat::images::{ImageDescription, ImageType};

fn new_file() -> FitsFile {
    FitsFile::create("test.fits").into_file().unwrap()
}

#[test]
fn new_file_holds_one_primary_hdu() {
    let f = new_file();
    assert_eq!(f.mode(), FileOpenMode::ReadWrite);
    assert_eq!(f.filename(), "test.fits");
    assert_eq!(f.data().len(), 2880);
    assert_eq!(f.num_hdus().unwrap(), 1);
    assert_eq!(f.primary_hdu().unwrap().hdu_index, 0);
}

#[test]
fn builder_sets_overwrite() {
    let b = FitsFile::create("out.fits");
    assert!(!b.overwrites());
    let b = b.overwrite();
    assert!(b.overwrites());
    assert_eq!(b.path(), "out.fits");
}

#[test]
fn create_image_appends_extension() {
    let mut f = new_file();
    let desc = ImageDescription { data_type: ImageType::Float, dimensions: vec![10, 10] };
    let hdu = f.create_image("SCI", &desc).unwrap();
    assert_eq!(hdu.hdu_index, 1);
    assert_eq!(f.num_hdus().unwrap(), 2);
    // header block plus 400 bytes of pixels padded to one block
    assert_eq!(f.data().len(), 2880 * 3);
    assert_eq!(f.hdu("SCI").unwrap().hdu_index, 1);
    assert_eq!(f.hdu(0usize).unwrap().hdu_index, 0);
    assert!(f.hdu("MISSING").is_err());
    assert!(f.hdu(5usize).is_err());
    assert_eq!(f.iter().unwrap().len(), 2);
}

#[test]
fn create_table_appends_extension() {
    let mut f = new_file();
    let cols = vec![BinaryColumnDescriptor {
        name: Some(String::from("X")),
        repeat: 1,
        col_type: BinaryColumnType::Int,
        byte_width: 4,
    }];
    let hdu = f.create_table("TAB", &cols).unwrap();
    assert_eq!(hdu.hdu_index, 1);
    match hdu.info(&f).unwrap() {
        HduInfo::TableInfo { column_count, row_count } => {
            assert_eq!(column_count, 1);
            assert_eq!(row_count, 0);
        }
        _ => panic!("expected a table"),
    }
}

#[test]
fn primary_info_is_empty_image() {
    let f = new_file();
    let hdu = f.primary_hdu().unwrap();
    match hdu.info(&f).unwrap() {
        HduInfo::ImageInfo { shape, image_type } => {
            assert!(shape.is_empty());
            assert_eq!(image_type, ImageType::UnsignedByte);
        }
        _ => panic!("expected an image"),
    }
}

#[test]
fn write_then_read_keys() {
    let mut f = new_file();
    let hdu = f.primary_hdu().unwrap();
    hdu.write_key(&mut f, "TESTVAL", &42i64).unwrap();
    hdu.write_key(&mut f, "FLAG", &true).unwrap();
    hdu.write_key(&mut f, "OBJECT", &String::from("NGC 1234")).unwrap();
    let n: i64 = hdu.read_key(&f, "TESTVAL").unwrap();
    let b: bool = hdu.read_key(&f, "FLAG").unwrap();
    let s: String = hdu.read_key(&f, "OBJECT").unwrap();
    assert_eq!(n, 42);
    assert!(b);
    assert_eq!(s, "NGC 1234");
    // writing again replaces the value
    i64::write_key(&mut f, &hdu, "TESTVAL", &-7).unwrap();
    assert_eq!(i64::read_key(&f, &hdu, "TESTVAL").unwrap(), -7);
}

#[test]
fn read_key_errors() {
    let mut f = new_file();
    let hdu = f.primary_hdu().unwrap();
    assert!(i64::read_key(&f, &hdu, "MISSING").is_err());
    hdu.write_key(&mut f, "FLAG", &true).unwrap();
    assert!(i64::read_key(&f, &hdu, "FLAG").is_err());
    let other = f.hdu(0usize).unwrap();
    assert_eq!(bool::read_key(&f, &other, "FLAG").unwrap(), true);
}
