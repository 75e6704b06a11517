use fitsio_pure::header::{kw, Card};
use fitsio_pure::value::Value;
use fitsio_pure::tiled::check_tiled_readable;
use fitsio_pure::tiled::RiceParams;
use fitsio_pure::tiled::nonzero_count;
use fitsio_pure::tiled::read_p_descriptor;
use fitsio_pure::tiled::rice_decompress;


#[test]
fn test_rice_params() {
    let p8 = RiceParams::for_bytepix(1).unwrap();
    assert_eq!(p8.fsbits, 3);
    assert_eq!(p8.fsmax, 6);

    let p16 = RiceParams::for_bytepix(2).unwrap();
    assert_eq!(p16.fsbits, 4);
    assert_eq!(p16.fsmax, 14);

    let p32 = RiceParams::for_bytepix(4).unwrap();
    assert_eq!(p32.fsbits, 5);
    assert_eq!(p32.fsmax, 25);
}

#[test]
fn test_p_descriptor() {
    let mut data = [0u8; 8];
    data[0..4].copy_from_slice(&100u32.to_be_bytes());
    data[4..8].copy_from_slice(&200u32.to_be_bytes());
    let (count, offset) = read_p_descriptor(&data);
    assert_eq!(count, 100);
    assert_eq!(offset, 200);
}

#[test]
fn test_nonzero_count_table() {
    assert_eq!(nonzero_count(0), 0);
    assert_eq!(nonzero_count(1), 1);
    assert_eq!(nonzero_count(2), 2);
    assert_eq!(nonzero_count(3), 2);
    assert_eq!(nonzero_count(128), 8);
    assert_eq!(nonzero_count(255), 8);
}

#[test]
fn test_rice_low_entropy() {
    // Construct a Rice-compressed stream: first pixel = 42 (i16),
    // then one block of all-zeros (fs = -1, encoded as fs+1 = 0).
    let params = RiceParams::for_bytepix(2).unwrap();
    let blocksize = 4;

    // First pixel: 42 as big-endian i16
    let mut data = vec![0u8, 42];
    // FS value: 0 means fs = -1 (low entropy). FSBITS=4 so we need 4 bits = 0000.
    // Pack 0000_0000 into one byte (the 4 fs bits are 0000, rest is padding)
    data.push(0x00);

    let result = rice_decompress(&data, 5, blocksize, &params).unwrap();
    assert_eq!(result, vec![42, 42, 42, 42, 42]);
}


fn compressed_hdu(cmptype: &str, znaxes: Vec<usize>, ztile: Vec<usize>, blocksize: usize, naxis1: usize, naxis2: usize) -> fitsio_pure::hdu::Hdu {
    let cards = vec![
        Card { keyword: kw(b"TTYPE1"), value: Some(Value::String(String::from("COMPRESSED_DATA"))), comment: None },
        Card { keyword: kw(b"TFORM1"), value: Some(Value::String(String::from("1PB(64)"))), comment: None },
    ];
    fitsio_pure::hdu::Hdu {
        info: fitsio_pure::hdu::HduInfo::CompressedImage {
            zbitpix: 8,
            znaxes,
            zcmptype: String::from(cmptype),
            ztile,
            blocksize,
            rice_bytepix: 1,
            naxis1,
            naxis2,
            pcount: 0,
            tfields: 1,
        },
        header_start: 0,
        data_start: 2880,
        data_len: 0,
        cards,
    }
}

#[test]
fn tiled_readable_accepts_ordinary_layouts() {
    let data = vec![0u8; 5760];
    assert!(check_tiled_readable(&data, &compressed_hdu("GZIP_1", vec![10, 10], vec![10, 1], 32, 8, 10)));
    assert!(check_tiled_readable(&data, &compressed_hdu("RICE_1", vec![10, 10], vec![10, 1], 32, 8, 10)));
}

#[test]
fn tiled_readable_rejects_what_cannot_be_read() {
    let data = vec![0u8; 5760];
    // Rice needs a positive block size.
    assert!(!check_tiled_readable(&data, &compressed_hdu("RICE_1", vec![10, 10], vec![10, 1], 0, 8, 10)));
    // A Rice tile of more than i32::MAX pixels.
    assert!(!check_tiled_readable(&data, &compressed_hdu("RICE_1", vec![100_000, 100_000], vec![100_000, 100_000], 32, 8, 1)));
    // The table's rows run past the address space.
    assert!(!check_tiled_readable(&data, &compressed_hdu("GZIP_1", vec![10, 10], vec![10, 1], 32, usize::MAX / 2, 10)));
    // An image without pixels reads nothing from its tiles.
    assert!(check_tiled_readable(&data, &compressed_hdu("GZIP_1", vec![0, 5], vec![1, 1], 32, usize::MAX / 2, 10)));
}

#[test]
fn tiled_readable_holds_for_other_hdus() {
    let hdu = fitsio_pure::hdu::Hdu {
        info: fitsio_pure::hdu::HduInfo::Image { bitpix: 8, naxes: vec![2] },
        header_start: 0,
        data_start: 2880,
        data_len: 2,
        cards: vec![],
    };
    assert!(check_tiled_readable(&[0u8; 2882], &hdu));
}
