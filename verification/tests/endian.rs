use fitsio_pure::endian::buf_f32_be_to_native;
use fitsio_pure::endian::buf_f64_be_to_native;
use fitsio_pure::endian::buf_i16_be_to_native;
use fitsio_pure::endian::buf_i16_native_to_be;
use fitsio_pure::endian::buf_i32_be_to_native;
use fitsio_pure::endian::buf_i32_native_to_be;
use fitsio_pure::endian::buf_i64_be_to_native;
use fitsio_pure::endian::buf_i64_native_to_be;
use fitsio_pure::endian::buf_u16_be_to_native;
use fitsio_pure::endian::buf_u32_be_to_native;
use fitsio_pure::endian::buf_u64_be_to_native;
use fitsio_pure::endian::read_i16_be;
use fitsio_pure::endian::read_i32_be;
use fitsio_pure::endian::read_i64_be;
use fitsio_pure::endian::read_u16_be;
use fitsio_pure::endian::read_u32_be;
use fitsio_pure::endian::read_u64_be;
use fitsio_pure::endian::read_u8;
use fitsio_pure::endian::write_i16_be;
use fitsio_pure::endian::write_i32_be;
use fitsio_pure::endian::write_i64_be;
use fitsio_pure::endian::write_u16_be;
use fitsio_pure::endian::write_u32_be;
use fitsio_pure::endian::write_u64_be;
use fitsio_pure::endian::write_u8;


// --- read/write round-trip tests ---

#[test]
fn roundtrip_u8() {
    let mut buf = [0u8; 1];
    write_u8(&mut buf, 0xAB);
    assert_eq!(read_u8(&buf), 0xAB);
}

#[test]
fn roundtrip_i16() {
    let mut buf = [0u8; 2];
    for val in [0_i16, 1, -1, i16::MIN, i16::MAX, 256, -256] {
        write_i16_be(&mut buf, val);
        assert_eq!(read_i16_be(&buf), val);
    }
}

#[test]
fn roundtrip_u16() {
    let mut buf = [0u8; 2];
    for val in [0_u16, 1, u16::MAX, 256, 0xFF00] {
        write_u16_be(&mut buf, val);
        assert_eq!(read_u16_be(&buf), val);
    }
}

#[test]
fn roundtrip_i32() {
    let mut buf = [0u8; 4];
    for val in [0_i32, 1, -1, i32::MIN, i32::MAX, 0x01020304, -0x01020304] {
        write_i32_be(&mut buf, val);
        assert_eq!(read_i32_be(&buf), val);
    }
}

#[test]
fn roundtrip_u32() {
    let mut buf = [0u8; 4];
    for val in [0_u32, 1, u32::MAX, 0xDEADBEEF] {
        write_u32_be(&mut buf, val);
        assert_eq!(read_u32_be(&buf), val);
    }
}

#[test]
fn roundtrip_i64() {
    let mut buf = [0u8; 8];
    for val in [0_i64, 1, -1, i64::MIN, i64::MAX] {
        write_i64_be(&mut buf, val);
        assert_eq!(read_i64_be(&buf), val);
    }
}

#[test]
fn roundtrip_u64() {
    let mut buf = [0u8; 8];
    for val in [0_u64, 1, u64::MAX, 0xDEADBEEFCAFEBABE] {
        write_u64_be(&mut buf, val);
        assert_eq!(read_u64_be(&buf), val);
    }
}

// --- Known byte sequence tests ---

#[test]
fn known_bytes_i16() {
    assert_eq!(read_i16_be(&[0x00, 0x01]), 1_i16);
    assert_eq!(read_i16_be(&[0xFF, 0xFF]), -1_i16);
    assert_eq!(read_i16_be(&[0x80, 0x00]), i16::MIN);
    assert_eq!(read_i16_be(&[0x7F, 0xFF]), i16::MAX);
    assert_eq!(read_i16_be(&[0x01, 0x00]), 256_i16);
}

#[test]
fn known_bytes_u16() {
    assert_eq!(read_u16_be(&[0x00, 0x01]), 1_u16);
    assert_eq!(read_u16_be(&[0xFF, 0xFF]), u16::MAX);
    assert_eq!(read_u16_be(&[0x00, 0x00]), 0_u16);
}

#[test]
fn known_bytes_i32() {
    assert_eq!(read_i32_be(&[0x00, 0x00, 0x00, 0x01]), 1_i32);
    assert_eq!(read_i32_be(&[0xFF, 0xFF, 0xFF, 0xFF]), -1_i32);
    assert_eq!(read_i32_be(&[0x80, 0x00, 0x00, 0x00]), i32::MIN);
    assert_eq!(read_i32_be(&[0x7F, 0xFF, 0xFF, 0xFF]), i32::MAX);
}

#[test]
fn known_bytes_i64() {
    assert_eq!(
        read_i64_be(&[0x00, 0x00, 0x00, 0x00, 0x00, 0x00, 0x00, 0x01]),
        1_i64
    );
    assert_eq!(
        read_i64_be(&[0xFF, 0xFF, 0xFF, 0xFF, 0xFF, 0xFF, 0xFF, 0xFF]),
        -1_i64
    );
    assert_eq!(
        read_i64_be(&[0x80, 0x00, 0x00, 0x00, 0x00, 0x00, 0x00, 0x00]),
        i64::MIN
    );
}

#[test]
fn write_known_bytes_i16() {
    let mut buf = [0u8; 2];
    write_i16_be(&mut buf, 1);
    assert_eq!(buf, [0x00, 0x01]);
    write_i16_be(&mut buf, -1);
    assert_eq!(buf, [0xFF, 0xFF]);
}

#[test]
fn write_known_bytes_i32() {
    let mut buf = [0u8; 4];
    write_i32_be(&mut buf, 1);
    assert_eq!(buf, [0x00, 0x00, 0x00, 0x01]);
}

// --- Bulk conversion tests ---

#[test]
fn bulk_i16_roundtrip() {
    let values: [i16; 4] = [1, -1, i16::MIN, i16::MAX];
    let mut buf = [0u8; 8];
    for (i, &v) in values.iter().enumerate() {
        write_i16_be(&mut buf[i * 2..], v);
    }
    let original = buf;

    buf_i16_be_to_native(&mut buf);
    buf_i16_native_to_be(&mut buf);
    assert_eq!(buf, original);
}

#[test]
fn bulk_i32_roundtrip() {
    let values: [i32; 3] = [1, -1, i32::MAX];
    let mut buf = [0u8; 12];
    for (i, &v) in values.iter().enumerate() {
        write_i32_be(&mut buf[i * 4..], v);
    }
    let original = buf;

    buf_i32_be_to_native(&mut buf);
    buf_i32_native_to_be(&mut buf);
    assert_eq!(buf, original);
}

#[test]
fn bulk_i64_roundtrip() {
    let values: [i64; 2] = [i64::MIN, i64::MAX];
    let mut buf = [0u8; 16];
    for (i, &v) in values.iter().enumerate() {
        write_i64_be(&mut buf[i * 8..], v);
    }
    let original = buf;

    buf_i64_be_to_native(&mut buf);
    buf_i64_native_to_be(&mut buf);
    assert_eq!(buf, original);
}

#[test]
fn bulk_u16_roundtrip() {
    let values: [u16; 3] = [0, 1, u16::MAX];
    let mut buf = [0u8; 6];
    for (i, &v) in values.iter().enumerate() {
        write_u16_be(&mut buf[i * 2..], v);
    }
    let original = buf;

    buf_u16_be_to_native(&mut buf);
    // Convert back: read as native, write as big-endian
    for chunk in buf.chunks_exact_mut(2) {
        let val = u16::from_ne_bytes([chunk[0], chunk[1]]);
        let be = val.to_be_bytes();
        chunk[0] = be[0];
        chunk[1] = be[1];
    }
    assert_eq!(buf, original);
}

#[test]
fn bulk_u32_roundtrip() {
    let values: [u32; 2] = [0, u32::MAX];
    let mut buf = [0u8; 8];
    for (i, &v) in values.iter().enumerate() {
        write_u32_be(&mut buf[i * 4..], v);
    }
    let original = buf;

    buf_u32_be_to_native(&mut buf);
    for chunk in buf.chunks_exact_mut(4) {
        let val = u32::from_ne_bytes([chunk[0], chunk[1], chunk[2], chunk[3]]);
        let be = val.to_be_bytes();
        chunk.copy_from_slice(&be);
    }
    assert_eq!(buf, original);
}

#[test]
fn bulk_u64_roundtrip() {
    let values: [u64; 2] = [0, u64::MAX];
    let mut buf = [0u8; 16];
    for (i, &v) in values.iter().enumerate() {
        write_u64_be(&mut buf[i * 8..], v);
    }
    let original = buf;

    buf_u64_be_to_native(&mut buf);
    for chunk in buf.chunks_exact_mut(8) {
        let val = u64::from_ne_bytes([
            chunk[0], chunk[1], chunk[2], chunk[3], chunk[4], chunk[5], chunk[6], chunk[7],
        ]);
        let be = val.to_be_bytes();
        chunk.copy_from_slice(&be);
    }
    assert_eq!(buf, original);
}

#[test]
fn bulk_empty_buffer() {
    let mut empty: [u8; 0] = [];
    buf_i16_be_to_native(&mut empty);
    buf_i32_be_to_native(&mut empty);
    buf_i64_be_to_native(&mut empty);
    buf_f32_be_to_native(&mut empty);
    buf_f64_be_to_native(&mut empty);
}

#[test]
fn bulk_be_to_native_reads_correctly() {
    let mut buf = [0u8; 8];
    write_i16_be(&mut buf[0..], 100);
    write_i16_be(&mut buf[2..], -200);
    write_i16_be(&mut buf[4..], i16::MAX);
    write_i16_be(&mut buf[6..], i16::MIN);

    buf_i16_be_to_native(&mut buf);

    assert_eq!(i16::from_ne_bytes([buf[0], buf[1]]), 100);
    assert_eq!(i16::from_ne_bytes([buf[2], buf[3]]), -200);
    assert_eq!(i16::from_ne_bytes([buf[4], buf[5]]), i16::MAX);
    assert_eq!(i16::from_ne_bytes([buf[6], buf[7]]), i16::MIN);
}

#[test]
fn read_at_offset() {
    let buf = [0x00, 0x00, 0x00, 0x01, 0x00, 0x02];
    assert_eq!(read_i16_be(&buf[4..]), 2_i16);
    assert_eq!(read_i32_be(&buf[0..]), 1_i32);
}

