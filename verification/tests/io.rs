use fitsio_pure::io::Read;
use fitsio_pure::io::Write;
use fitsio_pure::io::Seek;
use fitsio_pure::io::Cursor;
use fitsio_pure::io::IoError;
use fitsio_pure::io::SeekFrom;


#[test]
fn cursor_read_basic() {
    let data = b"hello world";
    let mut cursor = Cursor::new(&data[..]);
    let mut buf = [0u8; 5];
    let n = cursor.read(&mut buf).unwrap();
    assert_eq!(n, 5);
    assert_eq!(&buf, b"hello");
}

#[test]
fn cursor_read_exact_success() {
    let data = b"abcdef";
    let mut cursor = Cursor::new(&data[..]);
    let mut buf = [0u8; 6];
    cursor.read_exact(&mut buf).unwrap();
    assert_eq!(&buf, b"abcdef");
}

#[test]
fn cursor_read_exact_short_read() {
    let data = b"abc";
    let mut cursor = Cursor::new(&data[..]);
    let mut buf = [0u8; 6];
    let result = cursor.read_exact(&mut buf);
    assert!(result.is_err());
}

#[test]
fn cursor_read_at_eof_returns_zero() {
    let data = b"hi";
    let mut cursor = Cursor::new(&data[..]);
    let mut buf = [0u8; 10];
    let _ = cursor.read(&mut buf).unwrap();
    let n = cursor.read(&mut buf).unwrap();
    assert_eq!(n, 0);
}

#[test]
fn cursor_seek_from_start() {
    let data = b"abcdefgh";
    let mut cursor = Cursor::new(&data[..]);
    let pos = cursor.seek(SeekFrom::Start(3)).unwrap();
    assert_eq!(pos, 3);
    let mut buf = [0u8; 2];
    cursor.read_exact(&mut buf).unwrap();
    assert_eq!(&buf, b"de");
}

#[test]
fn cursor_seek_from_current() {
    let data = b"abcdefgh";
    let mut cursor = Cursor::new(&data[..]);
    cursor.seek(SeekFrom::Start(2)).unwrap();
    let pos = cursor.seek(SeekFrom::Current(3)).unwrap();
    assert_eq!(pos, 5);
    let mut buf = [0u8; 1];
    cursor.read_exact(&mut buf).unwrap();
    assert_eq!(&buf, b"f");
}

#[test]
fn cursor_seek_from_current_negative() {
    let data = b"abcdefgh";
    let mut cursor = Cursor::new(&data[..]);
    cursor.seek(SeekFrom::Start(5)).unwrap();
    let pos = cursor.seek(SeekFrom::Current(-2)).unwrap();
    assert_eq!(pos, 3);
    let mut buf = [0u8; 1];
    cursor.read_exact(&mut buf).unwrap();
    assert_eq!(&buf, b"d");
}

#[test]
fn cursor_seek_from_end() {
    let data = b"abcdefgh";
    let mut cursor = Cursor::new(&data[..]);
    let pos = cursor.seek(SeekFrom::End(-3)).unwrap();
    assert_eq!(pos, 5);
    let mut buf = [0u8; 3];
    cursor.read_exact(&mut buf).unwrap();
    assert_eq!(&buf, b"fgh");
}

#[test]
fn cursor_seek_end_zero() {
    let data = b"abcd";
    let mut cursor = Cursor::new(&data[..]);
    let pos = cursor.seek(SeekFrom::End(0)).unwrap();
    assert_eq!(pos, 4);
    let mut buf = [0u8; 1];
    let n = cursor.read(&mut buf).unwrap();
    assert_eq!(n, 0);
}

#[test]
fn cursor_vec_write_and_read_back() {
    let mut cursor = Cursor::new(Vec::<u8>::new());
    cursor.write_all(b"fits data").unwrap();
    cursor.seek(SeekFrom::Start(0)).unwrap();
    let mut buf = [0u8; 9];
    cursor.read_exact(&mut buf).unwrap();
    assert_eq!(&buf, b"fits data");
}

#[test]
fn cursor_vec_write_extends_buffer() {
    let mut cursor = Cursor::new(Vec::<u8>::new());
    cursor.write_all(b"hello").unwrap();
    assert_eq!(cursor.get_ref().len(), 5);
    cursor.write_all(b" world").unwrap();
    assert_eq!(cursor.get_ref().len(), 11);
    assert_eq!(cursor.get_ref(), b"hello world");
}

#[test]
fn cursor_vec_overwrite_middle() {
    let mut cursor = Cursor::new(Vec::<u8>::new());
    cursor.write_all(b"aaabbbccc").unwrap();
    cursor.seek(SeekFrom::Start(3)).unwrap();
    cursor.write_all(b"XXX").unwrap();
    assert_eq!(cursor.get_ref(), b"aaaXXXccc");
}

#[test]
fn cursor_vec_seek_past_end_then_write() {
    let mut cursor = Cursor::new(Vec::<u8>::new());
    cursor.write_all(b"ab").unwrap();
    cursor.seek(SeekFrom::Start(5)).unwrap();
    cursor.write_all(b"c").unwrap();
    assert_eq!(cursor.get_ref().len(), 6);
    assert_eq!(cursor.get_ref()[0], b'a');
    assert_eq!(cursor.get_ref()[1], b'b');
    assert_eq!(cursor.get_ref()[2], 0);
    assert_eq!(cursor.get_ref()[3], 0);
    assert_eq!(cursor.get_ref()[4], 0);
    assert_eq!(cursor.get_ref()[5], b'c');
}

#[test]
fn cursor_vec_flush_is_noop() {
    let mut cursor = Cursor::new(Vec::<u8>::new());
    cursor.flush().unwrap();
}

#[test]
fn cursor_position_tracking() {
    let data = b"abcdef";
    let mut cursor = Cursor::new(&data[..]);
    assert_eq!(cursor.position(), 0);
    let mut buf = [0u8; 3];
    cursor.read_exact(&mut buf).unwrap();
    assert_eq!(cursor.position(), 3);
    cursor.seek(SeekFrom::Start(1)).unwrap();
    assert_eq!(cursor.position(), 1);
}

#[test]
fn cursor_into_inner() {
    let data = vec![1u8, 2, 3];
    let cursor = Cursor::new(data);
    let inner = cursor.into_inner();
    assert_eq!(inner, vec![1, 2, 3]);
}

#[test]
fn cursor_set_position() {
    let data = b"abcdef";
    let mut cursor = Cursor::new(&data[..]);
    cursor.set_position(4);
    assert_eq!(cursor.position(), 4);
    let mut buf = [0u8; 2];
    cursor.read_exact(&mut buf).unwrap();
    assert_eq!(&buf, b"ef");
}

#[test]
fn seek_to_negative_position_fails() {
    let data = b"abc";
    let mut cursor = Cursor::new(&data[..]);
    let result = cursor.seek(SeekFrom::Current(-1));
    assert!(result.is_err());
}

#[test]
fn io_error_display() {
    let e = IoError::UnexpectedEof;
    assert_eq!(e.message(), "unexpected end of file");
    let e = IoError::WriteZero;
    assert_eq!(e.message(), "write zero");
    let e = IoError::InvalidSeek;
    assert_eq!(e.message(), "invalid seek to negative position");
}

