//! Minimal `Read`/`Write`/`Seek` abstractions over in-memory byte buffers.
use vstd::prelude::*;

verus! {

/// Minimal I/O error type.
#[derive(Debug, Clone, PartialEq, Eq)]
pub enum IoError {
    /// An operation attempted to read or seek past the end of available data.
    UnexpectedEof,
    /// A write was attempted on a writer that has no remaining capacity.
    WriteZero,
    /// A seek landed on a negative absolute position.
    InvalidSeek,
}

impl IoError {
    /// The human-readable message for this error.
    pub fn message(&self) -> (r: String)
        ensures
            r@ == spec_io_message(*self),
    {
        match self {
            IoError::UnexpectedEof => String::from_str("unexpected end of file"),
            IoError::WriteZero => String::from_str("write zero"),
            IoError::InvalidSeek => String::from_str("invalid seek to negative position"),
        }
    }
}

/// The message text of each I/O error.
pub open spec fn spec_io_message(e: IoError) -> Seq<char> {
    match e {
        IoError::UnexpectedEof => "unexpected end of file"@,
        IoError::WriteZero => "write zero"@,
        IoError::InvalidSeek => "invalid seek to negative position"@,
    }
}

/// Convenience result type that uses [`IoError`].
pub type Result<T> = core::result::Result<T, IoError>;

/// Describes a position to seek to within a stream.
#[derive(Debug, Clone, Copy, PartialEq, Eq)]
pub enum SeekFrom {
    /// Seek to an absolute byte offset from the start.
    Start(u64),
    /// Seek relative to the current position (may be negative).
    Current(i64),
    /// Seek relative to the end of the stream (may be negative).
    End(i64),
}

/// Read bytes from a source.
pub trait Read {
    /// Pull some bytes from this source into the specified buffer, returning
    /// how many bytes were read.
    fn read(&mut self, buf: &mut [u8]) -> (r: Result<usize>)
        ensures
            final(buf)@.len() == old(buf)@.len(),
            r matches Ok(n) ==> n <= old(buf)@.len(),
    ;

    /// Read the exact number of bytes required to fill `buf`.
    ///
    /// Returns `Err(IoError::UnexpectedEof)` if the source runs out of data
    /// before `buf` is completely filled.
    fn read_exact(&mut self, buf: &mut [u8]) -> (r: Result<()>)
        ensures
            final(buf)@.len() == old(buf)@.len(),
    ;
}

/// Write bytes to a destination.
pub trait Write {
    /// Whether this writer accepts a write of `len` bytes in its current state.
    spec fn accepts_write(&self, len: nat) -> bool;

    /// Write a buffer into this writer, returning how many bytes were written.
    fn write(&mut self, buf: &[u8]) -> (r: Result<usize>)
        requires
            old(self).accepts_write(buf@.len()),
        ensures
            r matches Ok(n) ==> n <= buf@.len(),
    ;

    /// Flush any buffered output.
    fn flush(&mut self) -> Result<()>;

    /// Attempt to write an entire buffer into this writer.
    ///
    /// Returns `Err(IoError::WriteZero)` if the writer cannot accept any more
    /// bytes before the buffer is fully consumed.
    fn write_all(&mut self, buf: &[u8]) -> Result<()>
        requires
            old(self).accepts_write(buf@.len()),
    ;
}

/// Seek to a position within a stream.
pub trait Seek {
    /// Whether this stream accepts the seek `pos` in its current state.
    spec fn accepts_seek(&self, pos: SeekFrom) -> bool;

    /// Seek to the given position, returning the new absolute offset from the
    /// start of the stream.
    fn seek(&mut self, pos: SeekFrom) -> Result<u64>
        requires
            old(self).accepts_seek(pos),
    ;
}

/// A cursor wrapping a byte buffer, providing [`Read`], [`Write`], and [`Seek`].
#[derive(Debug, Clone)]
pub struct Cursor<T> {
    inner: T,
    pos: u64,
}

impl<T> Cursor<T> {
    /// The wrapped buffer.
    pub closed spec fn spec_inner(&self) -> T {
        self.inner
    }

    /// The current byte offset.
    pub closed spec fn spec_pos(&self) -> u64 {
        self.pos
    }

    /// Create a new cursor wrapping the given byte buffer.
    pub fn new(inner: T) -> (r: Self)
        ensures
            r.spec_inner() == inner,
            r.spec_pos() == 0,
    {
        Cursor { inner, pos: 0 }
    }

    /// Return the current byte offset of the cursor.
    pub fn position(&self) -> (r: u64)
        ensures
            r == self.spec_pos(),
    {
        self.pos
    }

    /// Set the cursor position.
    pub fn set_position(&mut self, pos: u64)
        ensures
            final(self).spec_pos() == pos,
            final(self).spec_inner() == old(self).spec_inner(),
    {
        self.pos = pos;
    }

    /// Consume the cursor, returning the wrapped buffer.
    pub fn into_inner(self) -> (r: T)
        ensures
            r == self.spec_inner(),
    {
        self.inner
    }

    /// Borrow the wrapped buffer.
    pub fn get_ref(&self) -> (r: &T)
        ensures
            *r == self.spec_inner(),
    {
        &self.inner
    }

    /// Mutably borrow the wrapped buffer.
    pub fn get_mut(&mut self) -> (r: &mut T)
        ensures
            *r == old(self).spec_inner(),
            final(self).spec_inner() == *final(r),
            final(self).spec_pos() == old(self).spec_pos(),
    {
        &mut self.inner
    }
}

// ── Reading ──

/// The bytes that a read of `want` bytes from position `pos` of `data` yields.
pub open spec fn spec_read_count(data: Seq<u8>, pos: int, want: int) -> int {
    if pos >= data.len() {
        0
    } else if want < data.len() - pos {
        want
    } else {
        data.len() - pos
    }
}

/// `buf` after a read of the bytes of `data` at position `pos`.
pub open spec fn spec_read_into(data: Seq<u8>, pos: int, buf: Seq<u8>) -> Seq<u8> {
    let n = spec_read_count(data, pos, buf.len() as int);
    if pos >= data.len() {
        buf
    } else {
        data.subrange(pos, pos + n) + buf.subrange(n, buf.len() as int)
    }
}

/// Copy the available bytes of `data` at `pos` into the front of `buf`.
fn read_from(data: &[u8], pos: u64, buf: &mut [u8]) -> (n: usize)
    ensures
        n == spec_read_count(data@, pos as int, old(buf)@.len() as int),
        final(buf)@ == spec_read_into(data@, pos as int, old(buf)@),
        final(buf)@.len() == old(buf)@.len(),
        n <= old(buf)@.len(),
        n == 0 || pos + n <= data@.len(),
        data@.len() <= usize::MAX,
{
    let len = data.len();
    if pos >= len as u64 {
        assert(buf@ =~= spec_read_into(data@, pos as int, old(buf)@));
        return 0;
    }
    let start = pos as usize;
    let avail = len - start;
    let n = if buf.len() < avail { buf.len() } else { avail };
    let mut i: usize = 0;
    while i < n
        invariant
            i <= n,
            n <= buf@.len(),
            start + n <= len,
            len == data@.len(),
            buf@.len() == old(buf)@.len(),
            forall|j: int| 0 <= j < i ==> buf@[j] == data@[start + j],
            forall|j: int| i <= j < buf@.len() ==> buf@[j] == old(buf)@[j],
        decreases n - i,
    {
        buf[i] = data[start + i];
        i += 1;
    }
    assert(buf@ =~= spec_read_into(data@, pos as int, old(buf)@));
    n
}

/// The position after reading `want` bytes from position `pos`.
pub open spec fn spec_pos_after_read(data: Seq<u8>, pos: int, want: int) -> int {
    pos + spec_read_count(data, pos, want)
}

/// Read `buf.len()` bytes through repeated short reads of `data` at `pos`,
/// returning the new position and whether the buffer was filled.
fn read_exact_from(data: &[u8], pos: u64, buf: &mut [u8]) -> (r: (u64, bool))
    ensures
        final(buf)@ == spec_read_into(data@, pos as int, old(buf)@),
        r.0 == spec_pos_after_read(data@, pos as int, old(buf)@.len() as int),
        r.1 == (spec_read_count(data@, pos as int, old(buf)@.len() as int) == old(buf)@.len()),
        final(buf)@.len() == old(buf)@.len(),
{
    let blen = buf.len();
    let n = read_from(data, pos, buf);
    (pos + n as u64, n == blen)
}

impl<'a> Read for Cursor<&'a [u8]> {
    fn read(&mut self, buf: &mut [u8]) -> (r: Result<usize>)
        ensures
            r == Ok::<usize, IoError>(spec_read_count(old(self).spec_inner()@, old(self).spec_pos() as int, old(buf)@.len() as int) as usize),
            final(buf)@ == spec_read_into(old(self).spec_inner()@, old(self).spec_pos() as int, old(buf)@),
            final(self).spec_inner() == old(self).spec_inner(),
            final(self).spec_pos() == spec_pos_after_read(old(self).spec_inner()@, old(self).spec_pos() as int, old(buf)@.len() as int),
    {
        let n = read_from(self.inner, self.pos, buf);
        self.pos = self.pos + n as u64;
        Ok(n)
    }

    fn read_exact(&mut self, buf: &mut [u8]) -> (r: Result<()>)
        ensures
            final(buf)@ == spec_read_into(old(self).spec_inner()@, old(self).spec_pos() as int, old(buf)@),
            final(self).spec_inner() == old(self).spec_inner(),
            final(self).spec_pos() == spec_pos_after_read(old(self).spec_inner()@, old(self).spec_pos() as int, old(buf)@.len() as int),
            r is Ok <==> spec_read_count(old(self).spec_inner()@, old(self).spec_pos() as int, old(buf)@.len() as int) == old(buf)@.len(),
            r is Err ==> r == Err::<(), IoError>(IoError::UnexpectedEof),
    {
        let (p, full) = read_exact_from(self.inner, self.pos, buf);
        self.pos = p;
        if full {
            Ok(())
        } else {
            Err(IoError::UnexpectedEof)
        }
    }
}

impl Read for Cursor<Vec<u8>> {
    fn read(&mut self, buf: &mut [u8]) -> (r: Result<usize>)
        ensures
            r == Ok::<usize, IoError>(spec_read_count(old(self).spec_inner()@, old(self).spec_pos() as int, old(buf)@.len() as int) as usize),
            final(buf)@ == spec_read_into(old(self).spec_inner()@, old(self).spec_pos() as int, old(buf)@),
            final(self).spec_inner()@ == old(self).spec_inner()@,
            final(self).spec_pos() == spec_pos_after_read(old(self).spec_inner()@, old(self).spec_pos() as int, old(buf)@.len() as int),
    {
        let n = read_from(self.inner.as_slice(), self.pos, buf);
        self.pos = self.pos + n as u64;
        Ok(n)
    }

    fn read_exact(&mut self, buf: &mut [u8]) -> (r: Result<()>)
        ensures
            final(buf)@ == spec_read_into(old(self).spec_inner()@, old(self).spec_pos() as int, old(buf)@),
            final(self).spec_inner()@ == old(self).spec_inner()@,
            final(self).spec_pos() == spec_pos_after_read(old(self).spec_inner()@, old(self).spec_pos() as int, old(buf)@.len() as int),
            r is Ok <==> spec_read_count(old(self).spec_inner()@, old(self).spec_pos() as int, old(buf)@.len() as int) == old(buf)@.len(),
            r is Err ==> r == Err::<(), IoError>(IoError::UnexpectedEof),
    {
        let (p, full) = read_exact_from(self.inner.as_slice(), self.pos, buf);
        self.pos = p;
        if full {
            Ok(())
        } else {
            Err(IoError::UnexpectedEof)
        }
    }
}

// ── Seeking ──

/// A `u64` read as the `i64` it is cast to.
pub open spec fn as_i64(x: u64) -> int {
    if x >= 0x8000_0000_0000_0000 {
        x - 0x1_0000_0000_0000_0000
    } else {
        x as int
    }
}

/// The signed target of a seek, computed as `i64` arithmetic.
pub open spec fn spec_seek_target(current: u64, len: u64, from: SeekFrom) -> int {
    match from {
        SeekFrom::Start(offset) => as_i64(offset),
        SeekFrom::Current(offset) => as_i64(current) + offset,
        SeekFrom::End(offset) => as_i64(len) + offset,
    }
}

/// Whether computing the seek target stays within `i64`.
pub open spec fn seek_in_range(current: u64, len: u64, from: SeekFrom) -> bool {
    i64::MIN <= spec_seek_target(current, len, from) <= i64::MAX
}

fn as_i64_exec(x: u64) -> (r: i64)
    ensures
        r == as_i64(x),
{
    if x >= 0x8000_0000_0000_0000 {
        (x - 0x8000_0000_0000_0000) as i64 + i64::MIN
    } else {
        x as i64
    }
}

fn compute_seek_pos(current: u64, len: u64, from: SeekFrom) -> (r: Result<u64>)
    requires
        seek_in_range(current, len, from),
    ensures
        spec_seek_target(current, len, from) < 0 ==> r == Err::<u64, IoError>(IoError::InvalidSeek),
        spec_seek_target(current, len, from) >= 0 ==> r == Ok::<u64, IoError>(spec_seek_target(current, len, from) as u64),
{
    let new_pos: i64 = match from {
        SeekFrom::Start(offset) => as_i64_exec(offset),
        SeekFrom::Current(offset) => as_i64_exec(current) + offset,
        SeekFrom::End(offset) => as_i64_exec(len) + offset,
    };
    if new_pos < 0 {
        return Err(IoError::InvalidSeek);
    }
    Ok(new_pos as u64)
}

impl<'a> Seek for Cursor<&'a [u8]> {
    open spec fn accepts_seek(&self, pos: SeekFrom) -> bool {
        seek_in_range(self.spec_pos(), self.spec_inner()@.len() as u64, pos)
    }

    fn seek(&mut self, pos: SeekFrom) -> (r: Result<u64>)
        ensures
            final(self).spec_inner() == old(self).spec_inner(),
            ({
                let t = spec_seek_target(old(self).spec_pos(), old(self).spec_inner()@.len() as u64, pos);
                &&& t < 0 ==> r == Err::<u64, IoError>(IoError::InvalidSeek) && final(self).spec_pos() == old(self).spec_pos()
                &&& t >= 0 ==> r == Ok::<u64, IoError>(t as u64) && final(self).spec_pos() == t
            }),
    {
        let new_pos = compute_seek_pos(self.pos, self.inner.len() as u64, pos)?;
        self.pos = new_pos;
        Ok(new_pos)
    }
}

impl Seek for Cursor<Vec<u8>> {
    open spec fn accepts_seek(&self, pos: SeekFrom) -> bool {
        seek_in_range(self.spec_pos(), self.spec_inner()@.len() as u64, pos)
    }

    fn seek(&mut self, pos: SeekFrom) -> (r: Result<u64>)
        ensures
            final(self).spec_inner() == old(self).spec_inner(),
            ({
                let t = spec_seek_target(old(self).spec_pos(), old(self).spec_inner()@.len() as u64, pos);
                &&& t < 0 ==> r == Err::<u64, IoError>(IoError::InvalidSeek) && final(self).spec_pos() == old(self).spec_pos()
                &&& t >= 0 ==> r == Ok::<u64, IoError>(t as u64) && final(self).spec_pos() == t
            }),
    {
        let new_pos = compute_seek_pos(self.pos, self.inner.len() as u64, pos)?;
        self.pos = new_pos;
        Ok(new_pos)
    }
}

// ── Writing ──

/// `data` after writing `buf` at `start`, zero-extending it first when the
/// write reaches past its end.
pub open spec fn spec_write_at(data: Seq<u8>, start: int, buf: Seq<u8>) -> Seq<u8> {
    let end = start + buf.len();
    let new_len = if end > data.len() { end } else { data.len() as int };
    Seq::new(new_len as nat, |i: int|
        if start <= i < end {
            buf[i - start]
        } else if i < data.len() {
            data[i]
        } else {
            0u8
        })
}

impl Write for Cursor<Vec<u8>> {
    open spec fn accepts_write(&self, len: nat) -> bool {
        self.spec_pos() + len <= usize::MAX
    }

    fn write(&mut self, buf: &[u8]) -> (r: Result<usize>)
        ensures
            r == Ok::<usize, IoError>(buf@.len() as usize),
            final(self).spec_inner()@ == spec_write_at(old(self).spec_inner()@, old(self).spec_pos() as int, buf@),
            final(self).spec_pos() == old(self).spec_pos() + buf@.len(),
    {
        let start = self.pos as usize;
        let blen = buf.len();
        let end = start + blen;
        let ghost d = old(self).spec_inner()@;
        while self.inner.len() < end
            invariant
                end == start + blen,
                self.inner@.len() <= (if end > d.len() { end as int } else { d.len() as int }),
                self.inner@.len() >= d.len(),
                forall|j: int| 0 <= j < self.inner@.len() ==> #[trigger] self.inner@[j] == (if j < d.len() { d[j] } else { 0u8 }),
                self.pos == old(self).spec_pos(),
            decreases end - self.inner@.len(),
        {
            self.inner.push(0);
        }
        let mut i: usize = 0;
        while i < blen
            invariant
                i <= blen,
                blen == buf@.len(),
                start == old(self).spec_pos(),
                end == start + blen,
                end <= self.inner@.len(),
                self.inner@.len() == (if end > d.len() { end as int } else { d.len() as int }),
                forall|j: int| start <= j < start + i ==> #[trigger] self.inner@[j] == buf@[j - start],
                forall|j: int| 0 <= j < self.inner@.len() && !(start <= j < start + i) ==> #[trigger] self.inner@[j] == (if j < d.len() { d[j] } else { 0u8 }),
                self.pos == old(self).spec_pos(),
            decreases blen - i,
        {
            self.inner.set(start + i, buf[i]);
            i += 1;
        }
        self.pos = self.pos + blen as u64;
        assert(self.inner@ =~= spec_write_at(old(self).spec_inner()@, old(self).spec_pos() as int, buf@));
        Ok(blen)
    }

    fn flush(&mut self) -> (r: Result<()>)
        ensures
            r == Ok::<(), IoError>(()),
            *final(self) == *old(self),
    {
        Ok(())
    }

    fn write_all(&mut self, buf: &[u8]) -> (r: Result<()>)
        ensures
            r == Ok::<(), IoError>(()),
            final(self).spec_inner()@ == spec_write_at(old(self).spec_inner()@, old(self).spec_pos() as int, buf@),
            final(self).spec_pos() == old(self).spec_pos() + buf@.len(),
    {
        let _ = self.write(buf)?;
        Ok(())
    }
}

} // verus!
