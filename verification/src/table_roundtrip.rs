//! Writing a binary table and reading its columns back.

use vstd::prelude::*;

use crate::bintable::{
    be_at, be_grid, byte_width, cells, column_offset, column_wf, elem_pos, fill_row, fill_rows, joined,
    short_elem, int_elem, long_elem, word_elem, dword_elem, word_pair_elem, dword_pair_elem,
    spec_column_cells, spec_serialize_binary_table, types_match, values_len, ascii_cell, ascii_cell_bytes, row_base, BinaryColumnType,
    lemma_cells_len, lemma_column_offset_mono, lemma_mul_le, spec_cell_bytes, splice, BinaryColumnModel, ColumnValues,
};
use crate::endian::{be_bytes, be_uint, lemma_be_roundtrip, lemma_be_uint_prefix, lemma_pow256_values, to_signed, to_unsigned};
use crate::block::{lemma_padded_len_bounds, spec_padded_len};
use crate::error::Error;
use crate::text::{lemma_text_then_spaces, trim_end};
use vstd::utf8::{decode_utf8, encode_utf8, valid_utf8};

verus! {

/// The bytes of the cell of column `j` in row `row`.
pub open spec fn cell_of(cols: Seq<BinaryColumnModel>, data: Seq<ColumnValues>, row: int, j: int) -> Seq<u8> {
    spec_cell_bytes(cols[j].col_type, cols[j].repeat as nat, data[j], row)->Ok_0
}

/// The cell of column `j` in row `row` is there and as wide as the column.
pub open spec fn cell_sized(cols: Seq<BinaryColumnModel>, data: Seq<ColumnValues>, row: int, j: int) -> bool {
    &&& spec_cell_bytes(cols[j].col_type, cols[j].repeat as nat, data[j], row) is Ok
    &&& cell_of(cols, data, row, j).len() == cols[j].byte_width
}

/// Every column of the first `kk` has a cell in row `row` as wide as the
/// column.
pub open spec fn row_cells_sized(cols: Seq<BinaryColumnModel>, data: Seq<ColumnValues>, row: int, kk: int) -> bool {
    forall|j: int| 0 <= j < kk ==> #[trigger] cell_sized(cols, data, row, j)
}

/// Writing the first `kk` cells of a row puts each cell in its place in the
/// row and leaves every byte outside the written part of the row alone.
proof fn lemma_fill_row(buf: Seq<u8>, cols: Seq<BinaryColumnModel>, data: Seq<ColumnValues>, naxis1: int, row: int, kk: nat)
    requires
        kk <= cols.len(),
        0 <= row,
        0 <= naxis1,
        row * naxis1 + column_offset(cols, kk as int) <= buf.len(),
        row_cells_sized(cols, data, row, kk as int),
    ensures
        fill_row(buf, cols, data, naxis1, row, kk).len() == buf.len(),
        forall|i: int| 0 <= i < buf.len() && !(row * naxis1 <= i < row * naxis1 + column_offset(cols, kk as int))
            ==> #[trigger] fill_row(buf, cols, data, naxis1, row, kk)[i] == buf[i],
        forall|j: int| 0 <= j < kk ==> fill_row(buf, cols, data, naxis1, row, kk).subrange(
            row * naxis1 + column_offset(cols, j), row * naxis1 + column_offset(cols, j + 1))
            == #[trigger] cell_of(cols, data, row, j),
    decreases kk,
{
    lemma_column_offset_mono(cols, kk as int);
    assert(column_offset(cols, 0) == 0);
    if kk > 0 {
        let k1 = (kk - 1) as nat;
        assert(cell_sized(cols, data, row, k1 as int));
        lemma_column_offset_mono(cols, k1 as int);
        lemma_fill_row(buf, cols, data, naxis1, row, k1);
        let prev = fill_row(buf, cols, data, naxis1, row, k1);
        let cell = cell_of(cols, data, row, k1 as int);
        let p = row * naxis1 + column_offset(cols, k1 as int);
        assert(row * naxis1 >= 0) by (nonlinear_arith) requires row >= 0, naxis1 >= 0;
        assert(column_offset(cols, kk as int) == column_offset(cols, k1 as int) + cols[k1 as int].byte_width);
        assert(cell.len() == cols[k1 as int].byte_width);
        assert(p + cell.len() <= prev.len());
        let cur = fill_row(buf, cols, data, naxis1, row, kk);
        assert(cur == splice(prev, p, cell));
        assert(cur.len() == prev.len());
        assert forall|i: int| 0 <= i < prev.len() && !(p <= i < p + cell.len()) implies #[trigger] cur[i] == prev[i] by {
            if i < p {
                assert(cur[i] == prev.subrange(0, p)[i]);
            } else {
                assert(cur[i] == prev.subrange(p + cell.len(), prev.len() as int)[i - p - cell.len()]);
            }
        }
        assert forall|i: int| 0 <= i < buf.len() && !(row * naxis1 <= i < row * naxis1 + column_offset(cols, kk as int))
            implies #[trigger] fill_row(buf, cols, data, naxis1, row, kk)[i] == buf[i] by {
            assert(fill_row(buf, cols, data, naxis1, row, k1)[i] == buf[i]);
        }
        assert forall|j: int| 0 <= j < kk implies cur.subrange(
            row * naxis1 + column_offset(cols, j), row * naxis1 + column_offset(cols, j + 1))
            == #[trigger] cell_of(cols, data, row, j) by {
            if j < k1 {
                lemma_column_offset_mono(cols, k1 as int);
                assert(column_offset(cols, j + 1) <= column_offset(cols, k1 as int));
                assert(column_offset(cols, j) <= column_offset(cols, j + 1));
                assert(cur.len() == prev.len());
                let lo = row * naxis1 + column_offset(cols, j);
                let hi = row * naxis1 + column_offset(cols, j + 1);
                lemma_column_offset_mono(cols, j);
                lemma_column_offset_mono(cols, j + 1);
                assert(0 <= lo <= hi <= p);
                assert forall|t: int| 0 <= t < hi - lo implies cur.subrange(lo, hi)[t] == prev.subrange(lo, hi)[t] by {
                    assert(cur[lo + t] == prev[lo + t]);
                }
                assert(cur.subrange(row * naxis1 + column_offset(cols, j), row * naxis1 + column_offset(cols, j + 1))
                    =~= prev.subrange(row * naxis1 + column_offset(cols, j), row * naxis1 + column_offset(cols, j + 1)));
            } else {
                assert(cur.subrange(p, p + cell.len()) =~= cell);
            }
        }
    }
}

/// Every cell of the first `n` rows is there and as wide as its column.
pub open spec fn rows_cells_sized(cols: Seq<BinaryColumnModel>, data: Seq<ColumnValues>, n: int) -> bool {
    forall|row: int, j: int| 0 <= row < n && 0 <= j < cols.len() ==> #[trigger] cell_sized(cols, data, row, j)
}

/// Writing the first `n` rows puts every cell of them in its place and
/// leaves the bytes after them alone.
proof fn lemma_fill_rows(buf: Seq<u8>, cols: Seq<BinaryColumnModel>, data: Seq<ColumnValues>, naxis1: int, n: nat)
    requires
        naxis1 == column_offset(cols, cols.len() as int),
        n * naxis1 <= buf.len(),
        rows_cells_sized(cols, data, n as int),
    ensures
        fill_rows(buf, cols, data, naxis1, n).len() == buf.len(),
        forall|i: int| n * naxis1 <= i < buf.len() ==> #[trigger] fill_rows(buf, cols, data, naxis1, n)[i] == buf[i],
        forall|row: int, j: int| 0 <= row < n && 0 <= j < cols.len() ==> fill_rows(buf, cols, data, naxis1, n).subrange(
            row * naxis1 + column_offset(cols, j), row * naxis1 + column_offset(cols, j + 1))
            == #[trigger] cell_of(cols, data, row, j),
    decreases n,
{
    lemma_column_offset_mono(cols, cols.len() as int);
    assert(column_offset(cols, 0) == 0);
    if n > 0 {
        let n1 = (n - 1) as nat;
        assert(n1 * naxis1 + naxis1 == n * naxis1) by (nonlinear_arith) requires n1 + 1 == n;
        assert(n1 * naxis1 >= 0) by (nonlinear_arith) requires naxis1 >= 0;
        lemma_fill_rows(buf, cols, data, naxis1, n1);
        let prev = fill_rows(buf, cols, data, naxis1, n1);
        let base = n1 * naxis1;
        assert(row_cells_sized(cols, data, n1 as int, cols.len() as int));
        lemma_fill_row(prev, cols, data, naxis1, n1 as int, cols.len());
        let cur = fill_rows(buf, cols, data, naxis1, n);
        assert(cur == fill_row(prev, cols, data, naxis1, n1 as int, cols.len()));
        assert forall|i: int| n * naxis1 <= i < buf.len() implies #[trigger] cur[i] == buf[i] by {
            assert(fill_row(prev, cols, data, naxis1, n1 as int, cols.len())[i] == prev[i]);
            assert(prev[i] == buf[i]);
        }
        assert forall|row: int, j: int| 0 <= row < n && 0 <= j < cols.len() implies cur.subrange(
            row * naxis1 + column_offset(cols, j), row * naxis1 + column_offset(cols, j + 1))
            == #[trigger] cell_of(cols, data, row, j) by {
            if row < n1 {
                lemma_column_offset_mono(cols, j);
                lemma_column_offset_mono(cols, j + 1);
                assert(row * naxis1 + naxis1 <= n1 * naxis1) by (nonlinear_arith) requires row + 1 <= n1, naxis1 >= 0;
                assert(row * naxis1 >= 0) by (nonlinear_arith) requires row >= 0, naxis1 >= 0;
                let lo = row * naxis1 + column_offset(cols, j);
                let hi = row * naxis1 + column_offset(cols, j + 1);
                assert(0 <= lo <= hi <= base);
                assert forall|t: int| 0 <= t < hi - lo implies cur.subrange(lo, hi)[t] == prev.subrange(lo, hi)[t] by {
                    assert(fill_row(prev, cols, data, naxis1, n1 as int, cols.len())[lo + t] == prev[lo + t]);
                }
                assert(cur.subrange(lo, hi) =~= prev.subrange(lo, hi));
            }
        }
    }
}

/// Element `r` of row `row` of a grid of cells is the one the grid's
/// function gives there.
proof fn lemma_cells_index<T>(rows: nat, repeat: nat, f: spec_fn(int, int) -> T, row: int, r: int)
    requires
        0 <= row < rows,
        0 <= r < repeat,
    ensures
        cells(rows, repeat, f).len() == rows * repeat,
        row * repeat + r < rows * repeat,
        cells(rows, repeat, f)[row * repeat + r] == f(row, r),
    decreases rows,
{
    lemma_cells_len(rows, repeat, f);
    let r1 = (rows - 1) as nat;
    lemma_cells_len(r1, repeat, f);
    assert(row * repeat + r < rows * repeat) by (nonlinear_arith)
        requires row + 1 <= rows, r < repeat;
    if row < r1 {
        lemma_cells_index(r1, repeat, f, row, r);
    } else {
        assert(row * repeat == r1 * repeat);
    }
}

/// Pieces of one width joined end to end: the whole is as long as the
/// pieces together, and piece `i` sits at `i * w`.
proof fn lemma_joined(n: nat, f: spec_fn(int) -> Seq<u8>, w: nat)
    requires
        forall|i: int| 0 <= i < n ==> (#[trigger] f(i)).len() == w,
    ensures
        joined(n, f).len() == n * w,
        forall|i: int| 0 <= i < n ==> joined(n, f).subrange(i * w, i * w + w) == #[trigger] f(i),
    decreases n,
{
    if n > 0 {
        let n1 = (n - 1) as nat;
        lemma_joined(n1, f, w);
        assert(n1 * w + w == n * w) by (nonlinear_arith) requires n1 + 1 == n;
        let a = joined(n1, f);
        assert forall|i: int| 0 <= i < n implies joined(n, f).subrange(i * w, i * w + w) == #[trigger] f(i) by {
            if i < n1 {
                assert(i * w + w <= n1 * w) by (nonlinear_arith) requires i + 1 <= n1;
                assert(i * w >= 0) by (nonlinear_arith) requires i >= 0;
                assert(joined(n, f).subrange(i * w, i * w + w) =~= a.subrange(i * w, i * w + w));
            } else {
                assert(joined(n, f).subrange(i * w, i * w + w) =~= f(n1 as int));
            }
        }
    }
}

/// Reading `wd` bytes at offset `e` of element `r` of joined pieces held at
/// `p` reads those bytes of the piece.
proof fn lemma_elem_read(b: Seq<u8>, p: int, n: nat, f: spec_fn(int) -> Seq<u8>, w: nat, r: int, e: int, wd: nat)
    requires
        forall|i: int| 0 <= i < n ==> (#[trigger] f(i)).len() == w,
        0 <= p,
        p + n * w <= b.len(),
        b.subrange(p, p + n * w) == joined(n, f),
        0 <= r < n,
        0 <= e,
        e + wd <= w,
    ensures
        be_at(b, p + r * w + e, wd) == be_uint(f(r).subrange(e, w as int), wd),
{
    lemma_joined(n, f, w);
    assert(r * w + w <= n * w) by (nonlinear_arith) requires r + 1 <= n;
    assert(r * w >= 0) by (nonlinear_arith) requires r >= 0;
    let q = p + r * w + e;
    let piece = f(r);
    assert forall|t: int| 0 <= t < w implies b[p + r * w + t] == #[trigger] piece[t] by {
        assert(joined(n, f).subrange(r * w, r * w + w)[t] == piece[t]);
        assert(b.subrange(p, p + n * w)[r * w + t] == b[p + r * w + t]);
    }
    let s1 = b.subrange(q, b.len() as int);
    let s2 = piece.subrange(e, w as int);
    assert(s1.subrange(0, wd as int) =~= s2.subrange(0, wd as int)) by {
        assert forall|t: int| 0 <= t < wd implies s1.subrange(0, wd as int)[t] == s2.subrange(0, wd as int)[t] by {
            assert(b[p + r * w + (e + t)] == piece[e + t]);
        }
    }
    lemma_be_uint_prefix(s1, s2, wd);
}

/// The pieces of the cell of row `row`: elements `row * rep` on.
pub open spec fn row_pieces(elem: spec_fn(int) -> Seq<u8>, row: int, rep: nat) -> spec_fn(int) -> Seq<u8> {
    |i: int| elem(row * rep + i)
}

/// A column whose cell in each row holds the pieces of its elements, each
/// `w` bytes: reading `wd` bytes at offset `e` of every element reads those
/// bytes of its piece.
proof fn lemma_grid_read(
    b: Seq<u8>,
    naxis1: int,
    rows: nat,
    off: int,
    rep: nat,
    w: nat,
    e: int,
    wd: nat,
    at: int,
    elem: spec_fn(int) -> Seq<u8>,
)
    requires
        at == off + e,
        0 <= off,
        0 <= naxis1,
        0 <= e,
        e + wd <= w,
        forall|idx: int| 0 <= idx < rows * rep ==> (#[trigger] elem(idx)).len() == w,
        rows > 0 ==> (rows - 1) * naxis1 + off + rep * w <= b.len(),
        forall|row: int| 0 <= row < rows ==> b.subrange(row * naxis1 + off, row * naxis1 + off + rep * w)
            == joined(rep, #[trigger] row_pieces(elem, row, rep)),
    ensures
        be_grid(b, 0, naxis1, rows, at, rep, w as int, wd).len() == rows * rep,
        forall|idx: int| 0 <= idx < rows * rep ==> #[trigger] be_grid(b, 0, naxis1, rows, at, rep, w as int, wd)[idx]
            == be_uint(elem(idx).subrange(e, w as int), wd) as u64,
{
    let f = |row: int, r: int| be_at(b, elem_pos(0, naxis1, at, w as int, row, r), wd) as u64;
    lemma_cells_len(rows, rep, f);
    assert forall|idx: int| 0 <= idx < rows * rep implies #[trigger] be_grid(b, 0, naxis1, rows, at, rep, w as int, wd)[idx]
        == be_uint(elem(idx).subrange(e, w as int), wd) as u64 by {
        assert(rep > 0) by (nonlinear_arith) requires 0 <= idx < rows * rep;
        let row = idx / rep as int;
        let r = idx % rep as int;
        assert(idx == row * rep + r && 0 <= r < rep && 0 <= row < rows) by (nonlinear_arith)
            requires rep > 0, 0 <= idx < rows * rep, row == idx / rep as int, r == idx % rep as int;
        lemma_cells_index(rows, rep, f, row, r);
        lemma_mul_le(row, rows - 1, naxis1);
        let pieces = row_pieces(elem, row, rep);
        assert forall|i: int| 0 <= i < rep implies (#[trigger] pieces(i)).len() == w by {
            assert(row * rep + i < rows * rep) by (nonlinear_arith) requires row + 1 <= rows, i < rep;
            assert(pieces(i) == elem(row * rep + i));
        }
        assert(row * naxis1 >= 0) by (nonlinear_arith) requires row >= 0, naxis1 >= 0;
        lemma_elem_read(b, row * naxis1 + off, rep, pieces, w, r, e, wd);
        assert(pieces(r) == elem(idx));
    }
}

/// The bytes of the cell of a column in row `row`.
pub open spec fn cell_bytes_of(col: BinaryColumnModel, d: ColumnValues, row: int) -> Seq<u8> {
    spec_cell_bytes(col.col_type, col.repeat as nat, d, row)->Ok_0
}

/// The cells of a column lie in the data at `row * naxis1 + off`, row after
/// row, each as wide as the column.
pub open spec fn cells_placed(b: Seq<u8>, naxis1: int, naxis2: nat, off: int, col: BinaryColumnModel, d: ColumnValues) -> bool {
    &&& 0 <= off
    &&& 0 <= naxis1
    &&& naxis2 > 0 ==> (naxis2 - 1) * naxis1 + off + col.byte_width <= b.len()
    &&& forall|row: int| 0 <= row < naxis2 ==> b.subrange(row * naxis1 + off, row * naxis1 + off + col.byte_width)
        == #[trigger] cell_bytes_of(col, d, row)
}

/// The big-endian bytes of a value are as many as asked for.
proof fn lemma_be_bytes_len(u: int, n: nat)
    ensures
        be_bytes(u, n).len() == n,
    decreases n,
{
    if n > 0 {
        lemma_be_bytes_len(u / 256, (n - 1) as nat);
    }
}

/// A 16-bit column reads back the values written to it.
proof fn lemma_read_short(b: Seq<u8>, naxis1: int, naxis2: nat, off: int, col: BinaryColumnModel, v: Seq<i16>)
    requires
        col.col_type == BinaryColumnType::Short,
        column_wf(col),
        v.len() == naxis2 * col.repeat,
        cells_placed(b, naxis1, naxis2, off, col, ColumnValues::Short(v)),
    ensures
        spec_column_cells(b, 0, naxis1, naxis2, col, off) == Ok::<ColumnValues, Error>(ColumnValues::Short(v)),
{
    let rep = col.repeat as nat;
    let d = ColumnValues::Short(v);
    let elem = |idx: int| be_bytes(to_unsigned(v[idx] as int, 16), 2);
    lemma_pow256_values();
    assert forall|idx: int| 0 <= idx < naxis2 * rep implies (#[trigger] elem(idx)).len() == 2 by {
        lemma_be_bytes_len(to_unsigned(v[idx] as int, 16), 2);
    }
    assert forall|row: int| 0 <= row < naxis2 implies b.subrange(row * naxis1 + off, row * naxis1 + off + rep * 2)
        == joined(rep, #[trigger] row_pieces(elem, row, rep)) by {
        assert(cell_bytes_of(col, d, row) == joined(rep, short_elem(v, row * rep)));
        assert(short_elem(v, row * rep) =~= row_pieces(elem, row, rep));
    }
    lemma_grid_read(b, naxis1, naxis2, off, rep, 2, 0, 2, off, elem);
    let g = be_grid(b, 0, naxis1, naxis2, off, rep, 2, 2);
    let m = g.map_values(|u: u64| to_signed(u as int, 16) as i16);
    assert forall|idx: int| 0 <= idx < v.len() implies m[idx] == v[idx] by {
        let u = to_unsigned(v[idx] as int, 16);
        lemma_be_roundtrip(u, 2, Seq::empty());
        assert(elem(idx).subrange(0, 2) =~= elem(idx) + Seq::<u8>::empty());
    }
    assert(m =~= v);
}

/// A 32-bit integer column reads back the values written to it.
proof fn lemma_read_int(b: Seq<u8>, naxis1: int, naxis2: nat, off: int, col: BinaryColumnModel, v: Seq<i32>)
    requires
        col.col_type == BinaryColumnType::Int,
        column_wf(col),
        v.len() == naxis2 * col.repeat,
        cells_placed(b, naxis1, naxis2, off, col, ColumnValues::Int(v)),
    ensures
        spec_column_cells(b, 0, naxis1, naxis2, col, off) == Ok::<ColumnValues, Error>(ColumnValues::Int(v)),
{
    let rep = col.repeat as nat;
    let d = ColumnValues::Int(v);
    let elem = |idx: int| be_bytes(to_unsigned(v[idx] as int, 32), 4);
    lemma_pow256_values();
    assert forall|idx: int| 0 <= idx < naxis2 * rep implies (#[trigger] elem(idx)).len() == 4 by {
        lemma_be_bytes_len(to_unsigned(v[idx] as int, 32), 4);
    }
    assert forall|row: int| 0 <= row < naxis2 implies b.subrange(row * naxis1 + off, row * naxis1 + off + rep * 4)
        == joined(rep, #[trigger] row_pieces(elem, row, rep)) by {
        assert(cell_bytes_of(col, d, row) == joined(rep, int_elem(v, row * rep)));
        assert(int_elem(v, row * rep) =~= row_pieces(elem, row, rep));
    }
    lemma_grid_read(b, naxis1, naxis2, off, rep, 4, 0, 4, off, elem);
    let g = be_grid(b, 0, naxis1, naxis2, off, rep, 4, 4);
    let m = g.map_values(|u: u64| to_signed(u as int, 32) as i32);
    assert forall|idx: int| 0 <= idx < v.len() implies m[idx] == v[idx] by {
        let u = to_unsigned(v[idx] as int, 32);
        lemma_be_roundtrip(u, 4, Seq::empty());
        assert(elem(idx).subrange(0, 4) =~= elem(idx) + Seq::<u8>::empty());
    }
    assert(m =~= v);
}

/// A 64-bit integer column reads back the values written to it.
proof fn lemma_read_long(b: Seq<u8>, naxis1: int, naxis2: nat, off: int, col: BinaryColumnModel, v: Seq<i64>)
    requires
        col.col_type == BinaryColumnType::Long,
        column_wf(col),
        v.len() == naxis2 * col.repeat,
        cells_placed(b, naxis1, naxis2, off, col, ColumnValues::Long(v)),
    ensures
        spec_column_cells(b, 0, naxis1, naxis2, col, off) == Ok::<ColumnValues, Error>(ColumnValues::Long(v)),
{
    let rep = col.repeat as nat;
    let d = ColumnValues::Long(v);
    let elem = |idx: int| be_bytes(to_unsigned(v[idx] as int, 64), 8);
    lemma_pow256_values();
    assert forall|idx: int| 0 <= idx < naxis2 * rep implies (#[trigger] elem(idx)).len() == 8 by {
        lemma_be_bytes_len(to_unsigned(v[idx] as int, 64), 8);
    }
    assert forall|row: int| 0 <= row < naxis2 implies b.subrange(row * naxis1 + off, row * naxis1 + off + rep * 8)
        == joined(rep, #[trigger] row_pieces(elem, row, rep)) by {
        assert(cell_bytes_of(col, d, row) == joined(rep, long_elem(v, row * rep)));
        assert(long_elem(v, row * rep) =~= row_pieces(elem, row, rep));
    }
    lemma_grid_read(b, naxis1, naxis2, off, rep, 8, 0, 8, off, elem);
    let g = be_grid(b, 0, naxis1, naxis2, off, rep, 8, 8);
    let m = g.map_values(|u: u64| to_signed(u as int, 64) as i64);
    assert forall|idx: int| 0 <= idx < v.len() implies m[idx] == v[idx] by {
        let u = to_unsigned(v[idx] as int, 64);
        lemma_be_roundtrip(u, 8, Seq::empty());
        assert(elem(idx).subrange(0, 8) =~= elem(idx) + Seq::<u8>::empty());
    }
    assert(m =~= v);
}

/// A 32-bit float column reads back the values written to it.
proof fn lemma_read_float(b: Seq<u8>, naxis1: int, naxis2: nat, off: int, col: BinaryColumnModel, v: Seq<u32>)
    requires
        col.col_type == BinaryColumnType::Float,
        column_wf(col),
        v.len() == naxis2 * col.repeat,
        cells_placed(b, naxis1, naxis2, off, col, ColumnValues::Float(v)),
    ensures
        spec_column_cells(b, 0, naxis1, naxis2, col, off) == Ok::<ColumnValues, Error>(ColumnValues::Float(v)),
{
    let rep = col.repeat as nat;
    let d = ColumnValues::Float(v);
    let elem = |idx: int| be_bytes(v[idx] as int, 4);
    lemma_pow256_values();
    assert forall|idx: int| 0 <= idx < naxis2 * rep implies (#[trigger] elem(idx)).len() == 4 by {
        lemma_be_bytes_len(v[idx] as int, 4);
    }
    assert forall|row: int| 0 <= row < naxis2 implies b.subrange(row * naxis1 + off, row * naxis1 + off + rep * 4)
        == joined(rep, #[trigger] row_pieces(elem, row, rep)) by {
        assert(cell_bytes_of(col, d, row) == joined(rep, word_elem(v, row * rep)));
        assert(word_elem(v, row * rep) =~= row_pieces(elem, row, rep));
    }
    lemma_grid_read(b, naxis1, naxis2, off, rep, 4, 0, 4, off, elem);
    let g = be_grid(b, 0, naxis1, naxis2, off, rep, 4, 4);
    let m = g.map_values(|u: u64| u as u32);
    assert forall|idx: int| 0 <= idx < v.len() implies m[idx] == v[idx] by {
        let u = v[idx] as int;
        lemma_be_roundtrip(u, 4, Seq::empty());
        assert(elem(idx).subrange(0, 4) =~= elem(idx) + Seq::<u8>::empty());
    }
    assert(m =~= v);
}

/// A 64-bit float column reads back the values written to it.
proof fn lemma_read_double(b: Seq<u8>, naxis1: int, naxis2: nat, off: int, col: BinaryColumnModel, v: Seq<u64>)
    requires
        col.col_type == BinaryColumnType::Double,
        column_wf(col),
        v.len() == naxis2 * col.repeat,
        cells_placed(b, naxis1, naxis2, off, col, ColumnValues::Double(v)),
    ensures
        spec_column_cells(b, 0, naxis1, naxis2, col, off) == Ok::<ColumnValues, Error>(ColumnValues::Double(v)),
{
    let rep = col.repeat as nat;
    let d = ColumnValues::Double(v);
    let elem = |idx: int| be_bytes(v[idx] as int, 8);
    lemma_pow256_values();
    assert forall|idx: int| 0 <= idx < naxis2 * rep implies (#[trigger] elem(idx)).len() == 8 by {
        lemma_be_bytes_len(v[idx] as int, 8);
    }
    assert forall|row: int| 0 <= row < naxis2 implies b.subrange(row * naxis1 + off, row * naxis1 + off + rep * 8)
        == joined(rep, #[trigger] row_pieces(elem, row, rep)) by {
        assert(cell_bytes_of(col, d, row) == joined(rep, dword_elem(v, row * rep)));
        assert(dword_elem(v, row * rep) =~= row_pieces(elem, row, rep));
    }
    lemma_grid_read(b, naxis1, naxis2, off, rep, 8, 0, 8, off, elem);
    let g = be_grid(b, 0, naxis1, naxis2, off, rep, 8, 8);
    let m = g;
    assert forall|idx: int| 0 <= idx < v.len() implies m[idx] == v[idx] by {
        let u = v[idx] as int;
        lemma_be_roundtrip(u, 8, Seq::empty());
        assert(elem(idx).subrange(0, 8) =~= elem(idx) + Seq::<u8>::empty());
    }
    assert(m =~= v);
}

/// A complex float column reads back the values written to it.
proof fn lemma_read_cfloat(b: Seq<u8>, naxis1: int, naxis2: nat, off: int, col: BinaryColumnModel, v: Seq<(u32, u32)>)
    requires
        col.col_type == BinaryColumnType::ComplexFloat,
        column_wf(col),
        v.len() == naxis2 * col.repeat,
        cells_placed(b, naxis1, naxis2, off, col, ColumnValues::ComplexFloat(v)),
    ensures
        spec_column_cells(b, 0, naxis1, naxis2, col, off) == Ok::<ColumnValues, Error>(ColumnValues::ComplexFloat(v)),
{
    let rep = col.repeat as nat;
    let d = ColumnValues::ComplexFloat(v);
    let elem = |idx: int| be_bytes(v[idx].0 as int, 4) + be_bytes(v[idx].1 as int, 4);
    lemma_pow256_values();
    assert forall|idx: int| 0 <= idx < naxis2 * rep implies (#[trigger] elem(idx)).len() == 8 by {
        lemma_be_bytes_len(v[idx].0 as int, 4);
        lemma_be_bytes_len(v[idx].1 as int, 4);
    }
    assert forall|row: int| 0 <= row < naxis2 implies b.subrange(row * naxis1 + off, row * naxis1 + off + rep * 8)
        == joined(rep, #[trigger] row_pieces(elem, row, rep)) by {
        assert(cell_bytes_of(col, d, row) == joined(rep, word_pair_elem(v, row * rep)));
        assert(word_pair_elem(v, row * rep) =~= row_pieces(elem, row, rep));
    }
    lemma_grid_read(b, naxis1, naxis2, off, rep, 8, 0, 4, off, elem);
    lemma_grid_read(b, naxis1, naxis2, off, rep, 8, 4, 4, off + 4, elem);
    let re = be_grid(b, 0, naxis1, naxis2, off, rep, 8, 4);
    let im = be_grid(b, 0, naxis1, naxis2, off + 4, rep, 8, 4);
    let m = Seq::new(re.len(), |i: int| (re[i] as u32, im[i] as u32));
    assert forall|idx: int| 0 <= idx < v.len() implies m[idx] == v[idx] by {
        let x = v[idx].0 as int;
        let y = v[idx].1 as int;
        lemma_be_roundtrip(x, 4, be_bytes(y, 4));
        lemma_be_roundtrip(y, 4, Seq::empty());
        lemma_be_bytes_len(x, 4);
        assert(elem(idx).subrange(0, 8) =~= elem(idx));
        assert(elem(idx).subrange(4, 8) =~= be_bytes(y, 4) + Seq::<u8>::empty());
    }
    assert(m =~= v);
}

/// A complex double column reads back the values written to it.
proof fn lemma_read_cdouble(b: Seq<u8>, naxis1: int, naxis2: nat, off: int, col: BinaryColumnModel, v: Seq<(u64, u64)>)
    requires
        col.col_type == BinaryColumnType::ComplexDouble,
        column_wf(col),
        v.len() == naxis2 * col.repeat,
        cells_placed(b, naxis1, naxis2, off, col, ColumnValues::ComplexDouble(v)),
    ensures
        spec_column_cells(b, 0, naxis1, naxis2, col, off) == Ok::<ColumnValues, Error>(ColumnValues::ComplexDouble(v)),
{
    let rep = col.repeat as nat;
    let d = ColumnValues::ComplexDouble(v);
    let elem = |idx: int| be_bytes(v[idx].0 as int, 8) + be_bytes(v[idx].1 as int, 8);
    lemma_pow256_values();
    assert forall|idx: int| 0 <= idx < naxis2 * rep implies (#[trigger] elem(idx)).len() == 16 by {
        lemma_be_bytes_len(v[idx].0 as int, 8);
        lemma_be_bytes_len(v[idx].1 as int, 8);
    }
    assert forall|row: int| 0 <= row < naxis2 implies b.subrange(row * naxis1 + off, row * naxis1 + off + rep * 16)
        == joined(rep, #[trigger] row_pieces(elem, row, rep)) by {
        assert(cell_bytes_of(col, d, row) == joined(rep, dword_pair_elem(v, row * rep)));
        assert(dword_pair_elem(v, row * rep) =~= row_pieces(elem, row, rep));
    }
    lemma_grid_read(b, naxis1, naxis2, off, rep, 16, 0, 8, off, elem);
    lemma_grid_read(b, naxis1, naxis2, off, rep, 16, 8, 8, off + 8, elem);
    let re = be_grid(b, 0, naxis1, naxis2, off, rep, 16, 8);
    let im = be_grid(b, 0, naxis1, naxis2, off + 8, rep, 16, 8);
    let m = Seq::new(re.len(), |i: int| (re[i], im[i]));
    assert forall|idx: int| 0 <= idx < v.len() implies m[idx] == v[idx] by {
        let x = v[idx].0 as int;
        let y = v[idx].1 as int;
        lemma_be_roundtrip(x, 8, be_bytes(y, 8));
        lemma_be_roundtrip(y, 8, Seq::empty());
        lemma_be_bytes_len(x, 8);
        assert(elem(idx).subrange(0, 16) =~= elem(idx));
        assert(elem(idx).subrange(8, 16) =~= be_bytes(y, 8) + Seq::<u8>::empty());
    }
    assert(m =~= v);
}

/// Single bytes joined are the bytes in a row.
proof fn lemma_joined_singles(n: nat, g: spec_fn(int) -> u8)
    ensures
        joined(n, |i: int| seq![g(i)]) == Seq::new(n, g),
    decreases n,
{
    if n > 0 {
        lemma_joined_singles((n - 1) as nat, g);
        assert(joined(n, |i: int| seq![g(i)]) =~= Seq::new(n, g));
    } else {
        assert(joined(n, |i: int| seq![g(i)]) =~= Seq::new(n, g));
    }
}

/// A logical column reads back the values written to it.
proof fn lemma_read_logical(b: Seq<u8>, naxis1: int, naxis2: nat, off: int, col: BinaryColumnModel, v: Seq<bool>)
    requires
        col.col_type == BinaryColumnType::Logical,
        column_wf(col),
        v.len() == naxis2 * col.repeat,
        cells_placed(b, naxis1, naxis2, off, col, ColumnValues::Logical(v)),
    ensures
        spec_column_cells(b, 0, naxis1, naxis2, col, off) == Ok::<ColumnValues, Error>(ColumnValues::Logical(v)),
{
    let rep = col.repeat as nat;
    let d = ColumnValues::Logical(v);
    let byte = |idx: int| if v[idx] { 84u8 } else { 70u8 };
    let elem = |idx: int| seq![byte(idx)];
    assert forall|row: int| 0 <= row < naxis2 implies b.subrange(row * naxis1 + off, row * naxis1 + off + rep * 1)
        == joined(rep, #[trigger] row_pieces(elem, row, rep)) by {
        let g = |i: int| byte(row * rep + i);
        lemma_joined_singles(rep, g);
        assert(row_pieces(elem, row, rep) =~= (|i: int| seq![g(i)]));
        assert(cell_bytes_of(col, d, row) =~= Seq::new(rep, g));
    }
    lemma_grid_read(b, naxis1, naxis2, off, rep, 1, 0, 1, off, elem);
    let m = be_grid(b, 0, naxis1, naxis2, off, rep, 1, 1).map_values(|u: u64| u == 84);
    reveal_with_fuel(be_uint, 2);
    assert forall|idx: int| 0 <= idx < v.len() implies m[idx] == v[idx] by {
        assert(elem(idx).subrange(0, 1)[0] == byte(idx));
    }
    assert(m =~= v);
}

/// A byte column reads back the values written to it.
proof fn lemma_read_byte(b: Seq<u8>, naxis1: int, naxis2: nat, off: int, col: BinaryColumnModel, v: Seq<u8>)
    requires
        col.col_type == BinaryColumnType::Byte,
        column_wf(col),
        v.len() == naxis2 * col.repeat,
        cells_placed(b, naxis1, naxis2, off, col, ColumnValues::Byte(v)),
    ensures
        spec_column_cells(b, 0, naxis1, naxis2, col, off) == Ok::<ColumnValues, Error>(ColumnValues::Byte(v)),
{
    let rep = col.repeat as nat;
    let d = ColumnValues::Byte(v);
    let elem = |idx: int| seq![v[idx]];
    assert forall|row: int| 0 <= row < naxis2 implies b.subrange(row * naxis1 + off, row * naxis1 + off + rep * 1)
        == joined(rep, #[trigger] row_pieces(elem, row, rep)) by {
        let g = |i: int| v[row * rep + i];
        assert(row * rep + rep <= naxis2 * rep && row * rep >= 0) by (nonlinear_arith)
            requires 0 <= row, row + 1 <= naxis2;
        lemma_joined_singles(rep, g);
        assert(row_pieces(elem, row, rep) =~= (|i: int| seq![g(i)]));
        assert(cell_bytes_of(col, d, row) =~= Seq::new(rep, g));
    }
    lemma_grid_read(b, naxis1, naxis2, off, rep, 1, 0, 1, off, elem);
    let m = be_grid(b, 0, naxis1, naxis2, off, rep, 1, 1).map_values(|u: u64| u as u8);
    reveal_with_fuel(be_uint, 2);
    assert forall|idx: int| 0 <= idx < v.len() implies m[idx] == v[idx] by {
        assert(elem(idx).subrange(0, 1)[0] == v[idx]);
    }
    assert(m =~= v);
}

/// The bytes of a text cell whose UTF-8 fits are valid UTF-8, and read back
/// as the text without its trailing whitespace.
proof fn lemma_text_cell(t: Seq<char>, rep: nat)
    requires
        encode_utf8(t).len() <= rep,
    ensures
        valid_utf8(ascii_cell_bytes(t, rep)),
        trim_end(decode_utf8(ascii_cell_bytes(t, rep))) == trim_end(t),
{
    let e = encode_utf8(t);
    let m = (rep - e.len()) as nat;
    assert(e.subrange(0, e.len() as int) =~= e);
    assert(ascii_cell_bytes(t, rep) =~= e + Seq::new(m, |i: int| 32u8));
    lemma_text_then_spaces(t, m);
}

/// A bit column reads back the bytes written to it.
proof fn lemma_read_bit(b: Seq<u8>, naxis1: int, naxis2: nat, off: int, col: BinaryColumnModel, v: Seq<Seq<u8>>)
    requires
        col.col_type == BinaryColumnType::Bit,
        column_wf(col),
        v.len() == naxis2,
        forall|row: int| 0 <= row < naxis2 ==> (#[trigger] v[row]).len() == col.byte_width,
        cells_placed(b, naxis1, naxis2, off, col, ColumnValues::Bit(v)),
    ensures
        spec_column_cells(b, 0, naxis1, naxis2, col, off) == Ok::<ColumnValues, Error>(ColumnValues::Bit(v)),
{
    let rep = col.repeat as nat;
    let d = ColumnValues::Bit(v);
    let m = Seq::new(naxis2, |row: int| b.subrange(row_base(0, naxis1, off, row), row_base(0, naxis1, off, row) + (rep + 7) / 8));
    assert forall|row: int| 0 <= row < naxis2 implies m[row] == v[row] by {
        assert(cell_bytes_of(col, d, row) == v[row]);
    }
    assert(m =~= v);
}

/// A text column reads back each text written to it without its trailing
/// whitespace, when the text's UTF-8 fits the cell.
proof fn lemma_read_ascii(b: Seq<u8>, naxis1: int, naxis2: nat, off: int, col: BinaryColumnModel, v: Seq<Seq<char>>)
    requires
        col.col_type == BinaryColumnType::Ascii,
        column_wf(col),
        v.len() == naxis2,
        forall|row: int| 0 <= row < naxis2 ==> encode_utf8(#[trigger] v[row]).len() <= col.repeat,
        cells_placed(b, naxis1, naxis2, off, col, ColumnValues::Ascii(v)),
    ensures
        spec_column_cells(b, 0, naxis1, naxis2, col, off)
            == Ok::<ColumnValues, Error>(ColumnValues::Ascii(v.map_values(|t: Seq<char>| trim_end(t)))),
{
    let rep = col.repeat as nat;
    let d = ColumnValues::Ascii(v);
    assert forall|row: int| 0 <= row < naxis2 implies valid_utf8(
        #[trigger] b.subrange(row_base(0, naxis1, off, row), row_base(0, naxis1, off, row) + rep)) by {
        assert(cell_bytes_of(col, d, row) == ascii_cell_bytes(v[row], rep));
        lemma_text_cell(v[row], rep);
    }
    let m = Seq::new(naxis2, |row: int| ascii_cell(b, row_base(0, naxis1, off, row), rep));
    assert forall|row: int| 0 <= row < naxis2 implies m[row] == trim_end(v[row]) by {
        assert(cell_bytes_of(col, d, row) == ascii_cell_bytes(v[row], rep));
        lemma_text_cell(v[row], rep);
    }
    assert(m =~= v.map_values(|t: Seq<char>| trim_end(t)));
}

/// The data of a column fills `naxis2` rows exactly: `repeat` elements per
/// row, or one entry per row for text and bits, each bit entry as wide as
/// the cell and each text's UTF-8 no longer than the cell.
pub open spec fn column_filled(col: BinaryColumnModel, d: ColumnValues, naxis2: nat) -> bool {
    match d {
        ColumnValues::Ascii(v) => v.len() == naxis2
            && forall|row: int| 0 <= row < naxis2 ==> encode_utf8(#[trigger] v[row]).len() <= col.repeat,
        ColumnValues::Bit(v) => v.len() == naxis2
            && forall|row: int| 0 <= row < naxis2 ==> (#[trigger] v[row]).len() == col.byte_width,
        _ => values_len(d) == naxis2 * col.repeat,
    }
}

/// What reading a column gives back of the data written to it: the data
/// itself, with each text's trailing whitespace dropped.
pub open spec fn read_back(d: ColumnValues) -> ColumnValues {
    match d {
        ColumnValues::Ascii(v) => ColumnValues::Ascii(v.map_values(|t: Seq<char>| trim_end(t))),
        _ => d,
    }
}

/// Pieces of `w` bytes each, `n` of them, joined.
proof fn lemma_joined_len(n: nat, f: spec_fn(int) -> Seq<u8>, w: nat)
    requires
        forall|i: int| 0 <= i < n ==> (#[trigger] f(i)).len() == w,
    ensures
        joined(n, f).len() == n * w,
{
    lemma_joined(n, f, w);
}

/// Data that is of its column's type and fills the rows gives every row a
/// cell as wide as the column.
proof fn lemma_cell_sized(col: BinaryColumnModel, d: ColumnValues, naxis2: nat, row: int)
    requires
        column_wf(col),
        types_match(col.col_type, d),
        column_filled(col, d, naxis2),
        0 <= row < naxis2,
    ensures
        spec_cell_bytes(col.col_type, col.repeat as nat, d, row) is Ok,
        cell_bytes_of(col, d, row).len() == col.byte_width,
{
    let rep = col.repeat as nat;
    let s = row * rep;
    assert(s + rep <= naxis2 * rep && s >= 0) by (nonlinear_arith)
        requires 0 <= row, row + 1 <= naxis2, s == row * rep;
    match d {
        ColumnValues::Short(v) => {
            assert forall|i: int| 0 <= i < rep implies (#[trigger] short_elem(v, s)(i)).len() == 2 by {
                lemma_be_bytes_len(to_unsigned(v[s + i] as int, 16), 2);
            }
            lemma_joined_len(rep, short_elem(v, s), 2);
            assert(cell_bytes_of(col, d, row) == joined(rep, short_elem(v, s)));
            assert(col.byte_width == rep * 2);
        },
        ColumnValues::Int(v) => {
            assert forall|i: int| 0 <= i < rep implies (#[trigger] int_elem(v, s)(i)).len() == 4 by {
                lemma_be_bytes_len(to_unsigned(v[s + i] as int, 32), 4);
            }
            lemma_joined_len(rep, int_elem(v, s), 4);
            assert(cell_bytes_of(col, d, row) == joined(rep, int_elem(v, s)));
            assert(col.byte_width == rep * 4);
        },
        ColumnValues::Long(v) => {
            assert forall|i: int| 0 <= i < rep implies (#[trigger] long_elem(v, s)(i)).len() == 8 by {
                lemma_be_bytes_len(to_unsigned(v[s + i] as int, 64), 8);
            }
            lemma_joined_len(rep, long_elem(v, s), 8);
            assert(cell_bytes_of(col, d, row) == joined(rep, long_elem(v, s)));
            assert(col.byte_width == rep * 8);
        },
        ColumnValues::Float(v) => {
            assert forall|i: int| 0 <= i < rep implies (#[trigger] word_elem(v, s)(i)).len() == 4 by {
                lemma_be_bytes_len(v[s + i] as int, 4);
            }
            lemma_joined_len(rep, word_elem(v, s), 4);
            assert(cell_bytes_of(col, d, row) == joined(rep, word_elem(v, s)));
            assert(col.byte_width == rep * 4);
        },
        ColumnValues::Double(v) => {
            assert forall|i: int| 0 <= i < rep implies (#[trigger] dword_elem(v, s)(i)).len() == 8 by {
                lemma_be_bytes_len(v[s + i] as int, 8);
            }
            lemma_joined_len(rep, dword_elem(v, s), 8);
            assert(cell_bytes_of(col, d, row) == joined(rep, dword_elem(v, s)));
            assert(col.byte_width == rep * 8);
        },
        ColumnValues::ComplexFloat(v) => {
            assert forall|i: int| 0 <= i < rep implies (#[trigger] word_pair_elem(v, s)(i)).len() == 8 by {
                lemma_be_bytes_len(v[s + i].0 as int, 4);
                lemma_be_bytes_len(v[s + i].1 as int, 4);
            }
            lemma_joined_len(rep, word_pair_elem(v, s), 8);
            assert(cell_bytes_of(col, d, row) == joined(rep, word_pair_elem(v, s)));
            assert(col.byte_width == rep * 8);
        },
        ColumnValues::ComplexDouble(v) => {
            assert forall|i: int| 0 <= i < rep implies (#[trigger] dword_pair_elem(v, s)(i)).len() == 16 by {
                lemma_be_bytes_len(v[s + i].0 as int, 8);
                lemma_be_bytes_len(v[s + i].1 as int, 8);
            }
            lemma_joined_len(rep, dword_pair_elem(v, s), 16);
            assert(cell_bytes_of(col, d, row) == joined(rep, dword_pair_elem(v, s)));
            assert(col.byte_width == rep * 16);
        },
        ColumnValues::Ascii(v) => {
            assert(encode_utf8(v[row]).len() <= rep);
            assert(cell_bytes_of(col, d, row) == ascii_cell_bytes(v[row], rep));
            assert(ascii_cell_bytes(v[row], rep).len() == rep);
            assert(col.byte_width == rep * 1);
        },
        ColumnValues::Logical(v) => {
            assert(cell_bytes_of(col, d, row).len() == rep);
            assert(col.byte_width == rep * 1);
        },
        ColumnValues::Byte(v) => {
            assert(cell_bytes_of(col, d, row).len() == rep);
        },
        ColumnValues::Bit(v) => {
            assert(cell_bytes_of(col, d, row) == v[row]);
        },
    }
}

/// Writing a binary table and reading one of its columns back from the
/// written data gives the column's data (each text without its trailing
/// whitespace), when every column's data is of the column's type and fills
/// the table's rows.
pub proof fn lemma_binary_table_roundtrip(cols: Seq<BinaryColumnModel>, data: Seq<ColumnValues>, naxis2: nat, k: int)
    requires
        cols.len() == data.len(),
        forall|j: int| 0 <= j < cols.len() ==> column_wf(#[trigger] cols[j]),
        forall|j: int| 0 <= j < cols.len() ==> types_match(cols[j].col_type, #[trigger] data[j])
            && column_filled(cols[j], data[j], naxis2),
        0 <= k < cols.len(),
    ensures
        spec_serialize_binary_table(cols, data, naxis2) is Ok,
        spec_column_cells(spec_serialize_binary_table(cols, data, naxis2)->Ok_0, 0,
            column_offset(cols, cols.len() as int), naxis2, cols[k], column_offset(cols, k))
            == Ok::<ColumnValues, Error>(read_back(data[k])),
{
    let naxis1 = column_offset(cols, cols.len() as int);
    lemma_column_offset_mono(cols, cols.len() as int);
    lemma_column_offset_mono(cols, k);
    lemma_column_offset_mono(cols, k + 1);
    assert(column_offset(cols, 0) == 0);
    assert(naxis1 * naxis2 >= 0 && naxis2 * naxis1 == naxis1 * naxis2) by (nonlinear_arith) requires naxis1 >= 0;
    lemma_padded_len_bounds(naxis1 * naxis2);
    let zeros = Seq::new(spec_padded_len(naxis1 * naxis2) as nat, |i: int| 0u8);
    assert(!exists|j: int| 0 <= j < cols.len() && !types_match(cols[j].col_type, #[trigger] data[j]));
    assert(spec_serialize_binary_table(cols, data, naxis2) == Ok::<Seq<u8>, Error>(fill_rows(zeros, cols, data, naxis1, naxis2)));
    assert forall|row: int, j: int| 0 <= row < naxis2 && 0 <= j < cols.len() implies #[trigger] cell_sized(cols, data, row, j) by {
        assert(column_wf(cols[j]));
        lemma_cell_sized(cols[j], data[j], naxis2, row);
        assert(cell_of(cols, data, row, j) == cell_bytes_of(cols[j], data[j], row));
    }
    lemma_fill_rows(zeros, cols, data, naxis1, naxis2);
    let b = fill_rows(zeros, cols, data, naxis1, naxis2);
    let off = column_offset(cols, k);
    let col = cols[k];
    let d = data[k];
    assert(column_offset(cols, k + 1) == off + col.byte_width);
    assert(naxis2 > 0 ==> (naxis2 - 1) * naxis1 + naxis1 == naxis2 * naxis1) by (nonlinear_arith);
    assert forall|row: int| 0 <= row < naxis2 implies b.subrange(row * naxis1 + off, row * naxis1 + off + col.byte_width)
        == #[trigger] cell_bytes_of(col, d, row) by {
        assert(cell_of(cols, data, row, k) == cell_bytes_of(col, d, row));
    }
    assert(cells_placed(b, naxis1, naxis2, off, col, d));
    assert(column_wf(col));
    match d {
        ColumnValues::Logical(v) => lemma_read_logical(b, naxis1, naxis2, off, col, v),
        ColumnValues::Byte(v) => lemma_read_byte(b, naxis1, naxis2, off, col, v),
        ColumnValues::Short(v) => lemma_read_short(b, naxis1, naxis2, off, col, v),
        ColumnValues::Int(v) => lemma_read_int(b, naxis1, naxis2, off, col, v),
        ColumnValues::Long(v) => lemma_read_long(b, naxis1, naxis2, off, col, v),
        ColumnValues::Float(v) => lemma_read_float(b, naxis1, naxis2, off, col, v),
        ColumnValues::Double(v) => lemma_read_double(b, naxis1, naxis2, off, col, v),
        ColumnValues::ComplexFloat(v) => lemma_read_cfloat(b, naxis1, naxis2, off, col, v),
        ColumnValues::ComplexDouble(v) => lemma_read_cdouble(b, naxis1, naxis2, off, col, v),
        ColumnValues::Ascii(v) => lemma_read_ascii(b, naxis1, naxis2, off, col, v),
        ColumnValues::Bit(v) => lemma_read_bit(b, naxis1, naxis2, off, col, v),
    }
}

} // verus!
