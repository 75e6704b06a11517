//! A text summary of the HDUs of a FITS file, one block of lines per HDU.
use vstd::prelude::*;

use crate::hdu::{card_str, card_string_value, hdus_view, FitsData, Hdu, HduInfo, HduInfoModel, HduModel};
use crate::header::{cards_view, kw, kw_pad, CardModel, StandardKeyword};
use crate::text::{ascii_chars, i64_decimal, int_decimal, string_from_bytes, u64_decimal};

verus! {

/// The decimal text of `n`.
pub open spec fn dec(n: int) -> Seq<char> {
    ascii_chars(int_decimal(n))
}

/// The numbers of `s`, separated by `, `.
pub open spec fn items_text(s: Seq<usize>) -> Seq<char>
    decreases s.len(),
{
    if s.len() == 0 {
        Seq::empty()
    } else if s.len() == 1 {
        dec(s[0] as int)
    } else {
        items_text(s.drop_last()) + ", "@ + dec(s.last() as int)
    }
}

/// A list of numbers as `[a, b, c]`.
pub open spec fn list_text(s: Seq<usize>) -> Seq<char> {
    "["@ + items_text(s) + "]"@
}

/// ` (EXTNAME: name)` for an HDU with an `EXTNAME`, nothing otherwise.
pub open spec fn ext_label(cards: Seq<CardModel>) -> Seq<char> {
    match card_str(cards, StandardKeyword::Extname.spec_keyword()) {
        Some(n) => " (EXTNAME: "@ + n + ")"@,
        None => Seq::empty(),
    }
}

/// The lines describing an image: BITPIX, NAXIS, the dimensions (when there
/// are axes) and the data size.
pub open spec fn image_lines(bitpix: i64, naxes: Seq<usize>, data_len: int) -> Seq<char> {
    "  BITPIX: "@ + dec(bitpix as int) + "\n"@ + "  NAXIS: "@ + dec(naxes.len() as int) + "\n"@
        + (if naxes.len() > 0 { "  Dimensions: "@ + list_text(naxes) + "\n"@ } else { Seq::empty() })
        + "  Data size: "@ + dec(data_len) + " bytes\n"@
}

/// The lines describing a table: columns, rows, row width and data size.
pub open spec fn table_lines(tfields: int, naxis2: int, naxis1: int, size: int) -> Seq<char> {
    "  Columns: "@ + dec(tfields) + "\n"@ + "  Rows: "@ + dec(naxis2) + "\n"@
        + "  Row width: "@ + dec(naxis1) + " bytes\n"@ + "  Data size: "@ + dec(size) + " bytes\n"@
}

/// The heap line of a binary table with a heap.
pub open spec fn heap_line(pcount: int) -> Seq<char> {
    if pcount > 0 { "  Heap size: "@ + dec(pcount) + " bytes\n"@ } else { Seq::empty() }
}

/// The summary of HDU number `index`.
pub open spec fn spec_format_hdu(index: int, h: HduModel) -> Seq<char> {
    let head = "HDU "@ + dec(index);
    match h.info {
        HduInfoModel::Primary { bitpix, naxes } => head + ": Primary\n"@ + image_lines(bitpix, naxes, h.data_len),
        HduInfoModel::Image { bitpix, naxes } => head + ": IMAGE extension"@ + ext_label(h.cards) + "\n"@
            + image_lines(bitpix, naxes, h.data_len),
        HduInfoModel::AsciiTable { naxis1, naxis2, tfields } => head + ": TABLE extension"@ + ext_label(h.cards)
            + "\n"@ + table_lines(tfields as int, naxis2 as int, naxis1 as int, h.data_len),
        HduInfoModel::BinaryTable { naxis1, naxis2, pcount, tfields } => head + ": BINTABLE extension"@
            + ext_label(h.cards) + "\n"@ + table_lines(tfields as int, naxis2 as int, naxis1 as int, naxis1 * naxis2)
            + heap_line(pcount as int),
        HduInfoModel::CompressedImage { naxis1, naxis2, pcount, tfields, .. } => head + ": BINTABLE extension"@
            + ext_label(h.cards) + "\n"@ + table_lines(tfields as int, naxis2 as int, naxis1 as int, naxis1 * naxis2)
            + heap_line(pcount as int),
        HduInfoModel::RandomGroups { bitpix, naxes, pcount, gcount } => head + ": Random Groups\n"@
            + "  BITPIX: "@ + dec(bitpix as int) + "\n"@ + "  Axes: "@ + list_text(naxes) + "\n"@
            + "  PCOUNT: "@ + dec(pcount as int) + "\n"@ + "  GCOUNT: "@ + dec(gcount as int) + "\n"@
            + "  Data size: "@ + dec(h.data_len) + " bytes\n"@,
    }
}

/// A table's row width times its rows fits in a `usize`.
pub open spec fn table_size_fits(info: HduInfoModel) -> bool {
    &&& info matches HduInfoModel::BinaryTable { naxis1, naxis2, .. } ==> naxis1 * naxis2 <= usize::MAX
    &&& info matches HduInfoModel::CompressedImage { naxis1, naxis2, .. } ==> naxis1 * naxis2 <= usize::MAX
}

/// Append the decimal text of an unsigned number.
fn push_dec(out: &mut String, n: u64)
    ensures
        final(out)@ == old(out)@ + dec(n as int),
{
    let d = string_from_bytes(u64_decimal(n).as_slice());
    out.append(d.as_str());
}

/// Append the decimal text of a signed number.
fn push_signed(out: &mut String, n: i64)
    ensures
        final(out)@ == old(out)@ + dec(n as int),
{
    let d = string_from_bytes(i64_decimal(n).as_slice());
    out.append(d.as_str());
}

/// Append a list of numbers as `[a, b, c]`.
fn push_list(out: &mut String, s: &[usize])
    ensures
        final(out)@ == old(out)@ + list_text(s@),
{
    let ghost start = out@;
    out.append("[");
    let mut i: usize = 0;
    while i < s.len()
        invariant
            i <= s@.len(),
            out@ == start + "["@ + items_text(s@.subrange(0, i as int)),
        decreases s@.len() - i,
    {
        let ghost before = out@;
        assert(s@.subrange(0, i + 1).drop_last() =~= s@.subrange(0, i as int));
        if i > 0 {
            out.append(", ");
        }
        push_dec(out, s[i] as u64);
        proof {
            if i == 0 {
                assert(s@.subrange(0, 1) =~= seq![s@[0]]);
                assert(items_text(Seq::<usize>::empty()) =~= Seq::<char>::empty());
                assert(before =~= start + "["@);
            }
        }
        i += 1;
        assert(out@ =~= start + "["@ + items_text(s@.subrange(0, i as int)));
    }
    assert(s@.subrange(0, s@.len() as int) =~= s@);
    out.append("]");
}

/// Append ` (EXTNAME: name)` when the HDU has an `EXTNAME`.
fn push_ext_label(out: &mut String, hdu: &Hdu)
    ensures
        final(out)@ == old(out)@ + ext_label(hdu@.cards),
{
    let k = StandardKeyword::Extname.keyword();
    match card_string_value(hdu.cards.as_slice(), &k) {
        Some(name) => {
            out.append(" (EXTNAME: ");
            out.append(name.as_str());
            out.append(")");
        },
        None => {},
    }
}

/// Append the lines describing an image.
fn push_image_lines(out: &mut String, bitpix: i64, naxes: &[usize], data_len: usize)
    ensures
        final(out)@ == old(out)@ + image_lines(bitpix, naxes@, data_len as int),
{
    let ghost start = out@;
    out.append("  BITPIX: ");
    push_signed(out, bitpix);
    out.append("\n");
    out.append("  NAXIS: ");
    push_dec(out, naxes.len() as u64);
    out.append("\n");
    let ghost mid = out@;
    if naxes.len() > 0 {
        out.append("  Dimensions: ");
        push_list(out, naxes);
        out.append("\n");
    }
    out.append("  Data size: ");
    push_dec(out, data_len as u64);
    out.append(" bytes\n");
    assert(out@ =~= start + image_lines(bitpix, naxes@, data_len as int));
}

/// Append the lines describing a table.
fn push_table_lines(out: &mut String, tfields: usize, naxis2: usize, naxis1: usize, size: usize)
    ensures
        final(out)@ == old(out)@ + table_lines(tfields as int, naxis2 as int, naxis1 as int, size as int),
{
    let ghost start = out@;
    out.append("  Columns: ");
    push_dec(out, tfields as u64);
    out.append("\n");
    out.append("  Rows: ");
    push_dec(out, naxis2 as u64);
    out.append("\n");
    out.append("  Row width: ");
    push_dec(out, naxis1 as u64);
    out.append(" bytes\n");
    out.append("  Data size: ");
    push_dec(out, size as u64);
    out.append(" bytes\n");
    assert(out@ =~= start + table_lines(tfields as int, naxis2 as int, naxis1 as int, size as int));
}

/// Append the heap line of a table with a heap.
fn push_heap_line(out: &mut String, pcount: usize)
    ensures
        final(out)@ == old(out)@ + heap_line(pcount as int),
{
    if pcount > 0 {
        let ghost start = out@;
        out.append("  Heap size: ");
        push_dec(out, pcount as u64);
        out.append(" bytes\n");
        assert(out@ =~= start + heap_line(pcount as int));
    }
}

/// A summary of one HDU: its number and kind, its EXTNAME, and its shape
/// and data size, one item per line.
pub fn format_hdu(index: usize, hdu: &Hdu) -> (r: String)
    requires
        table_size_fits(hdu@.info),
    ensures
        r@ == spec_format_hdu(index as int, hdu@),
{
    let mut out = String::from_str("HDU ");
    push_dec(&mut out, index as u64);
    let ghost head = out@;
    assert(head =~= "HDU "@ + dec(index as int));
    match &hdu.info {
        HduInfo::Primary { bitpix, naxes } => {
            out.append(": Primary\n");
            push_image_lines(&mut out, *bitpix, naxes.as_slice(), hdu.data_len);
        },
        HduInfo::Image { bitpix, naxes } => {
            out.append(": IMAGE extension");
            push_ext_label(&mut out, hdu);
            out.append("\n");
            push_image_lines(&mut out, *bitpix, naxes.as_slice(), hdu.data_len);
        },
        HduInfo::AsciiTable { naxis1, naxis2, tfields } => {
            out.append(": TABLE extension");
            push_ext_label(&mut out, hdu);
            out.append("\n");
            push_table_lines(&mut out, *tfields, *naxis2, *naxis1, hdu.data_len);
        },
        HduInfo::BinaryTable { naxis1, naxis2, pcount, tfields } => {
            out.append(": BINTABLE extension");
            push_ext_label(&mut out, hdu);
            out.append("\n");
            push_table_lines(&mut out, *tfields, *naxis2, *naxis1, *naxis1 * *naxis2);
            push_heap_line(&mut out, *pcount);
        },
        HduInfo::CompressedImage { naxis1, naxis2, pcount, tfields, .. } => {
            out.append(": BINTABLE extension");
            push_ext_label(&mut out, hdu);
            out.append("\n");
            push_table_lines(&mut out, *tfields, *naxis2, *naxis1, *naxis1 * *naxis2);
            push_heap_line(&mut out, *pcount);
        },
        HduInfo::RandomGroups { bitpix, naxes, pcount, gcount } => {
            out.append(": Random Groups\n");
            out.append("  BITPIX: ");
            push_signed(&mut out, *bitpix);
            out.append("\n");
            out.append("  Axes: ");
            push_list(&mut out, naxes.as_slice());
            out.append("\n");
            out.append("  PCOUNT: ");
            push_dec(&mut out, *pcount as u64);
            out.append("\n");
            out.append("  GCOUNT: ");
            push_dec(&mut out, *gcount as u64);
            out.append("\n");
            out.append("  Data size: ");
            push_dec(&mut out, hdu.data_len as u64);
            out.append(" bytes\n");
        },
    }
    assert(out@ =~= spec_format_hdu(index as int, hdu@));
    out
}

/// The summaries of HDUs, separated by empty lines.
pub open spec fn spec_format_hdus(hs: Seq<HduModel>) -> Seq<char>
    decreases hs.len(),
{
    if hs.len() == 0 {
        Seq::empty()
    } else if hs.len() == 1 {
        spec_format_hdu(0, hs[0])
    } else {
        spec_format_hdus(hs.drop_last()) + "\n"@ + spec_format_hdu(hs.len() - 1, hs.last())
    }
}

/// The summary of every HDU of a file, separated by empty lines.
pub fn format_fits_info(fits: &FitsData) -> (r: String)
    requires
        forall|i: int| 0 <= i < fits.hdus@.len() ==> table_size_fits((#[trigger] fits.hdus@[i]).info@),
    ensures
        r@ == spec_format_hdus(hdus_view(fits.hdus@)),
{
    let ghost hs = hdus_view(fits.hdus@);
    let mut out = String::new();
    let mut i: usize = 0;
    while i < fits.hdus.len()
        invariant
            i <= fits.hdus@.len(),
            hs == hdus_view(fits.hdus@),
            forall|k: int| 0 <= k < fits.hdus@.len() ==> table_size_fits((#[trigger] fits.hdus@[k]).info@),
            out@ == spec_format_hdus(hs.subrange(0, i as int)),
        decreases fits.hdus@.len() - i,
    {
        let hdu = &fits.hdus[i];
        assert(hs[i as int] == hdu@);
        assert(hs.subrange(0, i + 1).drop_last() =~= hs.subrange(0, i as int));
        if i > 0 {
            out.append("\n");
        }
        let text = format_hdu(i, hdu);
        let ghost before = out@;
        out.append(text.as_str());
        proof {
            if i == 0 {
                assert(before =~= Seq::<char>::empty());
            }
        }
        i += 1;
        assert(out@ =~= spec_format_hdus(hs.subrange(0, i as int)));
    }
    assert(hs.subrange(0, fits.hdus@.len() as int) =~= hs);
    out
}

} // verus!
