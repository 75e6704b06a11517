//! Taking one HDU out of a FITS file into a file of its own.
use vstd::prelude::*;

use crate::block::{lemma_padded_len_bounds, padded_byte_len, spec_padded_len};
use crate::hdu::{hdus_view, FitsData, HduModel};
use crate::header::{serialize_header, spec_serialize_header};
use crate::info::dec;
use crate::primary::{build_primary_header, spec_primary_cards};
use crate::text::{string_from_bytes, u64_decimal};

verus! {

/// The `len` data bytes of a file from `start` on, then zeros to whole
/// blocks; nothing when `len` is 0.
pub open spec fn data_bytes(file: Seq<u8>, start: int, len: int) -> Seq<u8> {
    if len > 0 {
        file.subrange(start, start + len) + Seq::new((spec_padded_len(len) - len) as nat, |i: int| 0u8)
    } else {
        Seq::empty()
    }
}

/// The data of an HDU as a file holds it.
pub open spec fn data_part(file: Seq<u8>, h: HduModel) -> Seq<u8> {
    data_bytes(file, h.data_start, h.data_len)
}

/// The message for an HDU index past the last HDU of a file of `n` HDUs.
pub open spec fn extract_range_message(index: int, n: int) -> Seq<char> {
    "HDU index "@ + dec(index) + " out of range (file has "@ + dec(n) + " HDUs)"@
}

/// HDU `index` of a file as a file of its own: the primary HDU as it is;
/// an extension after a minimal primary header (`BITPIX = 8`, no axes).
/// Its header is written again from its cards.
pub open spec fn spec_extract_hdu(file: Seq<u8>, hs: Seq<HduModel>, index: int) -> Result<Seq<u8>, Seq<char>> {
    if index >= hs.len() {
        Err(extract_range_message(index, hs.len() as int))
    } else if index == 0 {
        Ok(spec_serialize_header(hs[0].cards) + data_part(file, hs[0]))
    } else {
        Ok(spec_serialize_header(spec_primary_cards(8, Seq::empty())) + spec_serialize_header(hs[index].cards)
            + data_part(file, hs[index]))
    }
}

/// HDU `index`, when there is one, has its data inside the file, and the
/// new file fits in memory.
pub open spec fn extract_fits(len: int, hs: Seq<HduModel>, index: int) -> bool {
    0 <= index < hs.len() ==> {
        let h = hs[index];
        &&& 0 <= h.data_start
        &&& 0 <= h.data_len
        &&& h.data_start + h.data_len <= len
        &&& 80 * (h.cards.len() + 1) + 3 * 2880 + spec_padded_len(h.data_len) <= usize::MAX
    }
}

/// Append the data of an HDU, padded to whole blocks.
fn push_data(out: &mut Vec<u8>, file_data: &[u8], start: usize, len: usize)
    requires
        start + len <= file_data@.len(),
        old(out)@.len() + spec_padded_len(len as int) <= usize::MAX,
    ensures
        final(out)@ == old(out)@ + data_bytes(file_data@, start as int, len as int),
{
    if len == 0 {
        assert(old(out)@ + Seq::<u8>::empty() =~= old(out)@);
        return;
    }
    proof {
        lemma_padded_len_bounds(len as int);
    }
    let padded = padded_byte_len(len);
    let flen = file_data.len();
    let ghost before = out@;
    let raw = vstd::slice::slice_subrange(file_data, start, start + len);
    out.extend_from_slice(raw);
    let mut k: usize = len;
    while k < padded
        invariant
            len <= k <= padded,
            padded == spec_padded_len(len as int),
            before.len() + padded <= usize::MAX,
            out@ == before + raw@ + Seq::new((k - len) as nat, |i: int| 0u8),
        decreases padded - k,
    {
        out.push(0u8);
        k += 1;
        assert(out@ =~= before + raw@ + Seq::new((k - len) as nat, |i: int| 0u8));
    }
    assert(out@ =~= before + (raw@ + Seq::new((padded - len) as nat, |i: int| 0u8)));
}

/// Extract HDU `hdu_index` of a parsed file into the bytes of a FITS file
/// of its own.
pub fn extract_hdu(file_data: &[u8], fits: &FitsData, hdu_index: usize) -> (r: Result<Vec<u8>, String>)
    requires
        extract_fits(file_data@.len() as int, hdus_view(fits.hdus@), hdu_index as int),
    ensures
        match spec_extract_hdu(file_data@, hdus_view(fits.hdus@), hdu_index as int) {
            Ok(b) => r matches Ok(v) && v@ == b,
            Err(m) => r matches Err(s) && s@ == m,
        },
{
    if hdu_index >= fits.hdus.len() {
        let mut m = String::from_str("HDU index ");
        m.append(string_from_bytes(u64_decimal(hdu_index as u64).as_slice()).as_str());
        m.append(" out of range (file has ");
        m.append(string_from_bytes(u64_decimal(fits.hdus.len() as u64).as_slice()).as_str());
        m.append(" HDUs)");
        proof {
            reveal_strlit("HDU index ");
            reveal_strlit(" out of range (file has ");
            reveal_strlit(" HDUs)");
        }
        return Err(m);
    }
    let hdu = &fits.hdus[hdu_index];
    assert(hdus_view(fits.hdus@)[hdu_index as int] == hdu@);
    proof {
        lemma_padded_len_bounds((80 * (hdu.cards@.len() + 1)) as int);
        lemma_padded_len_bounds(hdu.data_len as int);
    }
    let mut output: Vec<u8> = Vec::new();
    if hdu_index > 0 {
        let empty: [usize; 0] = [];
        assert(empty@ =~= Seq::<usize>::empty());
        let primary_cards = match build_primary_header(8, &empty) {
            Ok(c) => c,
            Err(_) => {
                assert(false);
                return Err(String::from_str("Failed to build primary header"));
            },
        };
        assert(primary_cards@.len() == 3);
        proof {
            lemma_padded_len_bounds(320int);
        }
        let primary_header = serialize_header(primary_cards.as_slice());
        output.extend_from_slice(primary_header.as_slice());
    }
    let header = serialize_header(hdu.cards.as_slice());
    output.extend_from_slice(header.as_slice());
    let ghost prefix = output@;
    push_data(&mut output, file_data, hdu.data_start, hdu.data_len);
    Ok(output)
}

} // verus!
