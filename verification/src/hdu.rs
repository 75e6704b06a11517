//! Splitting a FITS byte stream into its Header Data Units.
use vstd::prelude::*;

use crate::block::{lemma_padded_len_bounds, padded_byte_len, spec_padded_len, BLOCK_SIZE};
use crate::error::{Error, Result};
use crate::header::{
    cards_view, header_byte_len, keyword_eq, kw, kw_pad, parse_header_blocks,
    spec_header_byte_len, spec_parse_header, Card, CardModel, StandardKeyword,
};
use crate::primary::{bytes_per_value, bytes_per_value_exec};
use crate::text::{chars_of, nat_digits, string_from_chars, trim, trim_bounds, trimmed_equals, u64_decimal};
use crate::value::{Value, ValueModel};

verus! {

// ── Types ──

/// Describes the kind and shape of data in a single HDU.
#[derive(Debug, Clone, PartialEq)]
pub enum HduInfo {
    /// Primary HDU containing image data.
    Primary {
        /// BITPIX value (8, 16, 32, 64, -32, -64).
        bitpix: i64,
        /// Axis dimensions (NAXIS1, NAXIS2, ...).
        naxes: Vec<usize>,
    },
    /// Image extension (XTENSION = 'IMAGE').
    Image {
        /// BITPIX value.
        bitpix: i64,
        /// Axis dimensions.
        naxes: Vec<usize>,
    },
    /// ASCII table extension (XTENSION = 'TABLE').
    AsciiTable {
        /// Row width in bytes.
        naxis1: usize,
        /// Number of rows.
        naxis2: usize,
        /// Number of columns.
        tfields: usize,
    },
    /// Binary table extension (XTENSION = 'BINTABLE').
    BinaryTable {
        /// Row width in bytes.
        naxis1: usize,
        /// Number of rows.
        naxis2: usize,
        /// Size of the variable-length array heap in bytes.
        pcount: usize,
        /// Number of columns.
        tfields: usize,
    },
    /// Random groups structure (primary HDU with GROUPS=T, NAXIS1=0).
    RandomGroups {
        /// BITPIX value.
        bitpix: i64,
        /// Group dimensions (NAXIS2..NAXISm, excluding NAXIS1=0).
        naxes: Vec<usize>,
        /// Number of parameters per group.
        pcount: usize,
        /// Number of groups.
        gcount: usize,
    },
    /// Tile-compressed image stored as a binary table (ZIMAGE=T).
    CompressedImage {
        /// Original image BITPIX before compression.
        zbitpix: i64,
        /// Original image dimensions.
        znaxes: Vec<usize>,
        /// Compression algorithm name (e.g. "RICE_1", "GZIP_1").
        zcmptype: String,
        /// Tile dimensions for compression.
        ztile: Vec<usize>,
        /// Rice compression block size (ZVAL1).
        blocksize: usize,
        /// Rice bytes per pixel (ZVAL2).
        rice_bytepix: usize,
        /// Underlying binary table row width.
        naxis1: usize,
        /// Underlying binary table row count (number of tiles).
        naxis2: usize,
        /// Heap size for variable-length compressed data.
        pcount: usize,
        /// Number of columns in the underlying binary table.
        tfields: usize,
    },
}

/// The content of an [`HduInfo`].
pub enum HduInfoModel {
    Primary { bitpix: i64, naxes: Seq<usize> },
    Image { bitpix: i64, naxes: Seq<usize> },
    AsciiTable { naxis1: usize, naxis2: usize, tfields: usize },
    BinaryTable { naxis1: usize, naxis2: usize, pcount: usize, tfields: usize },
    RandomGroups { bitpix: i64, naxes: Seq<usize>, pcount: usize, gcount: usize },
    CompressedImage {
        zbitpix: i64,
        znaxes: Seq<usize>,
        zcmptype: Seq<char>,
        ztile: Seq<usize>,
        blocksize: usize,
        rice_bytepix: usize,
        naxis1: usize,
        naxis2: usize,
        pcount: usize,
        tfields: usize,
    },
}

impl View for HduInfo {
    type V = HduInfoModel;

    open spec fn view(&self) -> HduInfoModel {
        match self {
            HduInfo::Primary { bitpix, naxes } => HduInfoModel::Primary { bitpix: *bitpix, naxes: naxes@ },
            HduInfo::Image { bitpix, naxes } => HduInfoModel::Image { bitpix: *bitpix, naxes: naxes@ },
            HduInfo::AsciiTable { naxis1, naxis2, tfields } => HduInfoModel::AsciiTable {
                naxis1: *naxis1,
                naxis2: *naxis2,
                tfields: *tfields,
            },
            HduInfo::BinaryTable { naxis1, naxis2, pcount, tfields } => HduInfoModel::BinaryTable {
                naxis1: *naxis1,
                naxis2: *naxis2,
                pcount: *pcount,
                tfields: *tfields,
            },
            HduInfo::RandomGroups { bitpix, naxes, pcount, gcount } => HduInfoModel::RandomGroups {
                bitpix: *bitpix,
                naxes: naxes@,
                pcount: *pcount,
                gcount: *gcount,
            },
            HduInfo::CompressedImage {
                zbitpix,
                znaxes,
                zcmptype,
                ztile,
                blocksize,
                rice_bytepix,
                naxis1,
                naxis2,
                pcount,
                tfields,
            } => HduInfoModel::CompressedImage {
                zbitpix: *zbitpix,
                znaxes: znaxes@,
                zcmptype: zcmptype@,
                ztile: ztile@,
                blocksize: *blocksize,
                rice_bytepix: *rice_bytepix,
                naxis1: *naxis1,
                naxis2: *naxis2,
                pcount: *pcount,
                tfields: *tfields,
            },
        }
    }
}

/// A single Header Data Unit parsed from a FITS byte stream.
#[derive(Debug, Clone)]
pub struct Hdu {
    /// Parsed metadata describing the HDU type and shape.
    pub info: HduInfo,
    /// Byte offset where the header begins in the FITS stream.
    pub header_start: usize,
    /// Byte offset where the data segment begins.
    pub data_start: usize,
    /// Length of the data segment in bytes (unpadded).
    pub data_len: usize,
    /// All header cards parsed from this HDU.
    pub cards: Vec<Card>,
}

/// The content of an [`Hdu`].
pub struct HduModel {
    pub info: HduInfoModel,
    pub header_start: int,
    pub data_start: int,
    pub data_len: int,
    pub cards: Seq<CardModel>,
}

impl View for Hdu {
    type V = HduModel;

    open spec fn view(&self) -> HduModel {
        HduModel {
            info: self.info@,
            header_start: self.header_start as int,
            data_start: self.data_start as int,
            data_len: self.data_len as int,
            cards: cards_view(self.cards@),
        }
    }
}

/// The contents of a sequence of HDUs.
pub open spec fn hdus_view(hdus: Seq<Hdu>) -> Seq<HduModel> {
    Seq::new(hdus.len(), |i: int| hdus[i]@)
}

// ── Looking up keyword values ──

/// The kinds of value that a lookup accepts.
#[derive(Debug, Clone, Copy, PartialEq, Eq)]
pub enum ValueKind {
    Integer,
    Text,
    Logical,
    /// An integer or a floating-point value.
    Number,
}

/// The value is of the given kind.
pub open spec fn kind_matches(k: ValueKind, v: Option<ValueModel>) -> bool {
    match k {
        ValueKind::Integer => v matches Some(ValueModel::Integer(_)),
        ValueKind::Text => v matches Some(ValueModel::Str(_)),
        ValueKind::Logical => v matches Some(ValueModel::Logical(_)),
        ValueKind::Number => v matches Some(ValueModel::Integer(_)) || v matches Some(ValueModel::Float(_)),
    }
}

/// The index of the first card, from `i` on, whose keyword is `k` and whose
/// value is of kind `kind`.
pub open spec fn first_valued(cards: Seq<CardModel>, k: Seq<u8>, kind: ValueKind, i: int) -> Option<int>
    decreases cards.len() - i,
{
    if i < 0 || i >= cards.len() {
        None
    } else if cards[i].keyword == k && kind_matches(kind, cards[i].value) {
        Some(i)
    } else {
        first_valued(cards, k, kind, i + 1)
    }
}

/// What `first_valued` finds is in range, matches, and comes first.
pub proof fn lemma_first_valued(cards: Seq<CardModel>, k: Seq<u8>, kind: ValueKind, i: int)
    requires
        0 <= i,
    ensures
        first_valued(cards, k, kind, i) matches Some(j) ==> i <= j < cards.len()
            && cards[j].keyword == k && kind_matches(kind, cards[j].value),
    decreases cards.len() - i,
{
    if i < cards.len() {
        lemma_first_valued(cards, k, kind, i + 1);
    }
}

/// The index of the first card whose keyword is `k` and whose value is of
/// kind `kind`.
pub fn find_valued(cards: &[Card], k: &[u8; 8], kind: ValueKind) -> (r: Option<usize>)
    ensures
        r matches Some(i) ==> first_valued(cards_view(cards@), k@, kind, 0) == Some(i as int) && i < cards@.len(),
        r is None ==> first_valued(cards_view(cards@), k@, kind, 0) is None,
{
    let ghost cv = cards_view(cards@);
    let mut i: usize = 0;
    while i < cards.len()
        invariant
            i <= cards@.len(),
            cv == cards_view(cards@),
            first_valued(cv, k@, kind, i as int) == first_valued(cv, k@, kind, 0),
        decreases cards@.len() - i,
    {
        let c = &cards[i];
        assert(cv[i as int] == c@);
        let kind_ok = match (&c.value, kind) {
            (Some(Value::Integer(_)), ValueKind::Integer) => true,
            (Some(Value::String(_)), ValueKind::Text) => true,
            (Some(Value::Logical(_)), ValueKind::Logical) => true,
            (Some(Value::Integer(_)), ValueKind::Number) => true,
            (Some(Value::Float(_)), ValueKind::Number) => true,
            _ => false,
        };
        if keyword_eq(&c.keyword, k) && kind_ok {
            return Some(i);
        }
        i += 1;
    }
    None
}

/// The value of the first card with keyword `k` that holds an integer.
pub open spec fn card_int(cards: Seq<CardModel>, k: Seq<u8>) -> Option<int> {
    match first_valued(cards, k, ValueKind::Integer, 0) {
        Some(i) => match cards[i].value {
            Some(ValueModel::Integer(n)) => Some(n),
            _ => None,
        },
        None => None,
    }
}

/// The value, without surrounding whitespace, of the first card with
/// keyword `k` that holds a string.
pub open spec fn card_str(cards: Seq<CardModel>, k: Seq<u8>) -> Option<Seq<char>> {
    match first_valued(cards, k, ValueKind::Text, 0) {
        Some(i) => match cards[i].value {
            Some(ValueModel::Str(s)) => Some(trim(s)),
            _ => None,
        },
        None => None,
    }
}

/// The value of the first card with keyword `k` that holds a logical.
pub open spec fn card_bool(cards: Seq<CardModel>, k: Seq<u8>) -> Option<bool> {
    match first_valued(cards, k, ValueKind::Logical, 0) {
        Some(i) => match cards[i].value {
            Some(ValueModel::Logical(b)) => Some(b),
            _ => None,
        },
        None => None,
    }
}

/// The value of the first card with keyword `k` that holds an integer.
pub fn card_integer_value(cards: &[Card], k: &[u8; 8]) -> (r: Option<i64>)
    ensures
        r matches Some(n) ==> card_int(cards_view(cards@), k@) == Some(n as int),
        r is None ==> card_int(cards_view(cards@), k@) is None,
{
    proof { lemma_first_valued(cards_view(cards@), k@, ValueKind::Integer, 0); }
    match find_valued(cards, k, ValueKind::Integer) {
        Some(i) => {
            assert(cards_view(cards@)[i as int] == cards@[i as int]@);
            match &cards[i].value {
                Some(Value::Integer(n)) => Some(*n),
                _ => None,
            }
        },
        None => None,
    }
}

/// The value, without surrounding whitespace, of the first card with
/// keyword `k` that holds a string.
pub fn card_string_value(cards: &[Card], k: &[u8; 8]) -> (r: Option<String>)
    ensures
        r matches Some(s) ==> card_str(cards_view(cards@), k@) == Some(s@),
        r is None ==> card_str(cards_view(cards@), k@) is None,
{
    proof { lemma_first_valued(cards_view(cards@), k@, ValueKind::Text, 0); }
    match find_valued(cards, k, ValueKind::Text) {
        Some(i) => {
            assert(cards_view(cards@)[i as int] == cards@[i as int]@);
            match &cards[i].value {
                Some(Value::String(s)) => {
                    let cs = chars_of(s.as_str());
                    let (b, e) = trim_bounds(&cs, 0, cs.len());
                    assert(cs@.subrange(0, cs@.len() as int) =~= cs@);
                    Some(string_from_chars(&cs.as_slice()[b..e]))
                },
                _ => None,
            }
        },
        None => None,
    }
}

/// The value of the first card with keyword `k` that holds a logical.
pub fn card_logical_value(cards: &[Card], k: &[u8; 8]) -> (r: Option<bool>)
    ensures
        r == card_bool(cards_view(cards@), k@),
{
    proof { lemma_first_valued(cards_view(cards@), k@, ValueKind::Logical, 0); }
    match find_valued(cards, k, ValueKind::Logical) {
        Some(i) => {
            assert(cards_view(cards@)[i as int] == cards@[i as int]@);
            match &cards[i].value {
                Some(Value::Logical(b)) => Some(*b),
                _ => None,
            }
        },
        None => None,
    }
}

/// The keyword `prefix` followed by the decimal digits of `n`, when that
/// name fits in 8 bytes.
pub open spec fn numbered_keyword(prefix: Seq<u8>, n: nat) -> Option<Seq<u8>> {
    if prefix.len() + nat_digits(n).len() <= 8 {
        Some(kw_pad(prefix + nat_digits(n)))
    } else {
        None
    }
}

/// The keyword `prefix` followed by the decimal digits of `n`, when that
/// name fits in 8 bytes.
pub fn numbered_keyword_exec(prefix: &[u8], n: usize) -> (r: Option<[u8; 8]>)
    ensures
        r matches Some(k) ==> numbered_keyword(prefix@, n as nat) == Some(k@),
        r is None ==> numbered_keyword(prefix@, n as nat) is None,
{
    let digits = u64_decimal(n as u64);
    if prefix.len() > 8 || digits.len() > 8 - prefix.len() {
        return None;
    }
    Some(crate::header::indexed_keyword_exec(prefix, n as u64))
}

/// The integer value that a numbered keyword holds, if the name fits and a
/// card holds an integer under it.
pub open spec fn numbered_int(cards: Seq<CardModel>, prefix: Seq<u8>, n: nat) -> Option<int> {
    match numbered_keyword(prefix, n) {
        Some(k) => card_int(cards, k),
        None => None,
    }
}

/// The integer value that a numbered keyword holds, if the name fits and a
/// card holds an integer under it.
pub fn numbered_integer_value(cards: &[Card], prefix: &[u8], n: usize) -> (r: Option<i64>)
    ensures
        r matches Some(v) ==> numbered_int(cards_view(cards@), prefix@, n as nat) == Some(v as int),
        r is None ==> numbered_int(cards_view(cards@), prefix@, n as nat) is None,
{
    match numbered_keyword_exec(prefix, n) {
        Some(k) => card_integer_value(cards, &k),
        None => None,
    }
}

/// The lengths of axes 1..=k under `prefix` (`NAXIS` or `ZNAXIS`), each
/// value taken as a `usize`, when every one is present.
pub open spec fn axis_values(cards: Seq<CardModel>, prefix: Seq<u8>, k: nat) -> Option<Seq<usize>>
    decreases k,
{
    if k == 0 {
        Some(Seq::empty())
    } else {
        match axis_values(cards, prefix, (k - 1) as nat) {
            None => None,
            Some(s) => match numbered_int(cards, prefix, k) {
                None => None,
                Some(v) => Some(s.push((v as i64) as usize)),
            },
        }
    }
}

/// Once an axis is missing, every larger axis count is missing too.
pub proof fn lemma_axis_values_none(cards: Seq<CardModel>, prefix: Seq<u8>, m: nat, n: nat)
    requires
        m <= n,
        axis_values(cards, prefix, m) is None,
    ensures
        axis_values(cards, prefix, n) is None,
    decreases n - m,
{
    if m < n {
        lemma_axis_values_none(cards, prefix, m, (n - 1) as nat);
    }
}

/// Reading `k` axis lengths gives `k` of them.
pub proof fn lemma_axis_values_len(cards: Seq<CardModel>, prefix: Seq<u8>, k: nat)
    ensures
        axis_values(cards, prefix, k) matches Some(s) ==> s.len() == k,
    decreases k,
{
    if k > 0 {
        lemma_axis_values_len(cards, prefix, (k - 1) as nat);
    }
}

/// The lengths of axes 1..=n under `prefix`, when every one is present.
fn read_axes(cards: &[Card], prefix: &[u8], n: usize) -> (r: Option<Vec<usize>>)
    ensures
        r matches Some(v) ==> axis_values(cards_view(cards@), prefix@, n as nat) == Some(v@),
        r is None ==> axis_values(cards_view(cards@), prefix@, n as nat) is None,
{
    let mut dims: Vec<usize> = Vec::new();
    let mut k: usize = 0;
    while k < n
        invariant
            k <= n,
            axis_values(cards_view(cards@), prefix@, k as nat) == Some(dims@),
        decreases n - k,
    {
        match numbered_integer_value(cards, prefix, k + 1) {
            Some(v) => dims.push(v as usize),
            None => {
                proof { lemma_axis_values_none(cards_view(cards@), prefix@, (k + 1) as nat, n as nat); }
                return None;
            },
        }
        k += 1;
    }
    Some(dims)
}

// ── Data size ──

/// The product of the lengths, multiplied left to right, or `None` once a
/// partial product leaves the `usize` range.
pub open spec fn checked_product(s: Seq<usize>) -> Option<int>
    decreases s.len(),
{
    if s.len() == 0 {
        Some(1)
    } else {
        match checked_product(s.drop_last()) {
            None => None,
            Some(p) => if p * s.last() > usize::MAX { None } else { Some(p * s.last()) },
        }
    }
}

/// A checked product is never negative.
pub proof fn lemma_checked_product_nonneg(s: Seq<usize>)
    ensures
        checked_product(s) matches Some(p) ==> 0 <= p <= usize::MAX,
    decreases s.len(),
{
    if s.len() > 0 {
        lemma_checked_product_nonneg(s.drop_last());
        if let Some(p) = checked_product(s.drop_last()) {
            assert(p * s.last() >= 0) by (nonlinear_arith) requires p >= 0;
        }
    }
}

/// The product of `s[from..]`, multiplied left to right, or `None` on
/// overflow.
fn checked_product_exec(s: &[usize], from: usize) -> (r: Option<usize>)
    requires
        from <= s@.len(),
    ensures
        r matches Some(p) ==> checked_product(s@.subrange(from as int, s@.len() as int)) == Some(p as int),
        r is None ==> checked_product(s@.subrange(from as int, s@.len() as int)) is None,
{
    let mut acc: usize = 1;
    let mut i: usize = from;
    assert(s@.subrange(from as int, from as int) =~= Seq::<usize>::empty());
    while i < s.len()
        invariant
            from <= i <= s@.len(),
            checked_product(s@.subrange(from as int, i as int)) == Some(acc as int),
        decreases s@.len() - i,
    {
        assert(s@.subrange(from as int, i + 1).drop_last() =~= s@.subrange(from as int, i as int));
        match acc.checked_mul(s[i]) {
            Some(v) => acc = v,
            None => {
                proof { lemma_checked_none_suffix(s@, from as int, (i + 1) as int); }
                return None;
            },
        }
        i += 1;
    }
    Some(acc)
}

/// Once a partial product overflows, the whole product does.
proof fn lemma_checked_none_suffix(s: Seq<usize>, from: int, i: int)
    requires
        0 <= from <= i <= s.len(),
        checked_product(s.subrange(from, i)) is None,
    ensures
        checked_product(s.subrange(from, s.len() as int)) is None,
    decreases s.len() - i,
{
    if i < s.len() {
        assert(s.subrange(from, i + 1).drop_last() =~= s.subrange(from, i));
        lemma_checked_none_suffix(s, from, i + 1);
    }
}

/// The bytes `NAXIS`.
pub open spec fn naxis_name() -> Seq<u8> {
    seq![78u8, 65u8, 88u8, 73u8, 83u8]
}

/// The bytes `ZNAXIS`.
pub open spec fn znaxis_name() -> Seq<u8> {
    seq![90u8, 78u8, 65u8, 88u8, 73u8, 83u8]
}

/// The bytes `ZTILE`.
pub open spec fn ztile_name() -> Seq<u8> {
    seq![90u8, 84u8, 73u8, 76u8, 69u8]
}

/// The data size of a random-groups primary HDU:
/// `|BITPIX|/8 * GCOUNT * (PCOUNT + NAXIS2 * ... * NAXISm)`.
pub open spec fn random_groups_len(bpv: usize, dims: Seq<usize>, pcount: usize, gcount: usize) -> core::result::Result<usize, Error> {
    match checked_product(dims.subrange(1, dims.len() as int)) {
        None => Err(Error::InvalidHeader),
        Some(prod) => if pcount + prod > usize::MAX
            || bpv * gcount > usize::MAX
            || bpv * gcount * (pcount + prod) > usize::MAX {
            Err(Error::InvalidHeader)
        } else {
            Ok((bpv * gcount * (pcount + prod)) as usize)
        },
    }
}

/// The data size of an ordinary HDU: `GCOUNT * (|BITPIX|/8 * NAXIS1 * ...
/// * NAXISn + PCOUNT)`, computed without overflow.
pub open spec fn plain_data_len(bpv: usize, dims: Seq<usize>, pcount: usize, gcount: usize) -> core::result::Result<usize, Error> {
    match checked_product(dims) {
        None => Err(Error::InvalidHeader),
        Some(total) => if total * bpv > usize::MAX
            || gcount * (total * bpv) > usize::MAX
            || gcount * pcount > usize::MAX
            || gcount * (total * bpv) + gcount * pcount > usize::MAX {
            Err(Error::InvalidHeader)
        } else {
            Ok((gcount * (total * bpv) + gcount * pcount) as usize)
        },
    }
}

/// The length in bytes of an HDU's data (unpadded), from its header cards.
pub open spec fn spec_data_len(cards: Seq<CardModel>, is_primary: bool) -> core::result::Result<usize, Error> {
    match card_int(cards, StandardKeyword::Bitpix.spec_keyword()) {
        None => Err(Error::MissingKeyword("BITPIX")),
        Some(bitpix) => match card_int(cards, StandardKeyword::Naxis.spec_keyword()) {
            None => Err(Error::MissingKeyword("NAXIS")),
            Some(nv) => {
                let naxis = (nv as i64) as usize;
                if naxis == 0 {
                    Ok(0)
                } else {
                    let bpv = bytes_per_value(bitpix as i64);
                    match axis_values(cards, naxis_name(), naxis as nat) {
                        None => Err(Error::MissingKeyword("NAXISn")),
                        Some(dims) => if is_primary && dims[0] == 0
                            && card_bool(cards, StandardKeyword::Groups.spec_keyword()) == Some(true) {
                            match card_int(cards, StandardKeyword::Pcount.spec_keyword()) {
                                None => Err(Error::MissingKeyword("PCOUNT")),
                                Some(p) => match card_int(cards, StandardKeyword::Gcount.spec_keyword()) {
                                    None => Err(Error::MissingKeyword("GCOUNT")),
                                    Some(g) => random_groups_len(bpv, dims, (p as i64) as usize, (g as i64) as usize),
                                },
                            }
                        } else {
                            let pcount: usize = if is_primary {
                                0
                            } else {
                                match card_int(cards, StandardKeyword::Pcount.spec_keyword()) {
                                    Some(p) => (p as i64) as usize,
                                    None => 0,
                                }
                            };
                            let g0: usize = match card_int(cards, StandardKeyword::Gcount.spec_keyword()) {
                                Some(g) => (g as i64) as usize,
                                None => 1,
                            };
                            let gcount: usize = if is_primary || g0 == 0 { 1 } else { g0 };
                            plain_data_len(bpv, dims, pcount, gcount)
                        },
                    }
                }
            },
        },
    }
}

/// Compute the length of an HDU's data in bytes (unpadded) from its header
/// cards, including random groups and the heap of binary tables.
pub fn compute_data_byte_len(cards: &[Card], is_primary: bool) -> (r: Result<usize>)
    ensures
        r matches Ok(n) ==> spec_data_len(cards_view(cards@), is_primary) == Ok::<usize, Error>(n),
        r matches Err(e) ==> spec_data_len(cards_view(cards@), is_primary) == Err::<usize, Error>(e),
{
    let bitpix = match card_integer_value(cards, &StandardKeyword::Bitpix.keyword()) {
        Some(v) => v,
        None => return Err(Error::MissingKeyword("BITPIX")),
    };
    let naxis_val = match card_integer_value(cards, &StandardKeyword::Naxis.keyword()) {
        Some(v) => v,
        None => return Err(Error::MissingKeyword("NAXIS")),
    };
    let naxis = naxis_val as usize;
    if naxis == 0 {
        return Ok(0);
    }
    let bpv = bytes_per_value_exec(bitpix);
    let prefix = [78u8, 65u8, 88u8, 73u8, 83u8];
    assert(prefix@ =~= naxis_name());
    let dims = match read_axes(cards, &prefix, naxis) {
        Some(d) => d,
        None => return Err(Error::MissingKeyword("NAXISn")),
    };
    proof { lemma_axis_values_len(cards_view(cards@), naxis_name(), naxis as nat); }
    if is_primary && dims[0] == 0
        && card_logical_value(cards, &StandardKeyword::Groups.keyword()) == Some(true) {
        let pcount = match card_integer_value(cards, &StandardKeyword::Pcount.keyword()) {
            Some(v) => v as usize,
            None => return Err(Error::MissingKeyword("PCOUNT")),
        };
        let gcount = match card_integer_value(cards, &StandardKeyword::Gcount.keyword()) {
            Some(v) => v as usize,
            None => return Err(Error::MissingKeyword("GCOUNT")),
        };
        let product = match checked_product_exec(dims.as_slice(), 1) {
            Some(p) => p,
            None => return Err(Error::InvalidHeader),
        };
        proof {
            lemma_checked_product_nonneg(dims@.subrange(1, dims@.len() as int));
        }
        let group_size = match pcount.checked_add(product) {
            Some(v) => v,
            None => return Err(Error::InvalidHeader),
        };
        let per_group = match bpv.checked_mul(gcount) {
            Some(v) => v,
            None => return Err(Error::InvalidHeader),
        };
        return match per_group.checked_mul(group_size) {
            Some(v) => Ok(v),
            None => Err(Error::InvalidHeader),
        };
    }
    assert(dims@.subrange(0, dims@.len() as int) =~= dims@);
    let total = match checked_product_exec(dims.as_slice(), 0) {
        Some(p) => p,
        None => return Err(Error::InvalidHeader),
    };
    let pcount: usize = if is_primary {
        0
    } else {
        match card_integer_value(cards, &StandardKeyword::Pcount.keyword()) {
            Some(p) => p as usize,
            None => 0,
        }
    };
    let g0: usize = match card_integer_value(cards, &StandardKeyword::Gcount.keyword()) {
        Some(g) => g as usize,
        None => 1,
    };
    let gcount: usize = if is_primary || g0 == 0 { 1 } else { g0 };
    let pixels_bytes = match total.checked_mul(bpv) {
        Some(v) => v,
        None => return Err(Error::InvalidHeader),
    };
    let body = match gcount.checked_mul(pixels_bytes) {
        Some(v) => v,
        None => return Err(Error::InvalidHeader),
    };
    let heap = match gcount.checked_mul(pcount) {
        Some(v) => v,
        None => return Err(Error::InvalidHeader),
    };
    match body.checked_add(heap) {
        Some(v) => Ok(v),
        None => Err(Error::InvalidHeader),
    }
}

// ── HDU description ──

/// A card carries `k` with an integer value, or `MissingKeyword(name)`.
pub open spec fn required_int(cards: Seq<CardModel>, k: StandardKeyword) -> core::result::Result<int, Error> {
    match card_int(cards, k.spec_keyword()) {
        Some(v) => Ok(v),
        None => Err(Error::MissingKeyword(k.spec_label())),
    }
}

/// The integer value of keyword `k`, or `MissingKeyword` with its name.
fn required_integer(cards: &[Card], k: StandardKeyword) -> (r: Result<i64>)
    ensures
        r matches Ok(v) ==> required_int(cards_view(cards@), k) == Ok::<int, Error>(v as int),
        r matches Err(e) ==> required_int(cards_view(cards@), k) == Err::<int, Error>(e),
{
    match card_integer_value(cards, &k.keyword()) {
        Some(v) => Ok(v),
        None => Err(Error::MissingKeyword(k.label())),
    }
}

/// The tile lengths of a compressed image: ZTILEi, or by default the first
/// image axis for i = 1 and 1 for the others.
pub open spec fn tile_lengths(cards: Seq<CardModel>, znaxes: Seq<usize>, n: nat) -> Seq<usize> {
    Seq::new(n, |j: int| {
        let default: usize = if j == 0 && znaxes.len() > 0 { znaxes[0] } else { 1 };
        match numbered_int(cards, ztile_name(), (j + 1) as nat) {
            Some(v) => (v as i64) as usize,
            None => default,
        }
    })
}

/// Rice block size and bytes per pixel (ZVAL1, ZVAL2, by default 32 and 4),
/// swapped when they come in the order that cfitsio writes by mistake.
pub open spec fn rice_parameters(cards: Seq<CardModel>) -> (usize, usize) {
    let b: usize = match card_int(cards, StandardKeyword::Zval1.spec_keyword()) {
        Some(v) => (v as i64) as usize,
        None => 32,
    };
    let p: usize = match card_int(cards, StandardKeyword::Zval2.spec_keyword()) {
        Some(v) => (v as i64) as usize,
        None => 4,
    };
    if b < 16 && p > 8 { (p, b) } else { (b, p) }
}

/// A compressed-image description from its parts.
pub open spec fn compressed_model(
    zbitpix: i64,
    znaxes: Seq<usize>,
    algorithm: Seq<char>,
    ztile: Seq<usize>,
    rice: (usize, usize),
    table: (usize, usize, usize, usize),
) -> HduInfoModel {
    HduInfoModel::CompressedImage {
        zbitpix,
        znaxes,
        zcmptype: algorithm,
        ztile,
        blocksize: rice.0,
        rice_bytepix: rice.1,
        naxis1: table.0,
        naxis2: table.1,
        pcount: table.2,
        tfields: table.3,
    }
}

/// A compressed-image description from its parts.
fn make_compressed(
    zbitpix: i64,
    znaxes: Vec<usize>,
    algorithm: String,
    ztile: Vec<usize>,
    rice: (usize, usize),
    table: (usize, usize, usize, usize),
) -> (r: HduInfo)
    ensures
        r@ == compressed_model(zbitpix, znaxes@, algorithm@, ztile@, rice, table),
{
    HduInfo::CompressedImage {
        zbitpix,
        znaxes,
        zcmptype: algorithm,
        ztile,
        blocksize: rice.0,
        rice_bytepix: rice.1,
        naxis1: table.0,
        naxis2: table.1,
        pcount: table.2,
        tfields: table.3,
    }
}

/// The description of a compressed image whose binary-table layout is
/// `naxis1`, `naxis2`, `pcount`, `tfields`.
pub open spec fn spec_compressed_info(
    cards: Seq<CardModel>,
    naxis1: usize,
    naxis2: usize,
    pcount: usize,
    tfields: usize,
) -> core::result::Result<HduInfoModel, Error> {
    match required_int(cards, StandardKeyword::Zbitpix) {
        Err(e) => Err(e),
        Ok(zbitpix) => match required_int(cards, StandardKeyword::Znaxis) {
            Err(e) => Err(e),
            Ok(zn) => match axis_values(cards, znaxis_name(), ((zn as i64) as usize) as nat) {
                None => Err(Error::MissingKeyword("ZNAXISn")),
                Some(znaxes) => match card_str(cards, StandardKeyword::CompressionType.spec_keyword()) {
                    None => Err(Error::MissingKeyword("ZCMPTYPE")),
                    Some(algorithm) => Ok(compressed_model(
                        zbitpix as i64,
                        znaxes,
                        algorithm,
                        tile_lengths(cards, znaxes, ((zn as i64) as usize) as nat),
                        rice_parameters(cards),
                        (naxis1, naxis2, pcount, tfields),
                    )),
                },
            },
        },
    }
}

/// The BITPIX and axis lengths of an image header.
pub open spec fn spec_image_shape(cards: Seq<CardModel>) -> core::result::Result<(i64, Seq<usize>), Error> {
    match required_int(cards, StandardKeyword::Bitpix) {
        Err(e) => Err(e),
        Ok(bitpix) => match required_int(cards, StandardKeyword::Naxis) {
            Err(e) => Err(e),
            Ok(nv) => match axis_values(cards, naxis_name(), ((nv as i64) as usize) as nat) {
                None => Err(Error::MissingKeyword("NAXISn")),
                Some(naxes) => Ok((bitpix as i64, naxes)),
            },
        },
    }
}

/// The description of an HDU, from its header cards.
pub open spec fn spec_hdu_info(cards: Seq<CardModel>, is_primary: bool) -> core::result::Result<HduInfoModel, Error> {
    if is_primary {
        match spec_image_shape(cards) {
            Err(e) => Err(e),
            Ok((bitpix, naxes)) => if naxes.len() > 0 && naxes[0] == 0
                && card_bool(cards, StandardKeyword::Groups.spec_keyword()) == Some(true) {
                match required_int(cards, StandardKeyword::Pcount) {
                    Err(e) => Err(e),
                    Ok(p) => match required_int(cards, StandardKeyword::Gcount) {
                        Err(e) => Err(e),
                        Ok(g) => Ok(HduInfoModel::RandomGroups {
                            bitpix,
                            naxes: naxes.subrange(1, naxes.len() as int),
                            pcount: (p as i64) as usize,
                            gcount: (g as i64) as usize,
                        }),
                    },
                }
            } else {
                Ok(HduInfoModel::Primary { bitpix, naxes })
            },
        }
    } else {
        match card_str(cards, StandardKeyword::Xtension.spec_keyword()) {
            None => Err(Error::MissingKeyword("XTENSION")),
            Some(x) => if x == "IMAGE"@ {
                match spec_image_shape(cards) {
                    Err(e) => Err(e),
                    Ok((bitpix, naxes)) => Ok(HduInfoModel::Image { bitpix, naxes }),
                }
            } else if x == "TABLE"@ {
                match required_int(cards, StandardKeyword::Naxis1) {
                    Err(e) => Err(e),
                    Ok(n1) => match required_int(cards, StandardKeyword::Naxis2) {
                        Err(e) => Err(e),
                        Ok(n2) => match required_int(cards, StandardKeyword::Tfields) {
                            Err(e) => Err(e),
                            Ok(tf) => Ok(HduInfoModel::AsciiTable {
                                naxis1: (n1 as i64) as usize,
                                naxis2: (n2 as i64) as usize,
                                tfields: (tf as i64) as usize,
                            }),
                        },
                    },
                }
            } else if x == "BINTABLE"@ {
                match required_int(cards, StandardKeyword::Naxis1) {
                    Err(e) => Err(e),
                    Ok(n1) => match required_int(cards, StandardKeyword::Naxis2) {
                        Err(e) => Err(e),
                        Ok(n2) => match required_int(cards, StandardKeyword::Pcount) {
                            Err(e) => Err(e),
                            Ok(pc) => match required_int(cards, StandardKeyword::Tfields) {
                                Err(e) => Err(e),
                                Ok(tf) => if card_bool(cards, StandardKeyword::Zimage.spec_keyword()) == Some(true) {
                                    spec_compressed_info(cards, (n1 as i64) as usize, (n2 as i64) as usize,
                                        (pc as i64) as usize, (tf as i64) as usize)
                                } else {
                                    Ok(HduInfoModel::BinaryTable {
                                        naxis1: (n1 as i64) as usize,
                                        naxis2: (n2 as i64) as usize,
                                        pcount: (pc as i64) as usize,
                                        tfields: (tf as i64) as usize,
                                    })
                                },
                            },
                        },
                    },
                }
            } else {
                Err(Error::UnsupportedExtension)
            },
        }
    }
}

/// The BITPIX and axis lengths of an image header.
fn image_shape(cards: &[Card]) -> (r: Result<(i64, Vec<usize>)>)
    ensures
        r matches Ok((b, v)) ==> spec_image_shape(cards_view(cards@)) == Ok::<(i64, Seq<usize>), Error>((b, v@)),
        r matches Err(e) ==> spec_image_shape(cards_view(cards@)) == Err::<(i64, Seq<usize>), Error>(e),
{
    let bitpix = match required_integer(cards, StandardKeyword::Bitpix) {
        Ok(v) => v,
        Err(e) => return Err(e),
    };
    let nv = match required_integer(cards, StandardKeyword::Naxis) {
        Ok(v) => v,
        Err(e) => return Err(e),
    };
    let prefix = [78u8, 65u8, 88u8, 73u8, 83u8];
    assert(prefix@ =~= naxis_name());
    match read_axes(cards, &prefix, nv as usize) {
        Some(naxes) => Ok((bitpix, naxes)),
        None => Err(Error::MissingKeyword("NAXISn")),
    }
}

/// A copy of `s[from..]`.
fn tail_copy(s: &[usize], from: usize) -> (r: Vec<usize>)
    requires
        from <= s@.len(),
    ensures
        r@ == s@.subrange(from as int, s@.len() as int),
{
    let mut out: Vec<usize> = Vec::new();
    let mut i: usize = from;
    while i < s.len()
        invariant
            from <= i <= s@.len(),
            out@ == s@.subrange(from as int, i as int),
        decreases s@.len() - i,
    {
        out.push(s[i]);
        i += 1;
        assert(out@ =~= s@.subrange(from as int, i as int));
    }
    out
}

/// The description of a compressed image stored in a binary table.
fn compressed_info(cards: &[Card], naxis1: usize, naxis2: usize, pcount: usize, tfields: usize) -> (r: Result<HduInfo>)
    ensures
        r matches Ok(h) ==> spec_compressed_info(cards_view(cards@), naxis1, naxis2, pcount, tfields) == Ok::<HduInfoModel, Error>(h@),
        r matches Err(e) ==> spec_compressed_info(cards_view(cards@), naxis1, naxis2, pcount, tfields) == Err::<HduInfoModel, Error>(e),
{
    let ghost cv = cards_view(cards@);
    let zbitpix = match required_integer(cards, StandardKeyword::Zbitpix) {
        Ok(v) => v,
        Err(e) => return Err(e),
    };
    let zn = match required_integer(cards, StandardKeyword::Znaxis) {
        Ok(v) => v,
        Err(e) => return Err(e),
    };
    let znaxis = zn as usize;
    let zprefix = [90u8, 78u8, 65u8, 88u8, 73u8, 83u8];
    assert(zprefix@ =~= znaxis_name());
    let znaxes = match read_axes(cards, &zprefix, znaxis) {
        Some(v) => v,
        None => return Err(Error::MissingKeyword("ZNAXISn")),
    };
    let algorithm = match card_string_value(cards, &StandardKeyword::CompressionType.keyword()) {
        Some(s) => s,
        None => return Err(Error::MissingKeyword("ZCMPTYPE")),
    };
    let tprefix = [90u8, 84u8, 73u8, 76u8, 69u8];
    assert(tprefix@ =~= ztile_name());
    let ghost tiles = tile_lengths(cv, znaxes@, znaxis as nat);
    let mut ztile: Vec<usize> = Vec::new();
    let mut j: usize = 0;
    while j < znaxis
        invariant
            j <= znaxis,
            cv == cards_view(cards@),
            tiles == tile_lengths(cv, znaxes@, znaxis as nat),
            ztile@ == tiles.subrange(0, j as int),
            tprefix@ == ztile_name(),
        decreases znaxis - j,
    {
        let default: usize = if j == 0 && znaxes.len() > 0 { znaxes[0] } else { 1 };
        let val = match numbered_integer_value(cards, &tprefix, j + 1) {
            Some(v) => v as usize,
            None => default,
        };
        ztile.push(val);
        j += 1;
        assert(ztile@ =~= tiles.subrange(0, j as int));
    }
    assert(tiles.subrange(0, znaxis as int) =~= tiles);
    let mut blocksize: usize = match card_integer_value(cards, &StandardKeyword::Zval1.keyword()) {
        Some(v) => v as usize,
        None => 32,
    };
    let mut rice_bytepix: usize = match card_integer_value(cards, &StandardKeyword::Zval2.keyword()) {
        Some(v) => v as usize,
        None => 4,
    };
    if blocksize < 16 && rice_bytepix > 8 {
        let t = blocksize;
        blocksize = rice_bytepix;
        rice_bytepix = t;
    }
    Ok(make_compressed(zbitpix, znaxes, algorithm, ztile, (blocksize, rice_bytepix), (naxis1, naxis2, pcount, tfields)))
}

/// Describe an HDU (its kind and shape) from its header cards.
pub fn parse_hdu_info(cards: &[Card], is_primary: bool) -> (r: Result<HduInfo>)
    ensures
        r matches Ok(h) ==> spec_hdu_info(cards_view(cards@), is_primary) == Ok::<HduInfoModel, Error>(h@),
        r matches Err(e) ==> spec_hdu_info(cards_view(cards@), is_primary) == Err::<HduInfoModel, Error>(e),
{
    if is_primary {
        let (bitpix, naxes) = match image_shape(cards) {
            Ok(x) => x,
            Err(e) => return Err(e),
        };
        if naxes.len() > 0 && naxes[0] == 0
            && card_logical_value(cards, &StandardKeyword::Groups.keyword()) == Some(true) {
            let pcount = match required_integer(cards, StandardKeyword::Pcount) {
                Ok(v) => v,
                Err(e) => return Err(e),
            };
            let gcount = match required_integer(cards, StandardKeyword::Gcount) {
                Ok(v) => v,
                Err(e) => return Err(e),
            };
            return Ok(HduInfo::RandomGroups {
                bitpix,
                naxes: tail_copy(naxes.as_slice(), 1),
                pcount: pcount as usize,
                gcount: gcount as usize,
            });
        }
        return Ok(HduInfo::Primary { bitpix, naxes });
    }
    let xtension = match card_string_value(cards, &StandardKeyword::Xtension.keyword()) {
        Some(s) => s,
        None => return Err(Error::MissingKeyword("XTENSION")),
    };
    proof {
        reveal_strlit("IMAGE");
        reveal_strlit("TABLE");
        reveal_strlit("BINTABLE");
    }
    if xtension_is(&xtension, "IMAGE") {
        let (bitpix, naxes) = match image_shape(cards) {
            Ok(x) => x,
            Err(e) => return Err(e),
        };
        Ok(HduInfo::Image { bitpix, naxes })
    } else if xtension_is(&xtension, "TABLE") {
        let n1 = match required_integer(cards, StandardKeyword::Naxis1) {
            Ok(v) => v,
            Err(e) => return Err(e),
        };
        let n2 = match required_integer(cards, StandardKeyword::Naxis2) {
            Ok(v) => v,
            Err(e) => return Err(e),
        };
        let tf = match required_integer(cards, StandardKeyword::Tfields) {
            Ok(v) => v,
            Err(e) => return Err(e),
        };
        Ok(HduInfo::AsciiTable { naxis1: n1 as usize, naxis2: n2 as usize, tfields: tf as usize })
    } else if xtension_is(&xtension, "BINTABLE") {
        let n1 = match required_integer(cards, StandardKeyword::Naxis1) {
            Ok(v) => v,
            Err(e) => return Err(e),
        };
        let n2 = match required_integer(cards, StandardKeyword::Naxis2) {
            Ok(v) => v,
            Err(e) => return Err(e),
        };
        let pc = match required_integer(cards, StandardKeyword::Pcount) {
            Ok(v) => v,
            Err(e) => return Err(e),
        };
        let tf = match required_integer(cards, StandardKeyword::Tfields) {
            Ok(v) => v,
            Err(e) => return Err(e),
        };
        if card_logical_value(cards, &StandardKeyword::Zimage.keyword()) == Some(true) {
            return compressed_info(cards, n1 as usize, n2 as usize, pc as usize, tf as usize);
        }
        Ok(HduInfo::BinaryTable {
            naxis1: n1 as usize,
            naxis2: n2 as usize,
            pcount: pc as usize,
            tfields: tf as usize,
        })
    } else {
        Err(Error::UnsupportedExtension)
    }
}

/// Whether the string is exactly `name`.
fn xtension_is(s: &String, name: &str) -> (r: bool)
    ensures
        r == (s@ == name@),
{
    let a = chars_of(s.as_str());
    let b = chars_of(name);
    if a.len() != b.len() {
        return false;
    }
    let mut i: usize = 0;
    while i < a.len()
        invariant
            a@.len() == b@.len(),
            i <= a@.len(),
            a@ == s@,
            b@ == name@,
            forall|j: int| 0 <= j < i ==> a@[j] == b@[j],
        decreases a@.len() - i,
    {
        if a[i] != b[i] {
            return false;
        }
        i += 1;
    }
    assert(a@ =~= b@);
    true
}

// ── The whole file ──

/// The first card's keyword is SIMPLE.
pub open spec fn spec_is_primary(cards: Seq<CardModel>) -> bool {
    cards.len() > 0 && cards[0].keyword == StandardKeyword::Simple.spec_keyword()
}

/// Whether the first card's keyword is SIMPLE.
fn is_primary_hdu(cards: &[Card]) -> (r: bool)
    ensures
        r == spec_is_primary(cards_view(cards@)),
{
    if cards.len() == 0 {
        return false;
    }
    assert(cards_view(cards@)[0] == cards@[0]@);
    keyword_eq(&cards[0].keyword, &StandardKeyword::Simple.keyword())
}

/// The HDUs of `data` from byte `offset` on. `first` says whether this is
/// the first HDU; after the first, a header that cannot be read ends the
/// list instead of failing it.
pub open spec fn spec_hdus_from(data: Seq<u8>, offset: int, first: bool) -> core::result::Result<Seq<HduModel>, Error>
    decreases data.len() - offset,
{
    if offset < 0 || offset >= data.len() || data.len() - offset < 2880 {
        Ok(Seq::empty())
    } else {
        let remaining = data.subrange(offset, data.len() as int);
        match spec_header_byte_len(remaining) {
            Err(e) => if first { Err(e) } else { Ok(Seq::empty()) },
            Ok(hl) => match spec_parse_header(remaining.subrange(0, hl as int)) {
                Err(e) => if first { Err(e) } else { Ok(Seq::empty()) },
                Ok(cards) => {
                    let is_primary = first && spec_is_primary(cards);
                    if first && !is_primary {
                        Err(Error::InvalidHeader)
                    } else {
                        match spec_hdu_info(cards, is_primary) {
                            Err(e) => if first { Err(e) } else { Ok(Seq::empty()) },
                            Ok(info) => match spec_data_len(cards, is_primary) {
                                Err(e) => if first { Err(e) } else { Ok(Seq::empty()) },
                                Ok(dl) => {
                                    let data_start = offset + hl;
                                    if dl > 0 && data_start + dl > data.len() {
                                        Err(Error::UnexpectedEof)
                                    } else {
                                        let hdu = HduModel {
                                            info,
                                            header_start: offset,
                                            data_start,
                                            data_len: dl as int,
                                            cards,
                                        };
                                        let next = data_start + spec_padded_len(dl as int);
                                        proof {
                                            lemma_padded_len_bounds(dl as int);
                                        }
                                        if hl == 0 || next >= data.len() {
                                            Ok(seq![hdu])
                                        } else {
                                            match spec_hdus_from(data, next, false) {
                                                Ok(rest) => Ok(seq![hdu] + rest),
                                                Err(e) => Err(e),
                                            }
                                        }
                                    }
                                },
                            },
                        }
                    }
                },
            },
        }
    }
}

/// The HDUs of a complete FITS byte stream.
pub open spec fn spec_parse_fits(data: Seq<u8>) -> core::result::Result<Seq<HduModel>, Error> {
    if data.len() < 2880 {
        Err(Error::UnexpectedEof)
    } else {
        match spec_hdus_from(data, 0, true) {
            Err(e) => Err(e),
            Ok(hdus) => if hdus.len() == 0 { Err(Error::InvalidHeader) } else { Ok(hdus) },
        }
    }
}

/// A collection of HDUs parsed from a complete FITS file.
#[derive(Debug, Clone)]
pub struct FitsData {
    /// All HDUs in the file, with the primary HDU at index 0.
    pub hdus: Vec<Hdu>,
}

/// Parse a complete FITS byte stream into a [`FitsData`] containing all HDUs.
#[verifier::rlimit(60)]
pub fn parse_fits(data: &[u8]) -> (r: Result<FitsData>)
    requires
        data@.len() + 2880 <= usize::MAX,
    ensures
        r matches Ok(f) ==> spec_parse_fits(data@) == Ok::<Seq<HduModel>, Error>(hdus_view(f.hdus@)),
        r matches Err(e) ==> spec_parse_fits(data@) == Err::<Seq<HduModel>, Error>(e),
{
    if data.len() == 0 {
        return Err(Error::UnexpectedEof);
    }
    if data.len() < BLOCK_SIZE {
        return Err(Error::UnexpectedEof);
    }
    let ghost whole = spec_hdus_from(data@, 0, true);
    let mut hdus: Vec<Hdu> = Vec::new();
    let mut offset: usize = 0;
    loop
        invariant
            data@.len() + 2880 <= usize::MAX,
            data@.len() >= 2880,
            whole == spec_hdus_from(data@, 0, true),
            hdus@.len() == 0 ==> offset == 0,
            spec_hdus_from(data@, offset as int, hdus@.len() == 0) matches Ok(rest)
                ==> whole == Ok::<Seq<HduModel>, Error>(hdus_view(hdus@) + rest),
            spec_hdus_from(data@, offset as int, hdus@.len() == 0) matches Err(e)
                ==> whole == Err::<Seq<HduModel>, Error>(e),
        ensures
            whole == Ok::<Seq<HduModel>, Error>(hdus_view(hdus@)),
        decreases data@.len() + 2880 - offset,
    {
        let ghost first = hdus@.len() == 0;
        if offset >= data.len() || data.len() - offset < BLOCK_SIZE {
            proof {
                assert(hdus_view(hdus@) + Seq::<HduModel>::empty() =~= hdus_view(hdus@));
            }
            break;
        }
        let remaining = &data[offset..data.len()];
        assert(remaining@ == data@.subrange(offset as int, data@.len() as int));
        let header_len = match header_byte_len(remaining) {
            Ok(len) => len,
            Err(e) => {
                if hdus.len() > 0 {
                    assert(hdus_view(hdus@) + Seq::<HduModel>::empty() =~= hdus_view(hdus@));
                    break;
                }
                return Err(e);
            },
        };
        let header_data = &remaining[0..header_len];
        assert(header_data@ == remaining@.subrange(0, header_len as int));
        let cards = match parse_header_blocks(header_data) {
            Ok(cards) => cards,
            Err(e) => {
                if hdus.len() > 0 {
                    assert(hdus_view(hdus@) + Seq::<HduModel>::empty() =~= hdus_view(hdus@));
                    break;
                }
                return Err(e);
            },
        };
        let is_primary = hdus.len() == 0 && is_primary_hdu(cards.as_slice());
        if hdus.len() == 0 && !is_primary {
            return Err(Error::InvalidHeader);
        }
        let info = match parse_hdu_info(cards.as_slice(), is_primary) {
            Ok(info) => info,
            Err(e) => {
                if hdus.len() > 0 {
                    assert(hdus_view(hdus@) + Seq::<HduModel>::empty() =~= hdus_view(hdus@));
                    break;
                }
                return Err(e);
            },
        };
        let data_len = match compute_data_byte_len(cards.as_slice(), is_primary) {
            Ok(len) => len,
            Err(e) => {
                if hdus.len() > 0 {
                    assert(hdus_view(hdus@) + Seq::<HduModel>::empty() =~= hdus_view(hdus@));
                    break;
                }
                return Err(e);
            },
        };
        let data_start = offset + header_len;
        if data_len > 0 && data_len > data.len() - data_start {
            return Err(Error::UnexpectedEof);
        }
        proof {
            lemma_padded_len_bounds(data_len as int);
        }
        let padded_data = padded_byte_len(data_len);
        let ghost hdu_model = HduModel {
            info: info@,
            header_start: offset as int,
            data_start: data_start as int,
            data_len: data_len as int,
            cards: cards_view(cards@),
        };
        let ghost old_hdus = hdus@;
        hdus.push(Hdu { info, header_start: offset, data_start, data_len, cards });
        proof {
            assert(hdus_view(hdus@) =~= hdus_view(old_hdus) + seq![hdu_model]);
            if let Ok(rest) = spec_hdus_from(data@, (data_start + padded_data) as int, false) {
                assert(hdus_view(old_hdus) + (seq![hdu_model] + rest) =~= hdus_view(hdus@) + rest);
            }
        }
        offset = data_start + padded_data;
    }
    if hdus.len() == 0 {
        return Err(Error::InvalidHeader);
    }
    Ok(FitsData { hdus })
}

/// The HDU's EXTNAME, without surrounding whitespace, is `name`.
pub open spec fn has_extname(h: HduModel, name: Seq<char>) -> bool {
    card_str(h.cards, StandardKeyword::Extname.spec_keyword()) == Some(name)
}

impl FitsData {
    /// Returns the primary (first) HDU.
    pub fn primary(&self) -> (r: &Hdu)
        requires
            self.hdus@.len() > 0,
        ensures
            *r == self.hdus@[0],
    {
        &self.hdus[0]
    }

    /// Returns the HDU at the given index, or `None` if out of bounds.
    pub fn get(&self, index: usize) -> (r: Option<&Hdu>)
        ensures
            r is None <==> index >= self.hdus@.len(),
            r matches Some(h) ==> *h == self.hdus@[index as int],
    {
        if index < self.hdus.len() {
            Some(&self.hdus[index])
        } else {
            None
        }
    }

    /// Finds the first HDU whose EXTNAME matches `name`.
    pub fn find_by_name(&self, name: &str) -> (r: Option<&Hdu>)
        ensures
            r is None <==> !(exists|i: int| 0 <= i < self.hdus@.len() && has_extname(self.hdus@[i]@, name@)),
            r matches Some(h) ==> exists|i: int| 0 <= i < self.hdus@.len() && *h == self.hdus@[i]
                && has_extname(self.hdus@[i]@, name@)
                && forall|j: int| 0 <= j < i ==> !has_extname(#[trigger] self.hdus@[j]@, name@),
    {
        let extname = StandardKeyword::Extname.keyword();
        let mut i: usize = 0;
        while i < self.hdus.len()
            invariant
                i <= self.hdus@.len(),
                extname@ == StandardKeyword::Extname.spec_keyword(),
                forall|j: int| 0 <= j < i ==> !has_extname(#[trigger] self.hdus@[j]@, name@),
            decreases self.hdus@.len() - i,
        {
            let h = &self.hdus[i];
            let found = match card_string_value(h.cards.as_slice(), &extname) {
                Some(s) => xtension_is(&s, name),
                None => false,
            };
            if found {
                return Some(h);
            }
            i += 1;
        }
        None
    }

    /// Returns the number of HDUs.
    pub fn len(&self) -> (r: usize)
        ensures
            r == self.hdus@.len(),
    {
        self.hdus.len()
    }

    /// Returns `true` if the file contains no HDUs.
    pub fn is_empty(&self) -> (r: bool)
        ensures
            r == (self.hdus@.len() == 0),
    {
        self.hdus.len() == 0
    }

    /// Iterates over all HDUs in order.
    pub fn iter(&self) -> (r: std::slice::Iter<'_, Hdu>)
        ensures
            vstd::std_specs::slice::into_iter_elts(r) == self.hdus@,
    {
        self.hdus.as_slice().iter()
    }
}

/// Every HDU parsed from `data` has at most one card per 80 bytes of it.
pub proof fn lemma_hdu_cards_bounded(data: Seq<u8>, offset: int, first: bool)
    ensures
        spec_hdus_from(data, offset, first) matches Ok(hs) ==> forall|k: int| 0 <= k < hs.len()
            ==> 80 * (#[trigger] hs[k]).cards.len() <= data.len()
                && 0 <= hs[k].data_start && 0 <= hs[k].data_len && hs[k].data_start + hs[k].data_len <= data.len(),
    decreases data.len() - offset,
{
    if !(offset < 0 || offset >= data.len() || data.len() - offset < 2880) {
        let remaining = data.subrange(offset, data.len() as int);
        crate::header::lemma_header_byte_len_bound(remaining);
        if let Ok(hl) = spec_header_byte_len(remaining) {
            crate::header::lemma_parse_header_count(remaining.subrange(0, hl as int));
            if let Ok(dl) = spec_data_len(spec_parse_header(remaining.subrange(0, hl as int))->Ok_0,
                first && spec_is_primary(spec_parse_header(remaining.subrange(0, hl as int))->Ok_0)) {
                let next = offset + hl + spec_padded_len(dl as int);
                lemma_padded_len_bounds(dl as int);
                if hl > 0 && next < data.len() {
                    lemma_hdu_cards_bounded(data, next, false);
                }
            }
        }
    }
}

/// Where the HDUs read from byte `offset` on lie (see
/// [`lemma_parse_fits_layout`]).
pub(crate) proof fn lemma_hdus_from_layout(data: Seq<u8>, offset: int, first: bool)
    requires
        0 <= offset,
        offset % 2880 == 0,
        data.len() <= usize::MAX,
    ensures
        spec_hdus_from(data, offset, first) matches Ok(hs) ==> {
            &&& hs.len() > 0 ==> hs[0].header_start == offset && (first ==> spec_is_primary(hs[0].cards))
            &&& forall|k: int| 0 <= k < hs.len() ==> hdu_in_place(#[trigger] hs[k], data.len() as int)
            &&& forall|k: int| 0 <= k < hs.len() - 1 ==> #[trigger] hs[k + 1].header_start
                == hs[k].data_start + spec_padded_len(hs[k].data_len)
        },
    decreases data.len() - offset,
{
    if !(offset >= data.len() || data.len() - offset < 2880) {
        let remaining = data.subrange(offset, data.len() as int);
        crate::header::lemma_header_ends_with_end_block(remaining);
        if let Ok(hl) = spec_header_byte_len(remaining) {
            if let Ok(cards) = spec_parse_header(remaining.subrange(0, hl as int)) {
                let is_primary = first && spec_is_primary(cards);
                if let Ok(dl) = spec_data_len(cards, is_primary) {
                    lemma_padded_len_bounds(dl as int);
                    let next = offset + hl + spec_padded_len(dl as int);
                    assert(next % 2880 == 0) by (nonlinear_arith)
                        requires next == offset + hl + spec_padded_len(dl as int), offset % 2880 == 0, hl % 2880 == 0,
                            spec_padded_len(dl as int) % 2880 == 0;
                    if hl > 0 && next < data.len() {
                        lemma_hdus_from_layout(data, next, false);
                    }
                    if let Ok(hs) = spec_hdus_from(data, offset, first) {
                        if hs.len() > 1 {
                            let rest = spec_hdus_from(data, next, false)->Ok_0;
                            assert forall|k: int| 0 <= k < hs.len() implies hdu_in_place(#[trigger] hs[k], data.len() as int) by {
                                if k > 0 {
                                    assert(hs[k] == rest[k - 1]);
                                }
                            }
                            assert forall|k: int| 0 <= k < hs.len() - 1 implies #[trigger] hs[k + 1].header_start
                                == hs[k].data_start + spec_padded_len(hs[k].data_len) by {
                                if k > 0 {
                                    assert(hs[k] == rest[k - 1]);
                                    assert(hs[k + 1] == rest[k]);
                                    assert(rest[(k - 1) + 1].header_start == rest[k - 1].data_start + spec_padded_len(rest[k - 1].data_len));
                                }
                            }
                        }
                    }
                }
            }
        }
    }
}

/// An HDU lies in a file of `len` bytes: its header starts at a block
/// boundary and is whole blocks long, and its data ends within the file.
pub open spec fn hdu_in_place(h: HduModel, len: int) -> bool {
    &&& 0 <= h.header_start
    &&& h.header_start % 2880 == 0
    &&& h.header_start < h.data_start
    &&& (h.data_start - h.header_start) % 2880 == 0
    &&& 0 <= h.data_len
    &&& h.data_start + h.data_len <= len
}

/// The layout of a parsed FITS file: the first HDU starts at byte 0 with a
/// `SIMPLE` card, every header is whole blocks from a block boundary, every
/// HDU's data lies in the file, and each HDU after the first starts where
/// the one before ends, after its padded data.
pub proof fn lemma_parse_fits_layout(data: Seq<u8>)
    requires
        data.len() <= usize::MAX,
    ensures
        spec_parse_fits(data) matches Ok(hs) ==> {
            &&& hs[0].header_start == 0
            &&& spec_is_primary(hs[0].cards)
            &&& forall|k: int| 0 <= k < hs.len() ==> hdu_in_place(#[trigger] hs[k], data.len() as int)
            &&& forall|k: int| 0 <= k < hs.len() - 1 ==> #[trigger] hs[k + 1].header_start
                == hs[k].data_start + spec_padded_len(hs[k].data_len)
        },
{
    lemma_hdus_from_layout(data, 0, true);
}

/// A checked product, when it fits, is the product.
proof fn lemma_checked_product_is_product(s: Seq<usize>)
    ensures
        checked_product(s) matches Some(p) ==> p == crate::primary::product(s),
    decreases s.len(),
{
    if s.len() > 0 {
        lemma_checked_product_is_product(s.drop_last());
    }
}

/// The size of ordinary HDU data in closed form: `GCOUNT` times the pixel
/// bytes (`|BITPIX|/8` times the product of the axes) plus `PCOUNT`, when
/// every step of it fits in a `usize`; otherwise the header is invalid.
pub proof fn lemma_plain_data_len_closed(bpv: usize, dims: Seq<usize>, pcount: usize, gcount: usize)
    ensures
        plain_data_len(bpv, dims, pcount, gcount) matches Ok(n)
            ==> n == gcount * (crate::primary::product(dims) * bpv + pcount),
        plain_data_len(bpv, dims, pcount, gcount) is Err
            ==> plain_data_len(bpv, dims, pcount, gcount) == Err::<usize, Error>(Error::InvalidHeader),
{
    lemma_checked_product_is_product(dims);
    lemma_checked_product_nonneg(dims);
    if let Some(total) = checked_product(dims) {
        assert(gcount * (total * bpv) + gcount * pcount == gcount * (total * bpv + pcount)) by (nonlinear_arith);
        assert(total * bpv >= 0) by (nonlinear_arith) requires total >= 0;
        assert(gcount * (total * bpv) >= 0) by (nonlinear_arith) requires total * bpv >= 0;
        assert(gcount * pcount >= 0) by (nonlinear_arith);
        if let Ok(n) = plain_data_len(bpv, dims, pcount, gcount) {
            assert(n as int == gcount * (total * bpv) + gcount * pcount);
        }
    }
}

} // verus!
