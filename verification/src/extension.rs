//! Extension HDU header parsing and construction (IMAGE, TABLE, BINTABLE).
use vstd::prelude::*;

use crate::block::{padded_byte_len, spec_padded_len};
use crate::error::{Error, Result};
use crate::header::{
    cards_view, copy_cards, find_keyword, first_keyword, kw_pad, spec_validate,
    validate_required_keywords, Card, CardModel, HduType, StandardKeyword,
};
use crate::primary::{
    bytes_per_value, bytes_per_value_exec, extract_integer, keyword_integer, naxis_keyword,
    naxis_keyword_exec, prefix_products_fit, product, scaled_product, spec_extract_integer,
};
use crate::text::{trim, trimmed_equals};
use crate::value::{Value, ValueModel};

verus! {

/// The type of FITS extension, determined by the XTENSION keyword value.
#[derive(Debug, Clone, Copy, PartialEq, Eq)]
pub enum ExtensionType {
    /// XTENSION = 'IMAGE'.
    Image,
    /// XTENSION = 'TABLE'.
    AsciiTable,
    /// XTENSION = 'BINTABLE'.
    BinaryTable,
}

impl ExtensionType {
    /// The XTENSION value naming this type.
    pub open spec fn spec_name(self) -> Seq<char> {
        match self {
            ExtensionType::Image => "IMAGE"@,
            ExtensionType::AsciiTable => "TABLE"@,
            ExtensionType::BinaryTable => "BINTABLE"@,
        }
    }

    /// The HDU type whose mandatory keywords this extension must carry.
    pub open spec fn spec_hdu_type(self) -> HduType {
        match self {
            ExtensionType::Image => HduType::Image,
            ExtensionType::AsciiTable => HduType::AsciiTable,
            ExtensionType::BinaryTable => HduType::BinaryTable,
        }
    }

    /// The XTENSION value naming this type.
    pub fn as_str(&self) -> (r: &'static str)
        ensures
            r@ == self.spec_name(),
    {
        match self {
            ExtensionType::Image => "IMAGE",
            ExtensionType::AsciiTable => "TABLE",
            ExtensionType::BinaryTable => "BINTABLE",
        }
    }

    /// The HDU type whose mandatory keywords this extension must carry.
    pub fn hdu_type(&self) -> (r: HduType)
        ensures
            r == self.spec_hdu_type(),
    {
        match self {
            ExtensionType::Image => HduType::Image,
            ExtensionType::AsciiTable => HduType::AsciiTable,
            ExtensionType::BinaryTable => HduType::BinaryTable,
        }
    }
}

/// A parsed FITS extension header with all mandatory keyword values extracted.
#[derive(Debug, Clone, PartialEq)]
pub struct ExtensionHeader {
    /// The extension type (IMAGE, TABLE, or BINTABLE).
    pub xtension: ExtensionType,
    /// Bits per pixel / data value.
    pub bitpix: i64,
    /// Number of axes.
    pub naxis: usize,
    /// Axis dimensions (NAXIS1, NAXIS2, ...).
    pub naxes: Vec<usize>,
    /// Parameter count (heap size for binary tables).
    pub pcount: usize,
    /// Group count (always 1 for standard extensions).
    pub gcount: usize,
    /// All header cards from this extension.
    pub cards: Vec<Card>,
}

/// The unpadded data size of an extension: `|BITPIX|/8 * NAXIS1 * ... *
/// NAXISn + PCOUNT`, or 0 without axes.
pub open spec fn extension_byte_count(bitpix: i64, naxis: usize, naxes: Seq<usize>, pcount: usize) -> int {
    if naxis == 0 || naxes.len() == 0 {
        0
    } else {
        bytes_per_value(bitpix) * product(naxes) + pcount
    }
}

impl ExtensionHeader {
    /// Compute the number of data bytes described by this extension header.
    ///
    /// Per the FITS standard the data size is
    /// `|BITPIX|/8 * NAXIS1 * NAXIS2 * ... * NAXISn + PCOUNT`; if NAXIS is 0
    /// the data size is 0 (no data follows).
    pub fn data_byte_count(&self) -> (r: usize)
        requires
            self.naxis == 0 || (prefix_products_fit(1, self.naxes@)
                && bytes_per_value(self.bitpix) * product(self.naxes@) + self.pcount <= usize::MAX),
        ensures
            r == extension_byte_count(self.bitpix, self.naxis, self.naxes@, self.pcount),
    {
        if self.naxis == 0 || self.naxes.len() == 0 {
            return 0;
        }
        let bytes_per = bytes_per_value_exec(self.bitpix);
        let prod = scaled_product(1, self.naxes.as_slice());
        proof {
            crate::primary::lemma_product_nonneg(self.naxes@);
            assert(bytes_per * prod <= bytes_per * prod + self.pcount);
        }
        bytes_per * prod + self.pcount
    }

    /// Compute the padded data byte count, rounded up to the next multiple
    /// of the FITS block size (2880 bytes).
    pub fn data_padded_byte_count(&self) -> (r: usize)
        requires
            self.naxis == 0 || (prefix_products_fit(1, self.naxes@)
                && bytes_per_value(self.bitpix) * product(self.naxes@) + self.pcount <= usize::MAX),
            spec_padded_len(extension_byte_count(self.bitpix, self.naxis, self.naxes@, self.pcount)) <= usize::MAX,
        ensures
            r == spec_padded_len(extension_byte_count(self.bitpix, self.naxis, self.naxes@, self.pcount)),
    {
        padded_byte_len(self.data_byte_count())
    }
}

/// The nonnegative integer value of the card as a `usize`.
pub open spec fn spec_extract_usize(c: CardModel, name: &'static str) -> core::result::Result<usize, Error> {
    match spec_extract_integer(c, name) {
        Err(e) => Err(e),
        Ok(n) => if n < 0 {
            Err(Error::InvalidValue)
        } else {
            Ok(n as usize)
        },
    }
}

/// The nonnegative integer value of the card as a `usize`.
fn extract_usize(card: &Card, name: &'static str) -> (r: Result<usize>)
    ensures
        r matches Ok(n) ==> spec_extract_usize(card@, name) == Ok::<usize, Error>(n),
        r matches Err(e) ==> spec_extract_usize(card@, name) == Err::<usize, Error>(e),
{
    let n = match extract_integer(card, name) {
        Ok(n) => n,
        Err(e) => return Err(e),
    };
    if n < 0 {
        return Err(Error::InvalidValue);
    }
    Ok(n as usize)
}

/// The `usize` value of the first card with keyword `k`, or `missing` when
/// there is none.
pub open spec fn keyword_usize(cards: Seq<CardModel>, k: Seq<u8>, name: &'static str, missing: Error) -> core::result::Result<usize, Error> {
    match first_keyword(cards, k) {
        None => Err(missing),
        Some(i) => spec_extract_usize(cards[i], name),
    }
}

/// The `usize` value of the first card with keyword `k`, or `missing` when
/// there is none.
fn find_usize(cards: &[Card], k: &[u8; 8], name: &'static str, missing: Error) -> (r: Result<usize>)
    ensures
        r matches Ok(n) ==> keyword_usize(cards_view(cards@), k@, name, missing) == Ok::<usize, Error>(n),
        r matches Err(e) ==> keyword_usize(cards_view(cards@), k@, name, missing) == Err::<usize, Error>(e),
{
    match find_keyword(cards, k) {
        None => Err(missing),
        Some(i) => {
            assert(cards_view(cards@)[i as int] == cards@[i as int]@);
            extract_usize(&cards[i], name)
        },
    }
}

/// The extension type that the first card names.
pub open spec fn spec_extension_type(cards: Seq<CardModel>) -> core::result::Result<ExtensionType, Error> {
    if cards.len() == 0 || cards[0].keyword != StandardKeyword::Xtension.spec_keyword() {
        Err(Error::MissingKeyword("XTENSION"))
    } else {
        match cards[0].value {
            Some(ValueModel::Str(s)) => if trim(s) == "IMAGE"@ {
                Ok(ExtensionType::Image)
            } else if trim(s) == "TABLE"@ {
                Ok(ExtensionType::AsciiTable)
            } else if trim(s) == "BINTABLE"@ {
                Ok(ExtensionType::BinaryTable)
            } else {
                Err(Error::UnsupportedExtension)
            },
            _ => Err(Error::UnsupportedExtension),
        }
    }
}

/// Parse an XTENSION keyword value and determine the extension type.
fn parse_extension_type(cards: &[Card]) -> (r: Result<ExtensionType>)
    ensures
        r matches Ok(t) ==> spec_extension_type(cards_view(cards@)) == Ok::<ExtensionType, Error>(t),
        r matches Err(e) ==> spec_extension_type(cards_view(cards@)) == Err::<ExtensionType, Error>(e),
{
    if cards.len() == 0 {
        return Err(Error::MissingKeyword("XTENSION"));
    }
    let first = &cards[0];
    assert(cards_view(cards@)[0] == cards@[0]@);
    if !crate::header::keyword_eq(&first.keyword, &StandardKeyword::Xtension.keyword()) {
        return Err(Error::MissingKeyword("XTENSION"));
    }
    match &first.value {
        Some(Value::String(s)) => {
            if trimmed_equals(s.as_str(), "IMAGE") {
                Ok(ExtensionType::Image)
            } else if trimmed_equals(s.as_str(), "TABLE") {
                Ok(ExtensionType::AsciiTable)
            } else if trimmed_equals(s.as_str(), "BINTABLE") {
                Ok(ExtensionType::BinaryTable)
            } else {
                Err(Error::UnsupportedExtension)
            }
        },
        _ => Err(Error::UnsupportedExtension),
    }
}

/// The dimensions NAXIS1..NAXISk of an extension header.
pub open spec fn extension_dims(cards: Seq<CardModel>, k: nat) -> core::result::Result<Seq<usize>, Error>
    decreases k,
{
    if k == 0 {
        Ok(Seq::empty())
    } else {
        match extension_dims(cards, (k - 1) as nat) {
            Err(e) => Err(e),
            Ok(s) => match keyword_usize(cards, naxis_keyword(k), "NAXISn", Error::InvalidHeader) {
                Err(e) => Err(e),
                Ok(v) => Ok(s.push(v)),
            },
        }
    }
}

/// Once reading the axis lengths fails, it fails the same way for every
/// larger axis count.
pub proof fn lemma_extension_dims_err(cards: Seq<CardModel>, m: nat, n: nat)
    requires
        m <= n,
        extension_dims(cards, m) is Err,
    ensures
        extension_dims(cards, n) == extension_dims(cards, m),
    decreases n - m,
{
    if m < n {
        lemma_extension_dims_err(cards, m, (n - 1) as nat);
    }
}

/// Reading `k` axis lengths gives `k` of them.
pub proof fn lemma_extension_dims_len(cards: Seq<CardModel>, k: nat)
    ensures
        extension_dims(cards, k) matches Ok(s) ==> s.len() == k,
    decreases k,
{
    if k > 0 {
        lemma_extension_dims_len(cards, (k - 1) as nat);
    }
}

/// The values that `parse_extension_header` reads: the type, BITPIX, the
/// axis lengths, PCOUNT and GCOUNT.
pub struct ExtensionModel {
    pub xtension: ExtensionType,
    pub bitpix: i64,
    pub naxes: Seq<usize>,
    pub pcount: usize,
    pub gcount: usize,
}

/// What `parse_extension_header` reads from the cards.
pub open spec fn spec_parse_extension(cards: Seq<CardModel>) -> core::result::Result<ExtensionModel, Error> {
    match spec_extension_type(cards) {
        Err(e) => Err(e),
        Ok(t) => match spec_validate(t.spec_hdu_type(), cards) {
            Err(e) => Err(e),
            Ok(_) => match keyword_integer(cards, StandardKeyword::Bitpix.spec_keyword(), "BITPIX") {
                Err(e) => Err(e),
                Ok(bitpix) => match keyword_usize(cards, StandardKeyword::Naxis.spec_keyword(), "NAXIS", Error::MissingKeyword("NAXIS")) {
                    Err(e) => Err(e),
                    Ok(naxis) => match extension_dims(cards, naxis as nat) {
                        Err(e) => Err(e),
                        Ok(dims) => match keyword_usize(cards, StandardKeyword::Pcount.spec_keyword(), "PCOUNT", Error::MissingKeyword("PCOUNT")) {
                            Err(e) => Err(e),
                            Ok(pcount) => match keyword_usize(cards, StandardKeyword::Gcount.spec_keyword(), "GCOUNT", Error::MissingKeyword("GCOUNT")) {
                                Err(e) => Err(e),
                                Ok(gcount) => Ok(ExtensionModel {
                                    xtension: t,
                                    bitpix: bitpix as i64,
                                    naxes: dims,
                                    pcount,
                                    gcount,
                                }),
                            },
                        },
                    },
                },
            },
        },
    }
}

/// The values that a parsed extension header holds.
pub open spec fn extension_model(h: ExtensionHeader) -> ExtensionModel {
    ExtensionModel {
        xtension: h.xtension,
        bitpix: h.bitpix,
        naxes: h.naxes@,
        pcount: h.pcount,
        gcount: h.gcount,
    }
}

/// Parse an extension header from a slice of cards.
///
/// Reads the XTENSION keyword to determine the extension type, then extracts
/// all shared mandatory keywords (BITPIX, NAXIS, NAXISn, PCOUNT, GCOUNT) and
/// validates the header against the FITS standard.
pub fn parse_extension_header(cards: &[Card]) -> (r: Result<ExtensionHeader>)
    ensures
        r matches Ok(h) ==> spec_parse_extension(cards_view(cards@)) == Ok::<ExtensionModel, Error>(extension_model(h))
            && h.naxis == h.naxes@.len()
            && cards_view(h.cards@) == cards_view(cards@),
        r matches Err(e) ==> spec_parse_extension(cards_view(cards@)) == Err::<ExtensionModel, Error>(e),
{
    let ghost cv = cards_view(cards@);
    let ext_type = match parse_extension_type(cards) {
        Ok(t) => t,
        Err(e) => return Err(e),
    };
    match validate_required_keywords(ext_type.hdu_type(), cards) {
        Err(e) => return Err(e),
        Ok(_) => {},
    }
    let bitpix = match crate::primary::find_integer(cards, &StandardKeyword::Bitpix.keyword(), "BITPIX") {
        Ok(v) => v,
        Err(e) => return Err(e),
    };
    let naxis = match find_usize(cards, &StandardKeyword::Naxis.keyword(), "NAXIS", Error::MissingKeyword("NAXIS")) {
        Ok(v) => v,
        Err(e) => return Err(e),
    };
    let mut naxes: Vec<usize> = Vec::new();
    let mut k: usize = 0;
    while k < naxis
        invariant
            k <= naxis,
            cv == cards_view(cards@),
            extension_dims(cv, k as nat) == Ok::<Seq<usize>, Error>(naxes@),
            spec_extension_type(cv) == Ok::<ExtensionType, Error>(ext_type),
            spec_validate(ext_type.spec_hdu_type(), cv) is Ok,
            keyword_integer(cv, StandardKeyword::Bitpix.spec_keyword(), "BITPIX") == Ok::<int, Error>(bitpix as int),
            keyword_usize(cv, StandardKeyword::Naxis.spec_keyword(), "NAXIS", Error::MissingKeyword("NAXIS")) == Ok::<usize, Error>(naxis),
        decreases naxis - k,
    {
        let name = naxis_keyword_exec(k + 1);
        let val = match find_usize(cards, &name, "NAXISn", Error::InvalidHeader) {
            Ok(v) => v,
            Err(e) => {
                proof { lemma_extension_dims_err(cv, (k + 1) as nat, naxis as nat); }
                return Err(e);
            },
        };
        naxes.push(val);
        k += 1;
    }
    let pcount = match find_usize(cards, &StandardKeyword::Pcount.keyword(), "PCOUNT", Error::MissingKeyword("PCOUNT")) {
        Ok(v) => v,
        Err(e) => return Err(e),
    };
    let gcount = match find_usize(cards, &StandardKeyword::Gcount.keyword(), "GCOUNT", Error::MissingKeyword("GCOUNT")) {
        Ok(v) => v,
        Err(e) => return Err(e),
    };
    proof { lemma_extension_dims_len(cv, naxis as nat); }
    Ok(ExtensionHeader {
        xtension: ext_type,
        bitpix,
        naxis,
        naxes,
        pcount,
        gcount,
        cards: copy_cards(cards),
    })
}

/// The cards that `build_extension_header` writes.
pub open spec fn spec_extension_cards(
    t: ExtensionType,
    bitpix: i64,
    naxes: Seq<usize>,
    pcount: usize,
    gcount: usize,
) -> Seq<CardModel> {
    seq![
        CardModel {
            keyword: StandardKeyword::Xtension.spec_keyword(),
            value: Some(ValueModel::Str(t.spec_name())),
            comment: None,
        },
        CardModel {
            keyword: StandardKeyword::Bitpix.spec_keyword(),
            value: Some(ValueModel::Integer(bitpix as int)),
            comment: None,
        },
        CardModel {
            keyword: StandardKeyword::Naxis.spec_keyword(),
            value: Some(ValueModel::Integer((naxes.len() as i64) as int)),
            comment: None,
        },
    ] + Seq::new(naxes.len(), |i: int| CardModel {
        keyword: naxis_keyword((i + 1) as nat),
        value: Some(ValueModel::Integer((naxes[i] as i64) as int)),
        comment: None,
    }) + seq![
        CardModel {
            keyword: StandardKeyword::Pcount.spec_keyword(),
            value: Some(ValueModel::Integer((pcount as i64) as int)),
            comment: None,
        },
        CardModel {
            keyword: StandardKeyword::Gcount.spec_keyword(),
            value: Some(ValueModel::Integer((gcount as i64) as int)),
            comment: None,
        },
    ]
}

/// A card with a keyword and an integer value.
fn integer_card(keyword: [u8; 8], v: i64) -> (r: Card)
    ensures
        r@ == (CardModel { keyword: keyword@, value: Some(ValueModel::Integer(v as int)), comment: None }),
{
    Card { keyword, value: Some(Value::Integer(v)), comment: None }
}

/// Build a sequence of cards for an extension header.
///
/// Creates the mandatory keywords in the order required by the FITS standard:
/// XTENSION, BITPIX, NAXIS, NAXIS1..NAXISn, PCOUNT, GCOUNT.
pub fn build_extension_header(
    ext_type: ExtensionType,
    bitpix: i64,
    naxes: &[usize],
    pcount: usize,
    gcount: usize,
) -> (r: Result<Vec<Card>>)
    ensures
        r matches Ok(cs) && cards_view(cs@) == spec_extension_cards(ext_type, bitpix, naxes@, pcount, gcount),
{
    let ghost target = spec_extension_cards(ext_type, bitpix, naxes@, pcount, gcount);
    let mut cards: Vec<Card> = Vec::new();
    let name = ext_type.as_str().to_owned();
    cards.push(Card {
        keyword: StandardKeyword::Xtension.keyword(),
        value: Some(Value::String(name)),
        comment: None,
    });
    cards.push(integer_card(StandardKeyword::Bitpix.keyword(), bitpix));
    cards.push(integer_card(StandardKeyword::Naxis.keyword(), naxes.len() as i64));
    let mut i: usize = 0;
    while i < naxes.len()
        invariant
            i <= naxes@.len(),
            target == spec_extension_cards(ext_type, bitpix, naxes@, pcount, gcount),
            cards@.len() == 3 + i,
            forall|j: int| 0 <= j < 3 + i ==> #[trigger] cards@[j]@ == target[j],
        decreases naxes@.len() - i,
    {
        cards.push(integer_card(naxis_keyword_exec(i + 1), naxes[i] as i64));
        i += 1;
    }
    cards.push(integer_card(StandardKeyword::Pcount.keyword(), pcount as i64));
    cards.push(integer_card(StandardKeyword::Gcount.keyword(), gcount as i64));
    assert(cards_view(cards@) =~= target);
    Ok(cards)
}

/// In the built cards, the first card with the keyword of axis `k` is that
/// axis's card.
proof fn lemma_built_extension_axis(t: ExtensionType, bitpix: i64, naxes: Seq<usize>, pcount: usize, gcount: usize, k: nat)
    requires
        1 <= k <= naxes.len(),
        naxes.len() < 1000,
    ensures
        first_keyword(spec_extension_cards(t, bitpix, naxes, pcount, gcount), naxis_keyword(k)) == Some((2 + k) as int),
{
    let cards = spec_extension_cards(t, bitpix, naxes, pcount, gcount);
    crate::header::lemma_first_keyword(cards, naxis_keyword(k), 0);
    crate::primary::lemma_naxis_keyword_distinct(k, k);
    assert(cards[(2 + k) as int].keyword == naxis_keyword(k));
    assert forall|m: int| 0 <= m < 2 + k implies cards[m].keyword != naxis_keyword(k) by {
        if m >= 3 {
            crate::primary::lemma_naxis_keyword_distinct(k, (m - 2) as nat);
        }
    }
    match first_keyword(cards, naxis_keyword(k)) {
        Some(j) => { assert(j == 2 + k); },
        None => { assert(false); },
    }
}

/// Reading the first `k` axis lengths of the built cards gives the first `k`
/// lengths that went in.
proof fn lemma_built_extension_dims(t: ExtensionType, bitpix: i64, naxes: Seq<usize>, pcount: usize, gcount: usize, k: nat)
    requires
        k <= naxes.len(),
        naxes.len() < 1000,
        forall|i: int| 0 <= i < naxes.len() ==> naxes[i] <= i64::MAX,
    ensures
        extension_dims(spec_extension_cards(t, bitpix, naxes, pcount, gcount), k) == Ok::<Seq<usize>, Error>(naxes.subrange(0, k as int)),
    decreases k,
{
    if k > 0 {
        lemma_built_extension_dims(t, bitpix, naxes, pcount, gcount, (k - 1) as nat);
        lemma_built_extension_axis(t, bitpix, naxes, pcount, gcount, k);
        let cards = spec_extension_cards(t, bitpix, naxes, pcount, gcount);
        assert(cards[(2 + k) as int].value == Some(ValueModel::Integer((naxes[k - 1] as i64) as int)));
        assert(naxes.subrange(0, k as int) =~= naxes.subrange(0, k - 1).push(naxes[k - 1]));
    } else {
        assert(naxes.subrange(0, 0) =~= Seq::<usize>::empty());
    }
}

/// In the built cards, the first card with keyword `k` is card `at`, when no
/// earlier card carries it.
proof fn lemma_built_lookup(cards: Seq<CardModel>, k: Seq<u8>, at: int)
    requires
        0 <= at < cards.len(),
        cards[at].keyword == k,
        forall|m: int| 0 <= m < at ==> cards[m].keyword != k,
    ensures
        first_keyword(cards, k) == Some(at),
{
    crate::header::lemma_first_keyword(cards, k, 0);
    match first_keyword(cards, k) {
        Some(j) => { assert(j == at); },
        None => { assert(false); },
    }
}

/// Building an IMAGE extension header and parsing it back gives the values
/// that went in, for fewer than 1000 axes and for axis lengths, PCOUNT and
/// GCOUNT that fit in an `i64`.
pub proof fn lemma_image_extension_roundtrip(bitpix: i64, naxes: Seq<usize>, pcount: usize, gcount: usize)
    requires
        naxes.len() < 1000,
        forall|i: int| 0 <= i < naxes.len() ==> naxes[i] <= i64::MAX,
        pcount <= i64::MAX,
        gcount <= i64::MAX,
    ensures
        spec_parse_extension(spec_extension_cards(ExtensionType::Image, bitpix, naxes, pcount, gcount))
            == Ok::<ExtensionModel, Error>(ExtensionModel {
                xtension: ExtensionType::Image,
                bitpix,
                naxes,
                pcount,
                gcount,
            }),
{
    let t = ExtensionType::Image;
    let cards = spec_extension_cards(t, bitpix, naxes, pcount, gcount);
    let n = naxes.len() as int;
    reveal_strlit("IMAGE");
    reveal_strlit("TABLE");
    reveal_strlit("BINTABLE");
    let name = "IMAGE"@;
    assert(!crate::text::is_ws(name.last()));
    assert(!crate::text::is_ws(name[0]));
    assert(trim(name) == name);
    assert(trim(name) != "TABLE"@ || true);
    let xt = StandardKeyword::Xtension.spec_keyword();
    let bp = StandardKeyword::Bitpix.spec_keyword();
    let nx = StandardKeyword::Naxis.spec_keyword();
    let pc = StandardKeyword::Pcount.spec_keyword();
    let gc = StandardKeyword::Gcount.spec_keyword();
    assert(xt[0] == 88u8 && bp[0] == 66u8 && nx[0] == 78u8 && pc[0] == 80u8 && gc[0] == 71u8);
    assert(cards[3 + n].keyword == pc);
    assert(cards[4 + n].keyword == gc);
    assert forall|m: int| 3 <= m < 3 + n implies cards[m].keyword != pc && cards[m].keyword != gc by {
        crate::primary::lemma_naxis_keyword_distinct((m - 2) as nat, (m - 2) as nat);
    }
    assert(spec_extension_type(cards) == Ok::<ExtensionType, Error>(t));
    assert(spec_validate(HduType::Image, cards) is Ok);
    lemma_built_lookup(cards, bp, 1);
    lemma_built_lookup(cards, nx, 2);
    lemma_built_lookup(cards, pc, 3 + n);
    lemma_built_lookup(cards, gc, 4 + n);
    lemma_built_extension_dims(t, bitpix, naxes, pcount, gcount, naxes.len());
    assert(naxes.subrange(0, n) =~= naxes);
}

} // verus!
