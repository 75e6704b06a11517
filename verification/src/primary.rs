//! Primary HDU header parsing and construction.
use vstd::prelude::*;

use crate::block::{padded_byte_len, spec_padded_len};
use crate::error::{Error, Result};
use crate::header::{
    cards_view, copy_cards, find_keyword, first_keyword, indexed_keyword, indexed_keyword_exec,
    kw, kw_pad, spec_validate, validate_required_keywords, Card, CardModel, HduType,
    StandardKeyword,
};
use crate::text::nat_digits;
use crate::value::{Value, ValueModel};

verus! {

/// The BITPIX values that the FITS standard allows.
pub open spec fn is_valid_bitpix(b: i64) -> bool {
    b == 8 || b == 16 || b == 32 || b == 64 || b == -32 || b == -64
}

/// Whether `b` is one of the BITPIX values that the FITS standard allows.
pub fn valid_bitpix(b: i64) -> (r: bool)
    ensures
        r == is_valid_bitpix(b),
{
    b == 8 || b == 16 || b == 32 || b == 64 || b == -32 || b == -64
}

/// The bytes `NAXIS`.
pub open spec fn naxis_prefix() -> Seq<u8> {
    seq![78u8, 65u8, 88u8, 73u8, 83u8]
}

/// The keyword `NAXISn` (cut to 8 bytes).
pub open spec fn naxis_keyword(n: nat) -> Seq<u8> {
    indexed_keyword(naxis_prefix(), n)
}

/// The keyword `NAXISn` (cut to 8 bytes).
pub fn naxis_keyword_exec(n: usize) -> (r: [u8; 8])
    ensures
        r@ == naxis_keyword(n as nat),
{
    let p = [78u8, 65u8, 88u8, 73u8, 83u8];
    assert(p@ =~= naxis_prefix());
    indexed_keyword_exec(&p, n as u64)
}

/// The integer value of the card, or `MissingKeyword(name)`.
pub open spec fn spec_extract_integer(c: CardModel, name: &'static str) -> core::result::Result<int, Error> {
    match c.value {
        Some(ValueModel::Integer(n)) => Ok(n),
        _ => Err(Error::MissingKeyword(name)),
    }
}

/// The integer value of the card, or `MissingKeyword(name)`.
pub fn extract_integer(card: &Card, name: &'static str) -> (r: Result<i64>)
    ensures
        r matches Ok(n) ==> spec_extract_integer(card@, name) == Ok::<int, Error>(n as int),
        r matches Err(e) ==> spec_extract_integer(card@, name) == Err::<int, Error>(e),
{
    match &card.value {
        Some(Value::Integer(n)) => Ok(*n),
        _ => Err(Error::MissingKeyword(name)),
    }
}

/// The integer value of the first card with keyword `k`.
pub open spec fn keyword_integer(cards: Seq<CardModel>, k: Seq<u8>, name: &'static str) -> core::result::Result<int, Error> {
    match first_keyword(cards, k) {
        None => Err(Error::MissingKeyword(name)),
        Some(i) => spec_extract_integer(cards[i], name),
    }
}

/// The dimensions NAXIS1..NAXISk of a primary header.
pub open spec fn primary_dims(cards: Seq<CardModel>, k: nat) -> core::result::Result<Seq<usize>, Error>
    decreases k,
{
    if k == 0 {
        Ok(Seq::empty())
    } else {
        match primary_dims(cards, (k - 1) as nat) {
            Err(e) => Err(e),
            Ok(s) => match keyword_integer(cards, naxis_keyword(k), "NAXISn") {
                Err(e) => Err(e),
                Ok(v) => if v < 0 {
                    Err(Error::InvalidHeader)
                } else {
                    Ok(s.push(v as usize))
                },
            },
        }
    }
}

/// What `parse_primary_header` reads from the cards: BITPIX, NAXIS and the
/// axis lengths.
pub open spec fn spec_parse_primary(cards: Seq<CardModel>) -> core::result::Result<(i64, Seq<usize>), Error> {
    match spec_validate(HduType::Primary, cards) {
        Err(e) => Err(e),
        Ok(_) => match keyword_integer(cards, StandardKeyword::Bitpix.spec_keyword(), "BITPIX") {
            Err(e) => Err(e),
            Ok(bitpix) => if !is_valid_bitpix(bitpix as i64) {
                Err(Error::InvalidBitpix(bitpix as i64))
            } else {
                match keyword_integer(cards, StandardKeyword::Naxis.spec_keyword(), "NAXIS") {
                    Err(e) => Err(e),
                    Ok(naxis) => if naxis < 0 {
                        Err(Error::InvalidHeader)
                    } else {
                        match primary_dims(cards, ((naxis as usize) as nat)) {
                            Err(e) => Err(e),
                            Ok(dims) => Ok((bitpix as i64, dims)),
                        }
                    },
                }
            },
        },
    }
}

/// Parsed primary HDU header.
#[derive(Debug, Clone, PartialEq)]
pub struct PrimaryHeader {
    /// BITPIX value (8, 16, 32, 64, -32, -64).
    pub bitpix: i64,
    /// Number of axes.
    pub naxis: usize,
    /// Dimensions (NAXIS1, NAXIS2, ..., NAXISn).
    pub naxes: Vec<usize>,
    /// All header cards for reference.
    pub cards: Vec<Card>,
}

/// `|BITPIX| / 8`, the bytes of one value, as a `usize`.
pub open spec fn bytes_per_value(bitpix: i64) -> usize {
    ((if bitpix < 0 { -bitpix } else { bitpix as int }) / 8) as usize
}

/// `|BITPIX| / 8`, the bytes of one value, as a `usize`.
pub fn bytes_per_value_exec(bitpix: i64) -> (r: usize)
    ensures
        r == bytes_per_value(bitpix),
{
    let ua: u64 = if bitpix < 0 {
        if bitpix == i64::MIN { 9223372036854775808u64 } else { (-bitpix) as u64 }
    } else {
        bitpix as u64
    };
    (ua / 8) as usize
}

/// The product of the lengths.
pub open spec fn product(s: Seq<usize>) -> int
    decreases s.len(),
{
    if s.len() == 0 {
        1
    } else {
        product(s.drop_last()) * s.last()
    }
}

/// The product of lengths is never negative.
pub proof fn lemma_product_nonneg(s: Seq<usize>)
    ensures
        product(s) >= 0,
    decreases s.len(),
{
    if s.len() > 0 {
        lemma_product_nonneg(s.drop_last());
        assert(product(s.drop_last()) * s.last() >= 0) by (nonlinear_arith)
            requires product(s.drop_last()) >= 0;
    }
}

/// `start` times each prefix product of `s` fits in a `usize`.
pub open spec fn prefix_products_fit(start: int, s: Seq<usize>) -> bool {
    forall|j: int| 0 <= j <= s.len() ==> #[trigger] product(s.subrange(0, j)) * start <= usize::MAX
}

/// `start` times the product of the lengths, computed left to right without
/// overflow.
pub fn scaled_product(start: usize, dims: &[usize]) -> (r: usize)
    requires
        prefix_products_fit(start as int, dims@),
    ensures
        r == product(dims@) * start,
{
    let mut acc: usize = start;
    let mut i: usize = 0;
    assert(dims@.subrange(0, 0) =~= Seq::<usize>::empty());
    while i < dims.len()
        invariant
            i <= dims@.len(),
            prefix_products_fit(start as int, dims@),
            acc == product(dims@.subrange(0, i as int)) * start,
        decreases dims@.len() - i,
    {
        let d = dims[i];
        proof {
            let p = dims@.subrange(0, i as int);
            assert(dims@.subrange(0, i + 1).drop_last() =~= p);
            assert(product(dims@.subrange(0, i + 1)) * start <= usize::MAX);
            assert(product(dims@.subrange(0, i + 1)) * start == (product(p) * start) * d) by (nonlinear_arith)
                requires product(dims@.subrange(0, i + 1)) == product(p) * d;
        }
        acc = acc * d;
        i += 1;
    }
    assert(dims@.subrange(0, dims@.len() as int) =~= dims@);
    acc
}

/// The unpadded data size of a primary HDU whose NAXIS is `naxis`.
pub open spec fn primary_byte_count(bitpix: i64, naxis: usize, naxes: Seq<usize>) -> int {
    if naxis == 0 || naxes.len() == 0 {
        0
    } else {
        product(naxes) * bytes_per_value(bitpix)
    }
}

impl PrimaryHeader {
    /// Compute the number of data bytes: `|BITPIX/8| * NAXIS1 * ... * NAXISn`.
    ///
    /// Returns 0 if NAXIS is 0 or any axis has length 0.
    pub fn data_byte_count(&self) -> (r: usize)
        requires
            self.naxis == 0 || prefix_products_fit(bytes_per_value(self.bitpix) as int, self.naxes@),
        ensures
            r == primary_byte_count(self.bitpix, self.naxis, self.naxes@),
    {
        if self.naxis == 0 || self.naxes.len() == 0 {
            return 0;
        }
        scaled_product(bytes_per_value_exec(self.bitpix), self.naxes.as_slice())
    }

    /// Compute the padded data size (always a multiple of 2880).
    pub fn data_padded_byte_count(&self) -> (r: usize)
        requires
            self.naxis == 0 || prefix_products_fit(bytes_per_value(self.bitpix) as int, self.naxes@),
            spec_padded_len(primary_byte_count(self.bitpix, self.naxis, self.naxes@)) <= usize::MAX,
        ensures
            r == spec_padded_len(primary_byte_count(self.bitpix, self.naxis, self.naxes@)),
    {
        padded_byte_len(self.data_byte_count())
    }
}

/// Once reading the axis lengths fails, it fails the same way for every
/// larger axis count.
pub proof fn lemma_primary_dims_err(cards: Seq<CardModel>, m: nat, n: nat)
    requires
        m <= n,
        primary_dims(cards, m) is Err,
    ensures
        primary_dims(cards, n) == primary_dims(cards, m),
    decreases n - m,
{
    if m < n {
        lemma_primary_dims_err(cards, m, (n - 1) as nat);
    }
}

/// Reading `k` axis lengths gives `k` of them.
pub proof fn lemma_primary_dims_len(cards: Seq<CardModel>, k: nat)
    ensures
        primary_dims(cards, k) matches Ok(s) ==> s.len() == k,
    decreases k,
{
    if k > 0 {
        lemma_primary_dims_len(cards, (k - 1) as nat);
    }
}

/// The integer value of the card with keyword `k` (first such card), or the
/// error that its absence or type gives.
pub fn find_integer(cards: &[Card], k: &[u8; 8], name: &'static str) -> (r: Result<i64>)
    ensures
        r matches Ok(n) ==> keyword_integer(cards_view(cards@), k@, name) == Ok::<int, Error>(n as int),
        r matches Err(e) ==> keyword_integer(cards_view(cards@), k@, name) == Err::<int, Error>(e),
{
    match find_keyword(cards, k) {
        None => Err(Error::MissingKeyword(name)),
        Some(i) => {
            assert(cards_view(cards@)[i as int] == cards@[i as int]@);
            extract_integer(&cards[i], name)
        },
    }
}

/// Parse and validate a primary HDU header from a list of cards.
pub fn parse_primary_header(cards: &[Card]) -> (r: Result<PrimaryHeader>)
    ensures
        r matches Ok(h) ==> spec_parse_primary(cards_view(cards@)) == Ok::<(i64, Seq<usize>), Error>((h.bitpix, h.naxes@))
            && h.naxis == h.naxes@.len()
            && cards_view(h.cards@) == cards_view(cards@),
        r matches Err(e) ==> spec_parse_primary(cards_view(cards@)) == Err::<(i64, Seq<usize>), Error>(e),
{
    let ghost cv = cards_view(cards@);
    match validate_required_keywords(HduType::Primary, cards) {
        Err(e) => return Err(e),
        Ok(_) => {},
    }
    let bitpix = match find_integer(cards, &StandardKeyword::Bitpix.keyword(), "BITPIX") {
        Ok(v) => v,
        Err(e) => return Err(e),
    };
    if !valid_bitpix(bitpix) {
        return Err(Error::InvalidBitpix(bitpix));
    }
    let naxis_val = match find_integer(cards, &StandardKeyword::Naxis.keyword(), "NAXIS") {
        Ok(v) => v,
        Err(e) => return Err(e),
    };
    if naxis_val < 0 {
        return Err(Error::InvalidHeader);
    }
    let naxis = naxis_val as usize;
    let mut naxes: Vec<usize> = Vec::new();
    let mut k: usize = 0;
    while k < naxis
        invariant
            k <= naxis,
            cv == cards_view(cards@),
            primary_dims(cv, k as nat) == Ok::<Seq<usize>, Error>(naxes@),
            spec_validate(HduType::Primary, cv) is Ok,
            keyword_integer(cv, StandardKeyword::Bitpix.spec_keyword(), "BITPIX") == Ok::<int, Error>(bitpix as int),
            is_valid_bitpix(bitpix),
            keyword_integer(cv, StandardKeyword::Naxis.spec_keyword(), "NAXIS") == Ok::<int, Error>(naxis_val as int),
            naxis_val >= 0,
            naxis == naxis_val as usize,
        decreases naxis - k,
    {
        let name = naxis_keyword_exec(k + 1);
        let val = match find_integer(cards, &name, "NAXISn") {
            Ok(v) => v,
            Err(e) => {
                proof { lemma_primary_dims_err(cv, (k + 1) as nat, naxis as nat); }
                return Err(e);
            },
        };
        if val < 0 {
            proof { lemma_primary_dims_err(cv, (k + 1) as nat, naxis as nat); }
            return Err(Error::InvalidHeader);
        }
        naxes.push(val as usize);
        k += 1;
    }
    proof { lemma_primary_dims_len(cv, naxis as nat); }
    Ok(PrimaryHeader { bitpix, naxis, naxes, cards: copy_cards(cards) })
}

/// The cards that `build_primary_header` writes.
pub open spec fn spec_primary_cards(bitpix: i64, naxes: Seq<usize>) -> Seq<CardModel> {
    seq![
        CardModel {
            keyword: StandardKeyword::Simple.spec_keyword(),
            value: Some(ValueModel::Logical(true)),
            comment: Some("conforms to FITS standard"@),
        },
        CardModel {
            keyword: StandardKeyword::Bitpix.spec_keyword(),
            value: Some(ValueModel::Integer(bitpix as int)),
            comment: Some("bits per data value"@),
        },
        CardModel {
            keyword: StandardKeyword::Naxis.spec_keyword(),
            value: Some(ValueModel::Integer((naxes.len() as i64) as int)),
            comment: Some("number of axes"@),
        },
    ] + Seq::new(naxes.len(), |i: int| CardModel {
        keyword: naxis_keyword((i + 1) as nat),
        value: Some(ValueModel::Integer((naxes[i] as i64) as int)),
        comment: None,
    })
}

/// A card with a keyword, an integer value and an optional comment.
fn integer_card(keyword: [u8; 8], v: i64, comment: Option<String>) -> (r: Card)
    ensures
        r@ == (CardModel {
            keyword: keyword@,
            value: Some(ValueModel::Integer(v as int)),
            comment: match comment { Some(c) => Some(c@), None => None },
        }),
{
    Card { keyword, value: Some(Value::Integer(v)), comment }
}

/// Build the minimal set of cards for a primary HDU header.
pub fn build_primary_header(bitpix: i64, naxes: &[usize]) -> (r: Result<Vec<Card>>)
    ensures
        r is Err <==> !is_valid_bitpix(bitpix),
        r matches Err(e) ==> e == Error::InvalidBitpix(bitpix),
        r matches Ok(cs) ==> cards_view(cs@) == spec_primary_cards(bitpix, naxes@),
{
    if !valid_bitpix(bitpix) {
        return Err(Error::InvalidBitpix(bitpix));
    }
    let mut cards: Vec<Card> = Vec::new();
    let simple = StandardKeyword::Simple.keyword();
    cards.push(Card {
        keyword: simple,
        value: Some(Value::Logical(true)),
        comment: Some("conforms to FITS standard".to_owned()),
    });
    cards.push(integer_card(StandardKeyword::Bitpix.keyword(), bitpix, Some("bits per data value".to_owned())));
    cards.push(integer_card(StandardKeyword::Naxis.keyword(), naxes.len() as i64, Some("number of axes".to_owned())));
    let ghost target = spec_primary_cards(bitpix, naxes@);
    let mut i: usize = 0;
    while i < naxes.len()
        invariant
            i <= naxes@.len(),
            target == spec_primary_cards(bitpix, naxes@),
            cards@.len() == 3 + i,
            forall|j: int| 0 <= j < 3 + i ==> #[trigger] cards@[j]@ == target[j],
        decreases naxes@.len() - i,
    {
        cards.push(integer_card(naxis_keyword_exec(i + 1), naxes[i] as i64, None));
        i += 1;
    }
    assert(cards_view(cards@) =~= target);
    Ok(cards)
}

/// The decimal digits of numbers below 1000.
pub proof fn lemma_nat_digits_small(n: nat)
    requires
        n < 1000,
    ensures
        n < 10 ==> nat_digits(n) == seq![(48 + n) as u8],
        10 <= n < 100 ==> nat_digits(n) == seq![(48 + n / 10) as u8, (48 + n % 10) as u8],
        100 <= n ==> nat_digits(n) == seq![(48 + n / 100) as u8, (48 + (n / 10) % 10) as u8, (48 + n % 10) as u8],
{
    if n >= 10 {
        assert(nat_digits(n) == nat_digits(n / 10).push((48 + n % 10) as u8));
        if n >= 100 {
            let q = n / 10;
            assert(q >= 10);
            assert(nat_digits(q) == nat_digits(q / 10).push((48 + q % 10) as u8));
            assert(q / 10 < 10);
            assert(q / 10 == n / 100);
            assert(nat_digits(n) =~= seq![(48 + n / 100) as u8, (48 + (n / 10) % 10) as u8, (48 + n % 10) as u8]);
        } else {
            assert(nat_digits(n) =~= seq![(48 + n / 10) as u8, (48 + n % 10) as u8]);
        }
    }
}

/// Distinct axis numbers below 1000 give distinct `NAXISn` keywords, none
/// of which is `SIMPLE`, `BITPIX` or `NAXIS`.
pub proof fn lemma_naxis_keyword_distinct(n: nat, m: nat)
    requires
        1 <= n < 1000,
        1 <= m < 1000,
    ensures
        n != m ==> naxis_keyword(n) != naxis_keyword(m),
        naxis_keyword(n) != StandardKeyword::Simple.spec_keyword(),
        naxis_keyword(n) != StandardKeyword::Bitpix.spec_keyword(),
        naxis_keyword(n) != StandardKeyword::Naxis.spec_keyword(),
        naxis_keyword(n) != StandardKeyword::Xtension.spec_keyword(),
        naxis_keyword(n) != StandardKeyword::Pcount.spec_keyword(),
        naxis_keyword(n) != StandardKeyword::Gcount.spec_keyword(),
        naxis_keyword(n).len() == 8,
{
    lemma_nat_digits_small(n);
    lemma_nat_digits_small(m);
    let a = naxis_keyword(n);
    let b = naxis_keyword(m);
    assert(a[0] == 78u8);
    assert(a[5] != 32u8);
    assert(StandardKeyword::Naxis.spec_keyword()[5] == 32u8);
    assert(StandardKeyword::Simple.spec_keyword()[0] == 83u8);
    assert(StandardKeyword::Bitpix.spec_keyword()[0] == 66u8);
    assert(StandardKeyword::Xtension.spec_keyword()[0] == 88u8);
    assert(StandardKeyword::Pcount.spec_keyword()[0] == 80u8);
    assert(StandardKeyword::Gcount.spec_keyword()[0] == 71u8);
    if n != m {
        if n < 10 && m < 10 {
            assert(a[5] != b[5]);
        } else if n < 10 {
            assert(a[6] == 32u8 && b[6] != 32u8);
        } else if m < 10 {
            assert(b[6] == 32u8 && a[6] != 32u8);
        } else if n < 100 && m < 100 {
            if n / 10 != m / 10 {
                assert(a[5] != b[5]);
            } else {
                assert(n % 10 != m % 10);
                assert(a[6] != b[6]);
            }
        } else if n < 100 {
            assert(a[7] == 32u8 && b[7] != 32u8);
        } else if m < 100 {
            assert(b[7] == 32u8 && a[7] != 32u8);
        } else {
            if n / 100 != m / 100 {
                assert(a[5] != b[5]);
            } else if (n / 10) % 10 != (m / 10) % 10 {
                assert(a[6] != b[6]);
            } else {
                assert(n % 10 != m % 10) by (nonlinear_arith)
                    requires n != m, n / 100 == m / 100, (n / 10) % 10 == (m / 10) % 10, n < 1000, m < 1000;
                assert(a[7] != b[7]);
            }
        }
    }
}

/// In the built cards, the first card with keyword `NAXISk` is the card of
/// axis `k`.
proof fn lemma_built_axis_lookup(bitpix: i64, naxes: Seq<usize>, k: nat)
    requires
        1 <= k <= naxes.len(),
        naxes.len() < 1000,
    ensures
        first_keyword(spec_primary_cards(bitpix, naxes), naxis_keyword(k)) == Some(2 + k as int),
{
    let cards = spec_primary_cards(bitpix, naxes);
    crate::header::lemma_first_keyword(cards, naxis_keyword(k), 0);
    lemma_naxis_keyword_distinct(k, k);
    assert(cards[(2 + k) as int].keyword == naxis_keyword(k));
    assert forall|m: int| 0 <= m < 2 + k implies cards[m].keyword != naxis_keyword(k) by {
        if m >= 3 {
            lemma_naxis_keyword_distinct(k, (m - 2) as nat);
        }
    }
    match first_keyword(cards, naxis_keyword(k)) {
        Some(j) => {
            assert(j <= 2 + k);
            assert(j == 2 + k);
        },
        None => {
            assert(false);
        },
    }
}

/// Building a primary header and parsing it back gives the BITPIX and axis
/// lengths that went in, for a valid BITPIX, fewer than 1000 axes and axis
/// lengths that fit in an `i64`.
pub proof fn lemma_primary_roundtrip(bitpix: i64, naxes: Seq<usize>)
    requires
        is_valid_bitpix(bitpix),
        naxes.len() < 1000,
        forall|i: int| 0 <= i < naxes.len() ==> naxes[i] <= i64::MAX,
    ensures
        spec_parse_primary(spec_primary_cards(bitpix, naxes)) == Ok::<(i64, Seq<usize>), Error>((bitpix, naxes)),
{
    let cards = spec_primary_cards(bitpix, naxes);
    let simple = StandardKeyword::Simple.spec_keyword();
    let bp = StandardKeyword::Bitpix.spec_keyword();
    let nx = StandardKeyword::Naxis.spec_keyword();
    assert(simple[0] != bp[0] && simple[0] != nx[0] && bp[0] != nx[0]);
    assert(spec_validate(HduType::Primary, cards) is Ok);
    crate::header::lemma_first_keyword(cards, bp, 0);
    crate::header::lemma_first_keyword(cards, nx, 0);
    assert(cards[1].keyword == bp);
    assert(cards[2].keyword == nx);
    match first_keyword(cards, bp) {
        Some(j) => { assert(j == 1); },
        None => { assert(false); },
    }
    match first_keyword(cards, nx) {
        Some(j) => { assert(j == 2); },
        None => { assert(false); },
    }
    assert(keyword_integer(cards, bp, "BITPIX") == Ok::<int, Error>(bitpix as int));
    assert(keyword_integer(cards, nx, "NAXIS") == Ok::<int, Error>(naxes.len() as int));
    lemma_built_dims(bitpix, naxes, naxes.len());
    assert(naxes.subrange(0, naxes.len() as int) =~= naxes);
}

/// Reading the first `k` axis lengths of the built cards gives the first `k`
/// lengths that went in.
proof fn lemma_built_dims(bitpix: i64, naxes: Seq<usize>, k: nat)
    requires
        k <= naxes.len(),
        naxes.len() < 1000,
        forall|i: int| 0 <= i < naxes.len() ==> naxes[i] <= i64::MAX,
    ensures
        primary_dims(spec_primary_cards(bitpix, naxes), k) == Ok::<Seq<usize>, Error>(naxes.subrange(0, k as int)),
    decreases k,
{
    if k > 0 {
        lemma_built_dims(bitpix, naxes, (k - 1) as nat);
        lemma_built_axis_lookup(bitpix, naxes, k);
        let cards = spec_primary_cards(bitpix, naxes);
        assert(cards[(2 + k) as int].value == Some(ValueModel::Integer((naxes[k - 1] as i64) as int)));
        assert(naxes.subrange(0, k as int) =~= naxes.subrange(0, k - 1).push(naxes[k - 1]));
    } else {
        assert(naxes.subrange(0, 0) =~= Seq::<usize>::empty());
    }
}

} // verus!
