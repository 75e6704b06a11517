//! FITS header card parsing, writing, and validation.
use vstd::prelude::*;
use vstd::utf8::{decode_utf8, encode_utf8, valid_utf8};

use crate::block::{spec_blocks_needed, BLOCK_SIZE, CARDS_PER_BLOCK, CARD_SIZE, HEADER_PAD_BYTE};
use crate::error::{Error, Result};
use crate::text::{lemma_text_then_spaces, trimmed_equals, nat_digits, u64_decimal, chars_of, str_from_utf8, string_from_chars, trim, trim_bounds, trim_end, trim_end_index};
use crate::value::{
    comment_at, comment_of, comment_of_exec, exact_string, find_sep, format_value, lemma_find_sep_at,
    lemma_integer_roundtrip, lemma_logical_roundtrip, lemma_scalar_field, lemma_string_roundtrip,
    lemma_string_scan, lemma_unquoted, parse_value, quote_close, quoted_field, scalar_text,
    scalar_value, scan_quoted, spaces, spec_format_value, spec_parse_value, value_part, Value, ValueModel,
};

verus! {

// ── Types ──

/// A parsed FITS header card (one 80-byte keyword record).
#[derive(Debug, Clone, PartialEq)]
pub struct Card {
    /// The 8-byte keyword name, ASCII, left-justified, space-padded.
    pub keyword: [u8; 8],
    /// The parsed value, if this card has a value indicator (`= ` in bytes 8..10).
    pub value: Option<Value>,
    /// An optional comment string.
    pub comment: Option<String>,
}

/// The mathematical content of a [`Card`].
pub struct CardModel {
    pub keyword: Seq<u8>,
    pub value: Option<ValueModel>,
    pub comment: Option<Seq<char>>,
}

/// The content of an optional value.
pub open spec fn opt_value_view(v: Option<Value>) -> Option<ValueModel> {
    match v {
        Some(x) => Some(x@),
        None => None,
    }
}

/// The content of an optional string.
pub open spec fn opt_string_view(s: Option<String>) -> Option<Seq<char>> {
    match s {
        Some(x) => Some(x@),
        None => None,
    }
}

impl View for Card {
    type V = CardModel;

    open spec fn view(&self) -> CardModel {
        CardModel {
            keyword: self.keyword@,
            value: opt_value_view(self.value),
            comment: opt_string_view(self.comment),
        }
    }
}

/// The contents of a sequence of cards.
pub open spec fn cards_view(cards: Seq<Card>) -> Seq<CardModel> {
    Seq::new(cards.len(), |i: int| cards[i]@)
}

/// A keyword name padded with spaces to 8 bytes (cut to 8 when longer).
pub open spec fn kw_pad(name: Seq<u8>) -> Seq<u8> {
    Seq::new(8, |i: int| if i < name.len() { name[i] } else { 32u8 })
}

/// The `END` keyword.
pub open spec fn end_keyword() -> Seq<u8> {
    kw_pad(seq![69u8, 78u8, 68u8])
}

/// Pad a keyword name to 8 bytes with trailing ASCII spaces.
pub fn kw(name: &[u8]) -> (r: [u8; 8])
    ensures
        r@ == kw_pad(name@),
{
    let mut buf = [32u8; 8];
    let mut i: usize = 0;
    while i < name.len() && i < 8
        invariant
            i <= 8,
            i <= name@.len(),
            buf@.len() == 8,
            forall|j: int| 0 <= j < i ==> buf@[j] == name@[j],
            forall|j: int| i <= j < 8 ==> buf@[j] == 32u8,
        decreases 8 - i,
    {
        buf[i] = name[i];
        i += 1;
    }
    assert(buf@ =~= kw_pad(name@));
    buf
}

/// Whether two keywords are the same 8 bytes.
pub fn keyword_eq(a: &[u8; 8], b: &[u8; 8]) -> (r: bool)
    ensures
        r == (a@ == b@),
{
    let mut i: usize = 0;
    while i < 8
        invariant
            i <= 8,
            a@.len() == 8,
            b@.len() == 8,
            forall|j: int| 0 <= j < i ==> a@[j] == b@[j],
        decreases 8 - i,
    {
        if a[i] != b[i] {
            return false;
        }
        i += 1;
    }
    assert(a@ =~= b@);
    true
}

/// The keyword bytes without trailing spaces.
pub open spec fn keyword_trimmed(k: Seq<u8>) -> Seq<u8>
    decreases k.len(),
{
    if k.len() > 0 && k.last() == 32 {
        keyword_trimmed(k.drop_last())
    } else {
        k
    }
}

impl Card {
    /// Return the keyword as a trimmed UTF-8 string (empty when the keyword
    /// bytes are not UTF-8).
    pub fn keyword_str(&self) -> (r: &str)
        ensures
            valid_utf8(keyword_trimmed(self.keyword@)) ==> r@ == decode_utf8(keyword_trimmed(self.keyword@)),
            !valid_utf8(keyword_trimmed(self.keyword@)) ==> r@ == Seq::<char>::empty(),
    {
        let mut end: usize = 8;
        assert(self.keyword@ =~= self.keyword@.subrange(0, 8));
        while end > 0 && self.keyword[end - 1] == 32
            invariant
                end <= 8,
                self.keyword@.len() == 8,
                keyword_trimmed(self.keyword@.subrange(0, end as int)) == keyword_trimmed(self.keyword@),
            decreases end,
        {
            assert(self.keyword@.subrange(0, end as int).drop_last() =~= self.keyword@.subrange(0, end - 1));
            end -= 1;
        }
        assert(self.keyword@ =~= self.keyword@.subrange(0, 8));
        let k = &self.keyword;
        let sl = k.as_slice();
        match str_from_utf8(&sl[0..end]) {
            Some(s) => s,
            None => {
                proof { reveal_strlit(""); }
                ""
            },
        }
    }

    /// Returns `true` if this card is the END keyword.
    pub fn is_end(&self) -> (r: bool)
        ensures
            r == (self.keyword@ == end_keyword()),
    {
        let e = kw(&[69u8, 78u8, 68u8]);
        assert(seq![69u8, 78u8, 68u8] =~= [69u8, 78u8, 68u8]@);
        keyword_eq(&self.keyword, &e)
    }

    /// Returns `true` if this is a blank card (keyword is all spaces).
    pub fn is_blank(&self) -> (r: bool)
        ensures
            r == (self.keyword@ == spaces(8)),
    {
        let b = [32u8; 8];
        assert(b@ =~= spaces(8));
        keyword_eq(&self.keyword, &b)
    }

    /// Returns `true` if this card carries a commentary keyword
    /// (COMMENT, HISTORY, or blank).
    pub fn is_commentary(&self) -> (r: bool)
        ensures
            r == is_commentary_keyword(self.keyword@),
    {
        is_commentary_exec(&self.keyword)
    }

    /// A card equal to this one (field by field).
    pub fn duplicate(&self) -> (r: Card)
        ensures
            r@ == self@,
    {
        let value = match &self.value {
            Some(v) => Some(copy_value(v)),
            None => None,
        };
        let comment = match &self.comment {
            Some(c) => Some(c.clone()),
            None => None,
        };
        Card { keyword: self.keyword, value, comment }
    }
}

/// A value with the same content.
pub fn copy_value(v: &Value) -> (r: Value)
    ensures
        r@ == v@,
{
    match v {
        Value::Logical(b) => Value::Logical(*b),
        Value::Integer(n) => Value::Integer(*n),
        Value::Float(t) => Value::Float(t.clone()),
        Value::String(s) => Value::String(s.clone()),
        Value::ComplexInt(a, b) => Value::ComplexInt(*a, *b),
        Value::ComplexFloat(a, b) => Value::ComplexFloat(a.clone(), b.clone()),
    }
}

/// The type of HDU, which determines required keywords per the FITS standard.
#[derive(Debug, Clone, Copy, PartialEq, Eq)]
pub enum HduType {
    Primary,
    Image,
    AsciiTable,
    BinaryTable,
}

// ── Parsing ──

/// Bytes allowed in a keyword: upper-case letters, digits, space, `-`, `_`.
pub open spec fn is_keyword_byte(b: u8) -> bool {
    (65 <= b <= 90) || (48 <= b <= 57) || b == 32 || b == 45 || b == 95
}

/// `COMMENT`, `HISTORY` or the blank keyword.
pub open spec fn is_commentary_keyword(k: Seq<u8>) -> bool {
    k == kw_pad(seq![67u8, 79u8, 77u8, 77u8, 69u8, 78u8, 84u8]) || k == kw_pad(
        seq![72u8, 73u8, 83u8, 84u8, 79u8, 82u8, 89u8],
    ) || k == spaces(8)
}

fn is_commentary_exec(k: &[u8; 8]) -> (r: bool)
    ensures
        r == is_commentary_keyword(k@),
{
    let comment = kw(&[67u8, 79u8, 77u8, 77u8, 69u8, 78u8, 84u8]);
    let history = kw(&[72u8, 73u8, 83u8, 84u8, 79u8, 82u8, 89u8]);
    let blank = [32u8; 8];
    assert(seq![67u8, 79u8, 77u8, 77u8, 69u8, 78u8, 84u8] =~= [67u8, 79u8, 77u8, 77u8, 69u8, 78u8, 84u8]@);
    assert(seq![72u8, 73u8, 83u8, 84u8, 79u8, 82u8, 89u8] =~= [72u8, 73u8, 83u8, 84u8, 79u8, 82u8, 89u8]@);
    assert(blank@ =~= spaces(8));
    keyword_eq(k, &comment) || keyword_eq(k, &history) || keyword_eq(k, &blank)
}

/// A card of free text: bytes 8..80 as the comment, trimmed at the end.
pub open spec fn text_card(kw: Seq<u8>, b: Seq<u8>) -> core::result::Result<CardModel, Error> {
    let text = b.subrange(8, 80);
    if !valid_utf8(text) {
        Err(Error::InvalidHeader)
    } else {
        let t = trim_end(decode_utf8(text));
        Ok(CardModel { keyword: kw, value: None, comment: if t.len() == 0 { None } else { Some(t) } })
    }
}

/// The card that an 80-byte card image holds.
pub open spec fn spec_parse_card(b: Seq<u8>) -> core::result::Result<CardModel, Error> {
    let kw = b.subrange(0, 8);
    if !(forall|i: int| 0 <= i < 8 ==> is_keyword_byte(#[trigger] b[i])) {
        Err(Error::InvalidKeyword)
    } else if kw == end_keyword() {
        Ok(CardModel { keyword: kw, value: None, comment: None })
    } else if is_commentary_keyword(kw) || !(b[8] == 61 && b[9] == 32) {
        text_card(kw, b)
    } else {
        let field = b.subrange(10, 80);
        match spec_parse_value(field) {
            Some((v, c)) => Ok(CardModel { keyword: kw, value: Some(v), comment: c }),
            None => if valid_utf8(field) {
                Ok(CardModel { keyword: kw, value: None, comment: comment_of(field) })
            } else {
                Err(Error::InvalidHeader)
            },
        }
    }
}

/// The bytes `b[start..end]` decoded and trimmed at the end, as an optional
/// comment; `Err` when they are not UTF-8.
fn trimmed_text(b: &[u8], start: usize, end: usize) -> (r: core::result::Result<Option<String>, ()>)
    requires
        start <= end <= b@.len(),
    ensures
        r is Err <==> !valid_utf8(b@.subrange(start as int, end as int)),
        r matches Ok(c) ==> ({
            let t = trim_end(decode_utf8(b@.subrange(start as int, end as int)));
            &&& c is None <==> t.len() == 0
            &&& c matches Some(s) ==> s@ == t
        }),
{
    match str_from_utf8(&b[start..end]) {
        None => Err(()),
        Some(s) => {
            let chars = chars_of(s);
            let n = chars.len();
            let t = trim_end_index(chars.as_slice(), n);
            assert(chars@.subrange(0, n as int) =~= chars@);
            if t == 0 {
                Ok(None)
            } else {
                let sl = chars.as_slice();
                Ok(Some(string_from_chars(&sl[0..t])))
            }
        },
    }
}

/// Parse a single 80-byte FITS header card.
pub fn parse_card(card_bytes: &[u8; CARD_SIZE]) -> (r: Result<Card>)
    ensures
        r matches Ok(c) ==> spec_parse_card(card_bytes@) == Ok::<CardModel, Error>(c@),
        r matches Err(e) ==> spec_parse_card(card_bytes@) == Err::<CardModel, Error>(e),
{
    let ghost b = card_bytes@;
    let mut keyword = [32u8; 8];
    let mut i: usize = 0;
    while i < 8
        invariant
            i <= 8,
            b == card_bytes@,
            b.len() == 80,
            keyword@.len() == 8,
            forall|j: int| 0 <= j < i ==> keyword@[j] == b[j] && is_keyword_byte(b[j]),
        decreases 8 - i,
    {
        let c = card_bytes[i];
        if !((65 <= c && c <= 90) || (48 <= c && c <= 57) || c == 32 || c == 45 || c == 95) {
            assert(!is_keyword_byte(b[i as int]));
            return Err(Error::InvalidKeyword);
        }
        keyword[i] = c;
        i += 1;
    }
    assert(keyword@ =~= b.subrange(0, 8));
    let end_kw = kw(&[69u8, 78u8, 68u8]);
    assert(seq![69u8, 78u8, 68u8] =~= [69u8, 78u8, 68u8]@);
    if keyword_eq(&keyword, &end_kw) {
        return Ok(Card { keyword, value: None, comment: None });
    }
    let sl = card_bytes.as_slice();
    if is_commentary_exec(&keyword) || !(card_bytes[8] == 61 && card_bytes[9] == 32) {
        return match trimmed_text(sl, 8, 80) {
            Err(_) => Err(Error::InvalidHeader),
            Ok(comment) => Ok(Card { keyword, value: None, comment }),
        };
    }
    let field = &sl[10..80];
    match parse_value(field) {
        Some((val, comment)) => Ok(Card { keyword, value: Some(val), comment }),
        None => {
            match str_from_utf8(field) {
                None => Err(Error::InvalidHeader),
                Some(_) => {
                    let comment = comment_of_exec(field);
                    Ok(Card { keyword, value: None, comment })
                },
            }
        },
    }
}

/// The cards of a header, parsed from card number `i` of `data` on, up to
/// and including the END card.
pub open spec fn spec_parse_cards(data: Seq<u8>, i: int, n: int) -> core::result::Result<Seq<CardModel>, Error>
    decreases n - i,
{
    if i >= n || i < 0 {
        Err(Error::UnexpectedEof)
    } else {
        match spec_parse_card(data.subrange(80 * i, 80 * i + 80)) {
            Err(e) => Err(e),
            Ok(c) => if c.keyword == end_keyword() {
                Ok(seq![c])
            } else {
                match spec_parse_cards(data, i + 1, n) {
                    Ok(cs) => Ok(seq![c] + cs),
                    Err(e) => Err(e),
                }
            },
        }
    }
}

/// The number of cards in the complete blocks of `data`.
pub open spec fn cards_in_blocks(len: int) -> int {
    (len / 2880) * 36
}

/// The header cards of `data`, up to and including the END card.
pub open spec fn spec_parse_header(data: Seq<u8>) -> core::result::Result<Seq<CardModel>, Error> {
    if data.len() < 2880 {
        Err(Error::UnexpectedEof)
    } else {
        spec_parse_cards(data, 0, cards_in_blocks(data.len() as int))
    }
}

/// Copy card number `i` of `data` into an 80-byte array.
fn card_at(data: &[u8], i: usize) -> (r: [u8; 80])
    requires
        80 * i + 80 <= data.len(),
    ensures
        r@ == data@.subrange(80 * i, 80 * i + 80),
{
    let start = 80 * i;
    let mut buf = [0u8; 80];
    let mut k: usize = 0;
    while k < 80
        invariant
            k <= 80,
            start == 80 * i,
            start + 80 <= data.len(),
            buf@.len() == 80,
            forall|j: int| 0 <= j < k ==> buf@[j] == data@[start + j],
        decreases 80 - k,
    {
        buf[k] = data[start + k];
        k += 1;
    }
    assert(buf@ =~= data@.subrange(80 * i, 80 * i + 80));
    buf
}

/// Parse consecutive 2880-byte header blocks until the END card is found.
///
/// Only complete 2880-byte blocks are scanned; trailing bytes shorter than a
/// full block are ignored.
pub fn parse_header_blocks(data: &[u8]) -> (r: Result<Vec<Card>>)
    ensures
        r matches Ok(cs) ==> spec_parse_header(data@) == Ok::<Seq<CardModel>, Error>(cards_view(cs@)),
        r matches Err(e) ==> spec_parse_header(data@) == Err::<Seq<CardModel>, Error>(e),
{
    if data.len() < BLOCK_SIZE {
        return Err(Error::UnexpectedEof);
    }
    let n = (data.len() / BLOCK_SIZE) * CARDS_PER_BLOCK;
    proof {
        assert(80 * n <= data@.len()) by (nonlinear_arith)
            requires n == (data@.len() / 2880) * 36;
    }
    let mut cards: Vec<Card> = Vec::new();
    let mut i: usize = 0;
    while i < n
        invariant
            i <= n,
            n == cards_in_blocks(data@.len() as int),
            80 * n <= data@.len(),
            data@.len() == data.len(),
            data@.len() >= 2880,
            forall|j: int| 0 <= j < cards@.len() ==> cards@[j]@.keyword != end_keyword(),
            cards@.len() == i,
            forall|j: int| 0 <= j < i ==> spec_parse_card(data@.subrange(80 * j, 80 * j + 80))
                == Ok::<CardModel, Error>(#[trigger] cards@[j]@),
        decreases n - i,
    {
        let cb = card_at(data, i);
        let card = match parse_card(&cb) {
            Ok(c) => c,
            Err(e) => {
                proof {
                    lemma_parse_cards_error(data@, cards@, n as int, e);
                }
                return Err(e);
            },
        };
        let is_end = card.is_end();
        cards.push(card);
        if is_end {
            proof {
                lemma_parse_cards_prefix(data@, cards@, n as int);
            }
            return Ok(cards);
        }
        i += 1;
    }
    proof {
        lemma_parse_cards_exhausted(data@, cards@, n as int);
    }
    Err(Error::UnexpectedEof)
}

proof fn lemma_parse_cards_prefix(data: Seq<u8>, cards: Seq<Card>, n: int)
    requires
        cards.len() >= 1,
        cards.len() <= n,
        data.len() >= 2880,
        n == cards_in_blocks(data.len() as int),
        forall|j: int| 0 <= j < cards.len() ==> spec_parse_card(data.subrange(80 * j, 80 * j + 80))
            == Ok::<CardModel, Error>(#[trigger] cards[j]@),
        forall|j: int| 0 <= j < cards.len() - 1 ==> cards[j]@.keyword != end_keyword(),
        cards[cards.len() - 1]@.keyword == end_keyword(),
    ensures
        spec_parse_header(data) == Ok::<Seq<CardModel>, Error>(cards_view(cards)),
{
    lemma_parse_cards_from(data, cards, n, 0);
    assert(cards_view(cards).subrange(0, cards.len() as int) =~= cards_view(cards));
}

proof fn lemma_parse_cards_from(data: Seq<u8>, cards: Seq<Card>, n: int, k: int)
    requires
        0 <= k < cards.len(),
        cards.len() <= n,
        forall|j: int| 0 <= j < cards.len() ==> spec_parse_card(data.subrange(80 * j, 80 * j + 80))
            == Ok::<CardModel, Error>(#[trigger] cards[j]@),
        forall|j: int| 0 <= j < cards.len() - 1 ==> cards[j]@.keyword != end_keyword(),
        cards[cards.len() - 1]@.keyword == end_keyword(),
    ensures
        spec_parse_cards(data, k, n) == Ok::<Seq<CardModel>, Error>(cards_view(cards).subrange(k, cards.len() as int)),
    decreases cards.len() - k,
{
    if k == cards.len() - 1 {
        assert(cards_view(cards).subrange(k, cards.len() as int) =~= seq![cards[k]@]);
    } else {
        lemma_parse_cards_from(data, cards, n, k + 1);
        assert(cards_view(cards).subrange(k, cards.len() as int) =~= seq![cards[k]@] + cards_view(cards).subrange(k + 1, cards.len() as int));
    }
}

proof fn lemma_parse_cards_error(data: Seq<u8>, cards: Seq<Card>, n: int, e: Error)
    requires
        cards.len() < n,
        data.len() >= 2880,
        n == cards_in_blocks(data.len() as int),
        forall|j: int| 0 <= j < cards.len() ==> spec_parse_card(data.subrange(80 * j, 80 * j + 80))
            == Ok::<CardModel, Error>(#[trigger] cards[j]@),
        forall|j: int| 0 <= j < cards.len() ==> cards[j]@.keyword != end_keyword(),
        spec_parse_card(data.subrange(80 * (cards.len() as int), 80 * (cards.len() as int) + 80)) == Err::<CardModel, Error>(e),
    ensures
        spec_parse_header(data) == Err::<Seq<CardModel>, Error>(e),
{
    lemma_parse_cards_error_from(data, cards, n, 0, e);
}

proof fn lemma_parse_cards_error_from(data: Seq<u8>, cards: Seq<Card>, n: int, k: int, e: Error)
    requires
        0 <= k <= cards.len(),
        cards.len() < n,
        forall|j: int| 0 <= j < cards.len() ==> spec_parse_card(data.subrange(80 * j, 80 * j + 80))
            == Ok::<CardModel, Error>(#[trigger] cards[j]@),
        forall|j: int| 0 <= j < cards.len() ==> cards[j]@.keyword != end_keyword(),
        spec_parse_card(data.subrange(80 * (cards.len() as int), 80 * (cards.len() as int) + 80)) == Err::<CardModel, Error>(e),
    ensures
        spec_parse_cards(data, k, n) == Err::<Seq<CardModel>, Error>(e),
    decreases cards.len() - k,
{
    if k < cards.len() {
        assert(spec_parse_card(data.subrange(80 * k, 80 * k + 80)) == Ok::<CardModel, Error>(cards[k]@));
        lemma_parse_cards_error_from(data, cards, n, k + 1, e);
    }
}

proof fn lemma_parse_cards_exhausted(data: Seq<u8>, cards: Seq<Card>, n: int)
    requires
        cards.len() == n,
        n >= 0,
        data.len() >= 2880,
        n == cards_in_blocks(data.len() as int),
        forall|j: int| 0 <= j < cards.len() ==> spec_parse_card(data.subrange(80 * j, 80 * j + 80))
            == Ok::<CardModel, Error>(#[trigger] cards[j]@),
        forall|j: int| 0 <= j < cards.len() ==> cards[j]@.keyword != end_keyword(),
    ensures
        spec_parse_header(data) == Err::<Seq<CardModel>, Error>(Error::UnexpectedEof),
{
    lemma_parse_cards_exhausted_from(data, cards, n, 0);
}

proof fn lemma_parse_cards_exhausted_from(data: Seq<u8>, cards: Seq<Card>, n: int, k: int)
    requires
        cards.len() == n,
        0 <= k <= n,
        forall|j: int| 0 <= j < cards.len() ==> spec_parse_card(data.subrange(80 * j, 80 * j + 80))
            == Ok::<CardModel, Error>(#[trigger] cards[j]@),
        forall|j: int| 0 <= j < cards.len() ==> cards[j]@.keyword != end_keyword(),
    ensures
        spec_parse_cards(data, k, n) == Err::<Seq<CardModel>, Error>(Error::UnexpectedEof),
    decreases n - k,
{
    if k < n {
        assert(spec_parse_card(data.subrange(80 * k, 80 * k + 80)) == Ok::<CardModel, Error>(cards[k]@));
        lemma_parse_cards_exhausted_from(data, cards, n, k + 1);
    }
}

/// The index of the first card of `data` (among the first `n`) whose keyword
/// is END.
pub open spec fn first_end_card(data: Seq<u8>, i: int, n: int) -> Option<int>
    decreases n - i,
{
    if i >= n || i < 0 {
        None
    } else if data.subrange(80 * i, 80 * i + 8) == end_keyword() {
        Some(i)
    } else {
        first_end_card(data, i + 1, n)
    }
}

/// The header length that `header_byte_len` reports.
pub open spec fn spec_header_byte_len(data: Seq<u8>) -> core::result::Result<usize, Error> {
    if data.len() < 2880 {
        Err(Error::UnexpectedEof)
    } else {
        match first_end_card(data, 0, cards_in_blocks(data.len() as int)) {
            Some(k) => Ok(((k / 36 + 1) * 2880) as usize),
            None => Err(Error::UnexpectedEof),
        }
    }
}

/// Return the number of bytes consumed by the header (always a multiple of
/// BLOCK_SIZE): the blocks up to and including the one with the END card.
///
/// Only complete 2880-byte blocks are scanned for the END card.
pub fn header_byte_len(data: &[u8]) -> (r: Result<usize>)
    ensures
        r matches Ok(n) ==> spec_header_byte_len(data@) == Ok::<usize, Error>(n),
        r matches Err(e) ==> spec_header_byte_len(data@) == Err::<usize, Error>(e),
        r matches Ok(n) ==> n <= data@.len() && n % 2880 == 0 && n > 0,
{
    if data.len() < BLOCK_SIZE {
        return Err(Error::UnexpectedEof);
    }
    let n = (data.len() / BLOCK_SIZE) * CARDS_PER_BLOCK;
    proof {
        assert(80 * n <= data@.len()) by (nonlinear_arith)
            requires n == (data@.len() / 2880) * 36;
    }
    let end_kw = kw(&[69u8, 78u8, 68u8]);
    assert(seq![69u8, 78u8, 68u8] =~= [69u8, 78u8, 68u8]@);
    let mut i: usize = 0;
    while i < n
        invariant
            i <= n,
            n == cards_in_blocks(data@.len() as int),
            80 * n <= data@.len(),
            data@.len() == data.len(),
            data@.len() >= 2880,
            end_kw@ == end_keyword(),
            first_end_card(data@, i as int, n as int) == first_end_card(data@, 0, n as int),
        decreases n - i,
    {
        let mut same = true;
        let mut k: usize = 0;
        while k < 8
            invariant
                k <= 8,
                80 * i + 80 <= data.len(),
                end_kw@.len() == 8,
                same == (forall|j: int| 0 <= j < k ==> data@[80 * i + j] == end_kw@[j]),
            decreases 8 - k,
        {
            if data[80 * i + k] != end_kw[k] {
                same = false;
            }
            k += 1;
        }
        proof {
            assert(same == (data@.subrange(80 * i, 80 * i + 8) =~= end_kw@));
        }
        if same {
            proof {
                assert((i / 36 + 1) * 2880 <= data@.len()) by (nonlinear_arith)
                    requires i < n, n == (data@.len() / 2880) * 36;
                assert(((i / 36 + 1) * 2880) % 2880 == 0) by (nonlinear_arith);
            }
            return Ok((i / CARDS_PER_BLOCK + 1) * BLOCK_SIZE);
        }
        i += 1;
    }
    Err(Error::UnexpectedEof)
}

// ── Writing ──

/// The 70-byte field with a ` / comment` inserted after its value, when
/// there is room.
pub open spec fn spec_insert_comment(field: Seq<u8>, comment: Seq<u8>) -> Seq<u8> {
    let content_end = if field[0] == 39 { scan_quoted(field, 1).1 } else { 20 };
    let sep = content_end + 1;
    if sep + 3 >= 70 {
        field
    } else {
        let cstart = sep + 2;
        let len = if comment.len() < 70 - cstart { comment.len() as int } else { 70 - cstart };
        Seq::new(70, |i: int|
            if i == sep {
                47u8
            } else if i == sep + 1 {
                32u8
            } else if cstart <= i < cstart + len {
                comment[i - cstart]
            } else {
                field[i]
            })
    }
}

/// The 80-byte card image that `format_card` produces.
pub open spec fn spec_format_card(c: CardModel) -> Seq<u8> {
    match c.value {
        Some(v) => {
            let field = spec_format_value(v);
            let f2 = match c.comment {
                Some(cm) => spec_insert_comment(field, encode_utf8(cm)),
                None => field,
            };
            c.keyword + seq![61u8, 32u8] + f2
        },
        None => {
            if c.keyword != spaces(8) && c.comment is Some {
                let cb = encode_utf8(c.comment.unwrap());
                let len = if cb.len() < 72 { cb.len() as int } else { 72 };
                c.keyword + cb.subrange(0, len) + spaces((72 - len) as nat)
            } else {
                c.keyword + spaces(72)
            }
        },
    }
}

/// Find the end of a quoted string value in a formatted field.
fn quoted_end(field: &[u8; 70]) -> (r: usize)
    requires
        field@[0] == 39,
    ensures
        r == scan_quoted(field@, 1).1,
        r <= 70,
{
    let mut i: usize = 1;
    while i < 70
        invariant
            1 <= i <= 70,
            field@.len() == 70,
            scan_quoted(field@, i as int).1 == scan_quoted(field@, 1).1,
        decreases 70 - i,
    {
        if field[i] == 39 {
            if i + 1 < 70 && field[i + 1] == 39 {
                assert(scan_quoted(field@, i as int).1 == scan_quoted(field@, i + 2).1);
                i += 2;
            } else {
                return i + 1;
            }
        } else {
            assert(scan_quoted(field@, i as int).1 == scan_quoted(field@, i + 1).1);
            i += 1;
        }
    }
    70
}

/// Insert a ` / comment` string into a 70-byte value field.
fn insert_comment(field: &mut [u8; 70], comment: &str)
    ensures
        final(field)@ == spec_insert_comment(old(field)@, encode_utf8(comment@)),
{
    let content_end = if field[0] == 39 { quoted_end(field) } else { 20 };
    let sep_start = content_end + 1;
    if sep_start + 3 >= 70 {
        return;
    }
    let ghost orig = field@;
    field[sep_start] = 47u8;
    field[sep_start + 1] = 32u8;
    let comment_start = sep_start + 2;
    let comment_bytes = comment.as_bytes();
    let max_len = 70 - comment_start;
    let len = if comment_bytes.len() < max_len { comment_bytes.len() } else { max_len };
    let mut k: usize = 0;
    while k < len
        invariant
            k <= len,
            comment_start + len <= 70,
            comment_start == sep_start + 2,
            len <= comment_bytes@.len(),
            field@.len() == 70,
            orig.len() == 70,
            forall|j: int| 0 <= j < 70 ==> #[trigger] field@[j] == (if j == sep_start {
                47u8
            } else if j == sep_start + 1 {
                32u8
            } else if comment_start <= j < comment_start + k {
                comment_bytes@[j - comment_start]
            } else {
                orig[j]
            }),
        decreases len - k,
    {
        field[comment_start + k] = comment_bytes[k];
        k += 1;
    }
    assert(field@ =~= spec_insert_comment(orig, encode_utf8(comment@)));
}

/// Serialize a [`Card`] into an 80-byte FITS card image.
pub fn format_card(card: &Card) -> (r: [u8; CARD_SIZE])
    ensures
        r@ == spec_format_card(card@),
{
    let mut buf = [32u8; 80];
    let mut i: usize = 0;
    while i < 8
        invariant
            i <= 8,
            buf@.len() == 80,
            forall|j: int| 0 <= j < i ==> buf@[j] == card.keyword@[j],
            forall|j: int| i <= j < 80 ==> buf@[j] == 32u8,
        decreases 8 - i,
    {
        buf[i] = card.keyword[i];
        i += 1;
    }
    let blank = [32u8; 8];
    assert(blank@ =~= spaces(8));
    let is_blank = keyword_eq(&card.keyword, &blank);
    match &card.value {
        Some(value) => {
            buf[8] = 61u8;
            buf[9] = 32u8;
            let mut field = format_value(value);
            match &card.comment {
                Some(c) => insert_comment(&mut field, c.as_str()),
                None => {},
            }
            let mut k: usize = 0;
            while k < 70
                invariant
                    k <= 70,
                    buf@.len() == 80,
                    field@.len() == 70,
                    forall|j: int| 0 <= j < 8 ==> buf@[j] == card.keyword@[j],
                    buf@[8] == 61u8 && buf@[9] == 32u8,
                    forall|j: int| 10 <= j < 10 + k ==> buf@[j] == field@[j - 10],
                decreases 70 - k,
            {
                buf[10 + k] = field[k];
                k += 1;
            }
            assert(buf@ =~= spec_format_card(card@));
        },
        None => {
            if !is_blank {
                match &card.comment {
                    Some(c) => {
                        let bytes = c.as_str().as_bytes();
                        let len = if bytes.len() < 72 { bytes.len() } else { 72 };
                        let mut k: usize = 0;
                        while k < len
                            invariant
                                k <= len,
                                len <= 72,
                                len <= bytes@.len(),
                                buf@.len() == 80,
                                forall|j: int| 0 <= j < 8 ==> buf@[j] == card.keyword@[j],
                                forall|j: int| 8 <= j < 8 + k ==> buf@[j] == bytes@[j - 8],
                                forall|j: int| 8 + k <= j < 80 ==> buf@[j] == 32u8,
                            decreases len - k,
                        {
                            buf[8 + k] = bytes[k];
                            k += 1;
                        }
                    },
                    None => {},
                }
            }
            assert(buf@ =~= spec_format_card(card@));
        },
    }
    buf
}

/// Create the standard FITS END card.
pub fn format_end_card() -> (r: [u8; CARD_SIZE])
    ensures
        r@ == end_keyword() + spaces(72),
{
    let mut buf = [32u8; 80];
    buf[0] = 69u8;
    buf[1] = 78u8;
    buf[2] = 68u8;
    assert(buf@ =~= end_keyword() + spaces(72));
    buf
}

/// The header blocks that `serialize_header` produces: the cards, the END
/// card, and blank cards up to the end of the last block.
pub open spec fn spec_serialize_header(cards: Seq<CardModel>) -> Seq<u8> {
    let total = spec_blocks_needed((80 * (cards.len() + 1)) as int) * 2880;
    Seq::new(total as nat, |i: int|
        if i < 80 * cards.len() {
            spec_format_card(cards[i / 80])[i % 80]
        } else if i < 80 * cards.len() + 80 {
            (end_keyword() + spaces(72))[i - 80 * cards.len()]
        } else {
            32u8
        })
}

/// Serialize a sequence of header cards into complete FITS header blocks.
///
/// Appends the END card and pads the final block with blank cards.
/// The returned length is always a multiple of [`BLOCK_SIZE`].
pub fn serialize_header(cards: &[Card]) -> (r: Vec<u8>)
    requires
        80 * (cards@.len() + 1) + 2880 <= usize::MAX,
    ensures
        r@ == spec_serialize_header(cards_view(cards@)),
        r@.len() % 2880 == 0,
{
    let total_cards = cards.len() + 1;
    let total_blocks = (total_cards + CARDS_PER_BLOCK - 1) / CARDS_PER_BLOCK;
    let total_bytes = total_blocks * BLOCK_SIZE;
    proof {
        assert(total_blocks == spec_blocks_needed((80 * (cards@.len() + 1)) as int));
        assert(total_bytes >= 80 * total_cards) by (nonlinear_arith)
            requires total_blocks == (total_cards + 35) / 36, total_bytes == total_blocks * 2880;
    }
    let mut buf: Vec<u8> = Vec::new();
    let ghost target = spec_serialize_header(cards_view(cards@));
    let mut c: usize = 0;
    while c < cards.len()
        invariant
            c <= cards@.len(),
            buf@.len() == 80 * c,
            total_bytes == target.len(),
            total_bytes >= 80 * (cards@.len() + 1),
            target == spec_serialize_header(cards_view(cards@)),
            forall|j: int| 0 <= j < buf@.len() ==> buf@[j] == target[j],
        decreases cards@.len() - c,
    {
        let formatted = format_card(&cards[c]);
        let mut k: usize = 0;
        while k < 80
            invariant
                k <= 80,
                c < cards@.len(),
                buf@.len() == 80 * c + k,
                formatted@ == spec_format_card(cards@[c as int]@),
                total_bytes == target.len(),
                total_bytes >= 80 * (cards@.len() + 1),
                target == spec_serialize_header(cards_view(cards@)),
                forall|j: int| 0 <= j < buf@.len() ==> buf@[j] == target[j],
            decreases 80 - k,
        {
            proof {
                let j = 80 * c + k;
                assert(j / 80 == c && j % 80 == k) by (nonlinear_arith)
                    requires j == 80 * c + k, k < 80;
                assert(cards_view(cards@)[c as int] == cards@[c as int]@);
            }
            buf.push(formatted[k]);
            k += 1;
        }
        c += 1;
    }
    let end_card = format_end_card();
    let mut k: usize = 0;
    while k < 80
        invariant
            k <= 80,
            buf@.len() == 80 * cards@.len() + k,
            end_card@ == end_keyword() + spaces(72),
            total_bytes == target.len(),
            total_bytes >= 80 * (cards@.len() + 1),
            target == spec_serialize_header(cards_view(cards@)),
            forall|j: int| 0 <= j < buf@.len() ==> buf@[j] == target[j],
        decreases 80 - k,
    {
        buf.push(end_card[k]);
        k += 1;
    }
    while buf.len() < total_bytes
        invariant
            buf@.len() <= total_bytes,
            buf@.len() >= 80 * cards@.len() + 80,
            total_bytes == target.len(),
            target == spec_serialize_header(cards_view(cards@)),
            forall|j: int| 0 <= j < buf@.len() ==> buf@[j] == target[j],
        decreases total_bytes - buf@.len(),
    {
        buf.push(HEADER_PAD_BYTE);
    }
    assert(buf@ =~= target);
    proof {
        assert(total_bytes % 2880 == 0) by (nonlinear_arith)
            requires total_bytes == total_blocks * 2880;
    }
    buf
}

// ── Validation ──

/// Standard keywords that the library reads and writes.
#[derive(Debug, Clone, Copy, PartialEq, Eq)]
pub enum StandardKeyword {
    Simple,
    Bitpix,
    Naxis,
    Naxis1,
    Naxis2,
    Xtension,
    Pcount,
    Gcount,
    Tfields,
    Groups,
    Extname,
    Zimage,
    Zbitpix,
    Znaxis,
    CompressionType,
    Zval1,
    Zval2,
}

impl StandardKeyword {
    /// The padded 8-byte keyword.
    pub open spec fn spec_keyword(self) -> Seq<u8> {
        match self {
            StandardKeyword::Simple => kw_pad(seq![83u8, 73u8, 77u8, 80u8, 76u8, 69u8]),
            StandardKeyword::Bitpix => kw_pad(seq![66u8, 73u8, 84u8, 80u8, 73u8, 88u8]),
            StandardKeyword::Naxis => kw_pad(seq![78u8, 65u8, 88u8, 73u8, 83u8]),
            StandardKeyword::Naxis1 => kw_pad(seq![78u8, 65u8, 88u8, 73u8, 83u8, 49u8]),
            StandardKeyword::Naxis2 => kw_pad(seq![78u8, 65u8, 88u8, 73u8, 83u8, 50u8]),
            StandardKeyword::Xtension => kw_pad(seq![88u8, 84u8, 69u8, 78u8, 83u8, 73u8, 79u8, 78u8]),
            StandardKeyword::Pcount => kw_pad(seq![80u8, 67u8, 79u8, 85u8, 78u8, 84u8]),
            StandardKeyword::Gcount => kw_pad(seq![71u8, 67u8, 79u8, 85u8, 78u8, 84u8]),
            StandardKeyword::Tfields => kw_pad(seq![84u8, 70u8, 73u8, 69u8, 76u8, 68u8, 83u8]),
            StandardKeyword::Groups => kw_pad(seq![71u8, 82u8, 79u8, 85u8, 80u8, 83u8]),
            StandardKeyword::Extname => kw_pad(seq![69u8, 88u8, 84u8, 78u8, 65u8, 77u8, 69u8]),
            StandardKeyword::Zimage => kw_pad(seq![90u8, 73u8, 77u8, 65u8, 71u8, 69u8]),
            StandardKeyword::Zbitpix => kw_pad(seq![90u8, 66u8, 73u8, 84u8, 80u8, 73u8, 88u8]),
            StandardKeyword::Znaxis => kw_pad(seq![90u8, 78u8, 65u8, 88u8, 73u8, 83u8]),
            StandardKeyword::CompressionType => kw_pad(seq![90u8, 67u8, 77u8, 80u8, 84u8, 89u8, 80u8, 69u8]),
            StandardKeyword::Zval1 => kw_pad(seq![90u8, 86u8, 65u8, 76u8, 49u8]),
            StandardKeyword::Zval2 => kw_pad(seq![90u8, 86u8, 65u8, 76u8, 50u8]),
        }
    }

    /// The keyword's name, as reported when it is missing.
    pub open spec fn spec_label(self) -> &'static str {
        match self {
            StandardKeyword::Simple => "SIMPLE",
            StandardKeyword::Bitpix => "BITPIX",
            StandardKeyword::Naxis => "NAXIS",
            StandardKeyword::Naxis1 => "NAXIS1",
            StandardKeyword::Naxis2 => "NAXIS2",
            StandardKeyword::Xtension => "XTENSION",
            StandardKeyword::Pcount => "PCOUNT",
            StandardKeyword::Gcount => "GCOUNT",
            StandardKeyword::Tfields => "TFIELDS",
            StandardKeyword::Groups => "GROUPS",
            StandardKeyword::Extname => "EXTNAME",
            StandardKeyword::Zimage => "ZIMAGE",
            StandardKeyword::Zbitpix => "ZBITPIX",
            StandardKeyword::Znaxis => "ZNAXIS",
            StandardKeyword::CompressionType => "ZCMPTYPE",
            StandardKeyword::Zval1 => "ZVAL1",
            StandardKeyword::Zval2 => "ZVAL2",
        }
    }

    /// The padded 8-byte keyword.
    pub fn keyword(&self) -> (r: [u8; 8])
        ensures
            r@ == self.spec_keyword(),
    {
        match self {
            StandardKeyword::Simple => {
                let a = [83u8, 73u8, 77u8, 80u8, 76u8, 69u8];
                assert(a@ =~= seq![83u8, 73u8, 77u8, 80u8, 76u8, 69u8]);
                kw(&a)
            },
            StandardKeyword::Bitpix => {
                let a = [66u8, 73u8, 84u8, 80u8, 73u8, 88u8];
                assert(a@ =~= seq![66u8, 73u8, 84u8, 80u8, 73u8, 88u8]);
                kw(&a)
            },
            StandardKeyword::Naxis => {
                let a = [78u8, 65u8, 88u8, 73u8, 83u8];
                assert(a@ =~= seq![78u8, 65u8, 88u8, 73u8, 83u8]);
                kw(&a)
            },
            StandardKeyword::Naxis1 => {
                let a = [78u8, 65u8, 88u8, 73u8, 83u8, 49u8];
                assert(a@ =~= seq![78u8, 65u8, 88u8, 73u8, 83u8, 49u8]);
                kw(&a)
            },
            StandardKeyword::Naxis2 => {
                let a = [78u8, 65u8, 88u8, 73u8, 83u8, 50u8];
                assert(a@ =~= seq![78u8, 65u8, 88u8, 73u8, 83u8, 50u8]);
                kw(&a)
            },
            StandardKeyword::Xtension => {
                let a = [88u8, 84u8, 69u8, 78u8, 83u8, 73u8, 79u8, 78u8];
                assert(a@ =~= seq![88u8, 84u8, 69u8, 78u8, 83u8, 73u8, 79u8, 78u8]);
                kw(&a)
            },
            StandardKeyword::Pcount => {
                let a = [80u8, 67u8, 79u8, 85u8, 78u8, 84u8];
                assert(a@ =~= seq![80u8, 67u8, 79u8, 85u8, 78u8, 84u8]);
                kw(&a)
            },
            StandardKeyword::Gcount => {
                let a = [71u8, 67u8, 79u8, 85u8, 78u8, 84u8];
                assert(a@ =~= seq![71u8, 67u8, 79u8, 85u8, 78u8, 84u8]);
                kw(&a)
            },
            StandardKeyword::Tfields => {
                let a = [84u8, 70u8, 73u8, 69u8, 76u8, 68u8, 83u8];
                assert(a@ =~= seq![84u8, 70u8, 73u8, 69u8, 76u8, 68u8, 83u8]);
                kw(&a)
            },
            StandardKeyword::Groups => {
                let a = [71u8, 82u8, 79u8, 85u8, 80u8, 83u8];
                assert(a@ =~= seq![71u8, 82u8, 79u8, 85u8, 80u8, 83u8]);
                kw(&a)
            },
            StandardKeyword::Extname => {
                let a = [69u8, 88u8, 84u8, 78u8, 65u8, 77u8, 69u8];
                assert(a@ =~= seq![69u8, 88u8, 84u8, 78u8, 65u8, 77u8, 69u8]);
                kw(&a)
            },
            StandardKeyword::Zimage => {
                let a = [90u8, 73u8, 77u8, 65u8, 71u8, 69u8];
                assert(a@ =~= seq![90u8, 73u8, 77u8, 65u8, 71u8, 69u8]);
                kw(&a)
            },
            StandardKeyword::Zbitpix => {
                let a = [90u8, 66u8, 73u8, 84u8, 80u8, 73u8, 88u8];
                assert(a@ =~= seq![90u8, 66u8, 73u8, 84u8, 80u8, 73u8, 88u8]);
                kw(&a)
            },
            StandardKeyword::Znaxis => {
                let a = [90u8, 78u8, 65u8, 88u8, 73u8, 83u8];
                assert(a@ =~= seq![90u8, 78u8, 65u8, 88u8, 73u8, 83u8]);
                kw(&a)
            },
            StandardKeyword::CompressionType => {
                let a = [90u8, 67u8, 77u8, 80u8, 84u8, 89u8, 80u8, 69u8];
                assert(a@ =~= seq![90u8, 67u8, 77u8, 80u8, 84u8, 89u8, 80u8, 69u8]);
                kw(&a)
            },
            StandardKeyword::Zval1 => {
                let a = [90u8, 86u8, 65u8, 76u8, 49u8];
                assert(a@ =~= seq![90u8, 86u8, 65u8, 76u8, 49u8]);
                kw(&a)
            },
            StandardKeyword::Zval2 => {
                let a = [90u8, 86u8, 65u8, 76u8, 50u8];
                assert(a@ =~= seq![90u8, 86u8, 65u8, 76u8, 50u8]);
                kw(&a)
            },
        }
    }

    /// The keyword's name, as reported when it is missing.
    pub fn label(&self) -> (r: &'static str)
        ensures
            r == self.spec_label(),
    {
        match self {
            StandardKeyword::Simple => "SIMPLE",
            StandardKeyword::Bitpix => "BITPIX",
            StandardKeyword::Naxis => "NAXIS",
            StandardKeyword::Naxis1 => "NAXIS1",
            StandardKeyword::Naxis2 => "NAXIS2",
            StandardKeyword::Xtension => "XTENSION",
            StandardKeyword::Pcount => "PCOUNT",
            StandardKeyword::Gcount => "GCOUNT",
            StandardKeyword::Tfields => "TFIELDS",
            StandardKeyword::Groups => "GROUPS",
            StandardKeyword::Extname => "EXTNAME",
            StandardKeyword::Zimage => "ZIMAGE",
            StandardKeyword::Zbitpix => "ZBITPIX",
            StandardKeyword::Znaxis => "ZNAXIS",
            StandardKeyword::CompressionType => "ZCMPTYPE",
            StandardKeyword::Zval1 => "ZVAL1",
            StandardKeyword::Zval2 => "ZVAL2",
        }
    }
}

/// Card `i` exists and carries keyword `k`; otherwise `k` is missing.
pub open spec fn check_at(
    cards: Seq<CardModel>,
    i: int,
    k: StandardKeyword,
    rest: core::result::Result<(), Error>,
) -> core::result::Result<(), Error> {
    if 0 <= i < cards.len() && cards[i].keyword == k.spec_keyword() {
        rest
    } else {
        Err(Error::MissingKeyword(k.spec_label()))
    }
}

/// Some card carries keyword `k`; otherwise `k` is missing.
pub open spec fn check_present(
    cards: Seq<CardModel>,
    k: StandardKeyword,
    rest: core::result::Result<(), Error>,
) -> core::result::Result<(), Error> {
    if exists|i: int| 0 <= i < cards.len() && cards[i].keyword == k.spec_keyword() {
        rest
    } else {
        Err(Error::MissingKeyword(k.spec_label()))
    }
}

/// A value condition; its failure makes the header invalid.
pub open spec fn check_value(
    ok: bool,
    rest: core::result::Result<(), Error>,
) -> core::result::Result<(), Error> {
    if ok {
        rest
    } else {
        Err(Error::InvalidHeader)
    }
}

/// The card's value is the string `s` once surrounding whitespace is dropped.
pub open spec fn value_is_string(c: CardModel, s: Seq<char>) -> bool {
    c.value matches Some(ValueModel::Str(t)) && trim(t) == s
}

/// The mandatory keywords of a table extension whose XTENSION is `name`.
pub open spec fn spec_validate_table(
    cards: Seq<CardModel>,
    name: Seq<char>,
) -> core::result::Result<(), Error> {
    check_at(cards, 0, StandardKeyword::Xtension,
    check_value(value_is_string(cards[0], name),
    check_at(cards, 1, StandardKeyword::Bitpix,
    check_value(cards[1].value == Some(ValueModel::Integer(8)),
    check_at(cards, 2, StandardKeyword::Naxis,
    check_value(cards[2].value == Some(ValueModel::Integer(2)),
    check_present(cards, StandardKeyword::Naxis1,
    check_present(cards, StandardKeyword::Naxis2,
    check_present(cards, StandardKeyword::Pcount,
    check_present(cards, StandardKeyword::Gcount,
    check_present(cards, StandardKeyword::Tfields, Ok(()))))))))))))
}

/// The outcome of checking the mandatory keywords of an HDU of type `t`:
/// the first check that fails gives the error.
pub open spec fn spec_validate(t: HduType, cards: Seq<CardModel>) -> core::result::Result<(), Error> {
    match t {
        HduType::Primary =>
            check_at(cards, 0, StandardKeyword::Simple,
            check_value(cards[0].value == Some(ValueModel::Logical(true)),
            check_at(cards, 1, StandardKeyword::Bitpix,
            check_at(cards, 2, StandardKeyword::Naxis, Ok(()))))),
        HduType::Image =>
            check_at(cards, 0, StandardKeyword::Xtension,
            check_value(value_is_string(cards[0], "IMAGE"@),
            check_at(cards, 1, StandardKeyword::Bitpix,
            check_at(cards, 2, StandardKeyword::Naxis,
            check_present(cards, StandardKeyword::Pcount,
            check_present(cards, StandardKeyword::Gcount, Ok(()))))))),
        HduType::AsciiTable => spec_validate_table(cards, "TABLE"@),
        HduType::BinaryTable => spec_validate_table(cards, "BINTABLE"@),
    }
}

/// The index of the first card, from `i` on, whose keyword is `name`.
pub open spec fn first_keyword_from(cards: Seq<CardModel>, name: Seq<u8>, i: int) -> Option<int>
    decreases cards.len() - i,
{
    if i < 0 || i >= cards.len() {
        None
    } else if cards[i].keyword == name {
        Some(i)
    } else {
        first_keyword_from(cards, name, i + 1)
    }
}

/// The index of the first card whose keyword is `name`.
pub open spec fn first_keyword(cards: Seq<CardModel>, name: Seq<u8>) -> Option<int> {
    first_keyword_from(cards, name, 0)
}

/// `first_keyword` finds a card exactly when one carries the keyword, and
/// what it finds carries it.
pub proof fn lemma_first_keyword(cards: Seq<CardModel>, name: Seq<u8>, i: int)
    requires
        0 <= i <= cards.len(),
    ensures
        first_keyword_from(cards, name, i) is None <==> !(exists|j: int| i <= j < cards.len() && cards[j].keyword == name),
        first_keyword_from(cards, name, i) matches Some(j) ==> i <= j < cards.len()
            && cards[j].keyword == name
            && forall|m: int| i <= m < j ==> cards[m].keyword != name,
    decreases cards.len() - i,
{
    if i < cards.len() {
        lemma_first_keyword(cards, name, i + 1);
    }
}

/// The index of the first card whose keyword is `name`.
pub fn find_keyword(cards: &[Card], name: &[u8; 8]) -> (r: Option<usize>)
    ensures
        r matches Some(i) ==> first_keyword(cards_view(cards@), name@) == Some(i as int),
        r is None ==> first_keyword(cards_view(cards@), name@) is None,
        r matches Some(i) ==> i < cards@.len() && cards@[i as int].keyword@ == name@,
{
    let ghost cv = cards_view(cards@);
    let mut i: usize = 0;
    while i < cards.len()
        invariant
            i <= cards@.len(),
            cv == cards_view(cards@),
            first_keyword_from(cv, name@, i as int) == first_keyword(cv, name@),
        decreases cards@.len() - i,
    {
        if keyword_eq(&cards[i].keyword, name) {
            assert(cv[i as int].keyword == name@);
            return Some(i);
        }
        assert(cv[i as int].keyword != name@);
        i += 1;
    }
    None
}

/// A copy of every card, field by field.
pub fn copy_cards(cards: &[Card]) -> (r: Vec<Card>)
    ensures
        cards_view(r@) == cards_view(cards@),
{
    let mut out: Vec<Card> = Vec::new();
    let mut i: usize = 0;
    while i < cards.len()
        invariant
            i <= cards@.len(),
            out@.len() == i,
            forall|j: int| 0 <= j < i ==> #[trigger] out@[j]@ == cards@[j]@,
        decreases cards@.len() - i,
    {
        out.push(cards[i].duplicate());
        i += 1;
    }
    assert(cards_view(out@) =~= cards_view(cards@));
    out
}

/// `prefix` followed by the decimal digits of `n`, as a padded keyword (cut
/// to 8 bytes when longer).
pub open spec fn indexed_keyword(prefix: Seq<u8>, n: nat) -> Seq<u8> {
    kw_pad(prefix + nat_digits(n))
}

/// `prefix` followed by the decimal digits of `n`, as a padded keyword (cut
/// to 8 bytes when longer).
pub fn indexed_keyword_exec(prefix: &[u8], n: u64) -> (r: [u8; 8])
    ensures
        r@ == indexed_keyword(prefix@, n as nat),
{
    let digits = u64_decimal(n);
    let mut name: Vec<u8> = Vec::new();
    let mut i: usize = 0;
    while i < prefix.len()
        invariant
            i <= prefix@.len(),
            name@ == prefix@.subrange(0, i as int),
        decreases prefix@.len() - i,
    {
        name.push(prefix[i]);
        i += 1;
        assert(name@ =~= prefix@.subrange(0, i as int));
    }
    let mut j: usize = 0;
    while j < digits.len()
        invariant
            j <= digits@.len(),
            name@ == prefix@ + digits@.subrange(0, j as int),
        decreases digits@.len() - j,
    {
        name.push(digits[j]);
        j += 1;
        assert(name@ =~= prefix@ + digits@.subrange(0, j as int));
    }
    assert(prefix@.subrange(0, prefix@.len() as int) =~= prefix@);
    assert(digits@.subrange(0, digits@.len() as int) =~= digits@);
    kw(name.as_slice())
}

/// Card `index`, when it carries keyword `k`.
fn require_keyword_at<'a>(cards: &'a [Card], index: usize, k: StandardKeyword) -> (r: Result<&'a Card>)
    ensures
        r matches Ok(c) ==> index < cards@.len() && *c == cards@[index as int]
            && c.keyword@ == k.spec_keyword(),
        r is Err <==> !(index < cards@.len() && cards@[index as int].keyword@ == k.spec_keyword()),
        r matches Err(e) ==> e == Error::MissingKeyword(k.spec_label()),
{
    if index >= cards.len() {
        return Err(Error::MissingKeyword(k.label()));
    }
    let card = &cards[index];
    let expected = k.keyword();
    if !keyword_eq(&card.keyword, &expected) {
        return Err(Error::MissingKeyword(k.label()));
    }
    Ok(card)
}

/// Some card carries keyword `k`.
fn require_keyword_present(cards: &[Card], k: StandardKeyword) -> (r: Result<()>)
    ensures
        r is Ok <==> exists|i: int| 0 <= i < cards@.len() && cards@[i].keyword@ == k.spec_keyword(),
        r matches Err(e) ==> e == Error::MissingKeyword(k.spec_label()),
{
    let expected = k.keyword();
    proof {
        lemma_first_keyword(cards_view(cards@), k.spec_keyword(), 0);
        lemma_present_view(cards@, k);
    }
    match find_keyword(cards, &expected) {
        Some(_) => Ok(()),
        None => Err(Error::MissingKeyword(k.label())),
    }
}

/// The card's value is the logical `expected`.
fn require_logical(card: &Card, expected: bool) -> (r: bool)
    ensures
        r == (card@.value == Some(ValueModel::Logical(expected))),
{
    match &card.value {
        Some(Value::Logical(b)) => *b == expected,
        _ => false,
    }
}

/// The card's value is the integer `expected`.
fn require_integer(card: &Card, expected: i64) -> (r: bool)
    ensures
        r == (card@.value == Some(ValueModel::Integer(expected as int))),
{
    match &card.value {
        Some(Value::Integer(n)) => *n == expected,
        _ => false,
    }
}

/// The card's value is the string `expected`, ignoring surrounding whitespace.
fn require_string(card: &Card, expected: &str) -> (r: bool)
    ensures
        r == value_is_string(card@, expected@),
{
    match &card.value {
        Some(Value::String(s)) => trimmed_equals(s.as_str(), expected),
        _ => false,
    }
}

/// Validate that all mandatory keywords are present and correctly ordered
/// for the given HDU type, per the FITS standard.
pub fn validate_required_keywords(hdu_type: HduType, cards: &[Card]) -> (r: Result<()>)
    ensures
        r is Ok <==> spec_validate(hdu_type, cards_view(cards@)) is Ok,
        r matches Err(e) ==> spec_validate(hdu_type, cards_view(cards@)) == Err::<(), Error>(e),
{
    match hdu_type {
        HduType::Primary => validate_primary(cards),
        HduType::Image => validate_image_extension(cards),
        HduType::AsciiTable => validate_table(cards, "TABLE"),
        HduType::BinaryTable => validate_table(cards, "BINTABLE"),
    }
}

fn validate_primary(cards: &[Card]) -> (r: Result<()>)
    ensures
        r is Ok <==> spec_validate(HduType::Primary, cards_view(cards@)) is Ok,
        r matches Err(e) ==> spec_validate(HduType::Primary, cards_view(cards@)) == Err::<(), Error>(e),
{
    let simple = match require_keyword_at(cards, 0, StandardKeyword::Simple) {
        Ok(c) => c,
        Err(e) => return Err(e),
    };
    if !require_logical(simple, true) {
        return Err(Error::InvalidHeader);
    }
    match require_keyword_at(cards, 1, StandardKeyword::Bitpix) {
        Ok(_) => {},
        Err(e) => return Err(e),
    }
    match require_keyword_at(cards, 2, StandardKeyword::Naxis) {
        Ok(_) => {},
        Err(e) => return Err(e),
    }
    Ok(())
}

fn validate_image_extension(cards: &[Card]) -> (r: Result<()>)
    ensures
        r is Ok <==> spec_validate(HduType::Image, cards_view(cards@)) is Ok,
        r matches Err(e) ==> spec_validate(HduType::Image, cards_view(cards@)) == Err::<(), Error>(e),
{
    let xtension = match require_keyword_at(cards, 0, StandardKeyword::Xtension) {
        Ok(c) => c,
        Err(e) => return Err(e),
    };
    if !require_string(xtension, "IMAGE") {
        return Err(Error::InvalidHeader);
    }
    match require_keyword_at(cards, 1, StandardKeyword::Bitpix) {
        Ok(_) => {},
        Err(e) => return Err(e),
    }
    match require_keyword_at(cards, 2, StandardKeyword::Naxis) {
        Ok(_) => {},
        Err(e) => return Err(e),
    }
    proof { lemma_present_view(cards@, StandardKeyword::Pcount); lemma_present_view(cards@, StandardKeyword::Gcount); }
    match require_keyword_present(cards, StandardKeyword::Pcount) {
        Ok(_) => {},
        Err(e) => return Err(e),
    }
    match require_keyword_present(cards, StandardKeyword::Gcount) {
        Ok(_) => {},
        Err(e) => return Err(e),
    }
    Ok(())
}

/// A keyword occurs among the cards exactly when it occurs among their views.
proof fn lemma_present_view(cards: Seq<Card>, k: StandardKeyword)
    ensures
        (exists|i: int| 0 <= i < cards.len() && cards[i].keyword@ == k.spec_keyword())
            <==> (exists|i: int| 0 <= i < cards_view(cards).len() && cards_view(cards)[i].keyword == k.spec_keyword()),
{
    if exists|i: int| 0 <= i < cards.len() && cards[i].keyword@ == k.spec_keyword() {
        let i = choose|i: int| 0 <= i < cards.len() && cards[i].keyword@ == k.spec_keyword();
        assert(cards_view(cards)[i].keyword == k.spec_keyword());
    }
    if exists|i: int| 0 <= i < cards_view(cards).len() && cards_view(cards)[i].keyword == k.spec_keyword() {
        let i = choose|i: int| 0 <= i < cards_view(cards).len() && cards_view(cards)[i].keyword == k.spec_keyword();
        assert(cards[i].keyword@ == k.spec_keyword());
    }
}

fn validate_table(cards: &[Card], name: &str) -> (r: Result<()>)
    ensures
        r is Ok <==> spec_validate_table(cards_view(cards@), name@) is Ok,
        r matches Err(e) ==> spec_validate_table(cards_view(cards@), name@) == Err::<(), Error>(e),
{
    let xtension = match require_keyword_at(cards, 0, StandardKeyword::Xtension) {
        Ok(c) => c,
        Err(e) => return Err(e),
    };
    if !require_string(xtension, name) {
        return Err(Error::InvalidHeader);
    }
    let bitpix = match require_keyword_at(cards, 1, StandardKeyword::Bitpix) {
        Ok(c) => c,
        Err(e) => return Err(e),
    };
    if !require_integer(bitpix, 8) {
        return Err(Error::InvalidHeader);
    }
    let naxis = match require_keyword_at(cards, 2, StandardKeyword::Naxis) {
        Ok(c) => c,
        Err(e) => return Err(e),
    };
    if !require_integer(naxis, 2) {
        return Err(Error::InvalidHeader);
    }
    proof {
        lemma_present_view(cards@, StandardKeyword::Naxis1);
        lemma_present_view(cards@, StandardKeyword::Naxis2);
        lemma_present_view(cards@, StandardKeyword::Pcount);
        lemma_present_view(cards@, StandardKeyword::Gcount);
        lemma_present_view(cards@, StandardKeyword::Tfields);
    }
    match require_keyword_present(cards, StandardKeyword::Naxis1) {
        Ok(_) => {},
        Err(e) => return Err(e),
    }
    match require_keyword_present(cards, StandardKeyword::Naxis2) {
        Ok(_) => {},
        Err(e) => return Err(e),
    }
    match require_keyword_present(cards, StandardKeyword::Pcount) {
        Ok(_) => {},
        Err(e) => return Err(e),
    }
    match require_keyword_present(cards, StandardKeyword::Gcount) {
        Ok(_) => {},
        Err(e) => return Err(e),
    }
    match require_keyword_present(cards, StandardKeyword::Tfields) {
        Ok(_) => {},
        Err(e) => return Err(e),
    }
    Ok(())
}


// ── Writing and reading back ──

/// Where the value written in a field ends: after a string's closing
/// quote, or after byte 20.
pub open spec fn value_end(v: ValueModel) -> int {
    match v {
        ValueModel::Str(s) => quote_close(s) + 1,
        _ => 20,
    }
}

/// A value whose field reads back as itself: a logical, an `i64` integer,
/// or an ASCII string that fits and does not end in whitespace.
pub open spec fn exact_value(v: ValueModel) -> bool {
    ||| scalar_value(v)
    ||| (v matches ValueModel::Str(s) && exact_string(s))
}

/// A comment that reads back as itself from a place with `room` bytes: not
/// empty, not ending in whitespace, and fitting.
pub open spec fn exact_comment(cm: Seq<char>, room: int) -> bool {
    &&& cm.len() > 0
    &&& trim_end(cm) == cm
    &&& encode_utf8(cm).len() <= room
}

/// The value field of a card, with its comment inserted.
pub open spec fn card_field(v: ValueModel, comment: Option<Seq<char>>) -> Seq<u8> {
    match comment {
        Some(cm) => spec_insert_comment(spec_format_value(v), encode_utf8(cm)),
        None => spec_format_value(v),
    }
}

/// A value field with a comment after a value ending at `end` holds the
/// comment's bytes from `end + 3` on, then spaces.
proof fn lemma_inserted_comment(f: Seq<u8>, cm: Seq<char>, end: int)
    requires
        f.len() == 70,
        (if f[0] == 39 { scan_quoted(f, 1).1 } else { 20 }) == end,
        0 <= end,
        end + 4 < 70,
        forall|j: int| end <= j < 70 ==> #[trigger] f[j] == 32,
        exact_comment(cm, 67 - end),
    ensures
        spec_insert_comment(f, encode_utf8(cm)).len() == 70,
        forall|j: int| 0 <= j <= end ==> #[trigger] spec_insert_comment(f, encode_utf8(cm))[j] == f[j],
        spec_insert_comment(f, encode_utf8(cm))[end + 1] == 47,
        spec_insert_comment(f, encode_utf8(cm))[end + 2] == 32,
        comment_at(spec_insert_comment(f, encode_utf8(cm)).subrange(end, 70), 0) == Some(cm),
{
    let cb = encode_utf8(cm);
    let f2 = spec_insert_comment(f, cb);
    let m = (67 - end - cb.len()) as nat;
    let tail = f2.subrange(end, 70);
    assert(tail.subrange(3, tail.len() as int) =~= cb + Seq::new(m, |i: int| 32u8)) by {
        assert forall|j: int| 0 <= j < tail.len() - 3 implies #[trigger] tail.subrange(3, tail.len() as int)[j]
            == (cb + Seq::new(m, |i: int| 32u8))[j] by {
            assert(tail.subrange(3, tail.len() as int)[j] == f2[end + 3 + j]);
            if j >= cb.len() {
                assert(f[end + 3 + j] == 32);
            }
        }
    }
    lemma_text_then_spaces(cm, m);
    assert(tail[2] == 32);
}

/// A value field with its comment reads back as the value and the comment.
proof fn lemma_field_roundtrip(v: ValueModel, comment: Option<Seq<char>>)
    requires
        exact_value(v),
        comment matches Some(cm) ==> value_end(v) + 4 < 70 && exact_comment(cm, 67 - value_end(v)),
    ensures
        spec_parse_value(card_field(v, comment)) == Some((v, comment)),
{
    match comment {
        None => {
            match v {
                ValueModel::Logical(b) => lemma_logical_roundtrip(b),
                ValueModel::Integer(n) => lemma_integer_roundtrip(n as i64),
                ValueModel::Str(s) => lemma_string_roundtrip(s),
                _ => {},
            }
        },
        Some(cm) => {
            let f = spec_format_value(v);
            let end = value_end(v);
            if scalar_value(v) {
                lemma_scalar_field(v);
                lemma_inserted_comment(f, cm, end);
                let f2 = card_field(v, comment);
                assert forall|j: int| 0 <= j < 20 implies !(f2[j] == 32 && #[trigger] f2[j + 1] == 47) by {
                    assert(f2[j + 1] == f[j + 1]);
                }
                lemma_find_sep_at(f2, 0, 20);
                assert(value_part(f2) =~= f.subrange(0, 20));
                lemma_unquoted(f2, scalar_text(v));
                assert(comment_of(f2) == comment_at(f2, 20));
                assert(f2.subrange(20, 70).subrange(3, 50) =~= f2.subrange(23, 70));
            } else {
                let s = v->Str_0;
                lemma_string_scan(s, f);
                lemma_inserted_comment(f, cm, end);
                let f2 = card_field(v, comment);
                assert forall|j: int| 0 <= j < quote_close(s) + 2 && j < 70 implies f2[j] == #[trigger] quoted_field(s)[j] by {}
                lemma_string_scan(s, f2);
                let tail = f2.subrange(end, 70);
                lemma_find_sep_at(tail, 0, 0);
            }
        },
    }
}

/// A card whose image reads back as itself: a valid keyword other than
/// `END`; with a value, a keyword that is not commentary, an exact value and
/// a comment (if any) that fits after it; without a value, a comment only on
/// a `COMMENT` or `HISTORY` card, fitting the 72 bytes after the keyword.
pub open spec fn exact_card(c: CardModel) -> bool {
    &&& c.keyword.len() == 8
    &&& forall|i: int| 0 <= i < 8 ==> is_keyword_byte(#[trigger] c.keyword[i])
    &&& c.keyword != end_keyword()
    &&& match c.value {
        Some(v) => {
            &&& !is_commentary_keyword(c.keyword)
            &&& exact_value(v)
            &&& (c.comment matches Some(cm) ==> value_end(v) + 4 < 70 && exact_comment(cm, 67 - value_end(v)))
        },
        None => c.comment matches Some(cm) ==> is_commentary_keyword(c.keyword) && c.keyword != spaces(8)
            && exact_comment(cm, 72),
    }
}

/// A card with a value reads back as itself.
proof fn lemma_value_card_roundtrip(c: CardModel, v: ValueModel)
    requires
        exact_card(c),
        c.value == Some(v),
    ensures
        spec_format_card(c).len() == 80,
        spec_parse_card(spec_format_card(c)) == Ok::<CardModel, Error>(c),
{
    let b = spec_format_card(c);
    lemma_field_roundtrip(v, c.comment);
    let f2 = card_field(v, c.comment);
    assert(b == c.keyword + seq![61u8, 32u8] + f2);
    if scalar_value(v) {
        lemma_scalar_field(v);
    } else {
        lemma_string_scan(v->Str_0, spec_format_value(v));
    }
    if c.comment is Some {
        lemma_inserted_comment(spec_format_value(v), c.comment.unwrap(), value_end(v));
    }
    assert(f2.len() == 70);
    assert(b.subrange(0, 8) =~= c.keyword);
    assert(b.subrange(10, 80) =~= f2);
}

/// A card without a value reads back as itself.
proof fn lemma_text_card_roundtrip(c: CardModel)
    requires
        exact_card(c),
        c.value is None,
    ensures
        spec_format_card(c).len() == 80,
        spec_parse_card(spec_format_card(c)) == Ok::<CardModel, Error>(c),
{
    let b = spec_format_card(c);
    let len: int = match c.comment {
        Some(cm) => encode_utf8(cm).len() as int,
        None => 0,
    };
    let t: Seq<char> = match c.comment {
        Some(cm) => cm,
        None => Seq::empty(),
    };
    assert(encode_utf8(Seq::<char>::empty()) =~= Seq::<u8>::empty());
    if c.comment is Some {
        assert(encode_utf8(t).subrange(0, len) =~= encode_utf8(t));
    }
    assert(b.subrange(0, 8) =~= c.keyword);
    assert(b.subrange(8, 80) =~= encode_utf8(t) + Seq::new((72 - len) as nat, |i: int| 32u8));
    lemma_text_then_spaces(t, (72 - len) as nat);
    if c.comment is None {
        assert(b[8] == 32);
    }
}

/// Formatting a card and parsing the image back gives the card.
pub proof fn lemma_card_roundtrip(c: CardModel)
    requires
        exact_card(c),
    ensures
        spec_format_card(c).len() == 80,
        spec_parse_card(spec_format_card(c)) == Ok::<CardModel, Error>(c),
{
    match c.value {
        Some(v) => lemma_value_card_roundtrip(c, v),
        None => lemma_text_card_roundtrip(c),
    }
}

/// The `END` card.
pub open spec fn end_card() -> CardModel {
    CardModel { keyword: end_keyword(), value: None, comment: None }
}

/// The image of the `END` card reads back as the `END` card.
proof fn lemma_end_card_parse()
    ensures
        spec_parse_card(end_keyword() + spaces(72)) == Ok::<CardModel, Error>(end_card()),
{
    let b = end_keyword() + spaces(72);
    assert(b.subrange(0, 8) =~= end_keyword());
}

/// The cards of a serialized header from card `i` on read back as the
/// written cards from `i` on, then the `END` card.
proof fn lemma_parse_serialized(cards: Seq<CardModel>, i: int, n: int)
    requires
        forall|k: int| 0 <= k < cards.len() ==> exact_card(#[trigger] cards[k]),
        0 <= i <= cards.len(),
        cards.len() < n,
        80 * n <= spec_serialize_header(cards).len(),
    ensures
        spec_parse_cards(spec_serialize_header(cards), i, n) == Ok::<Seq<CardModel>, Error>(
            cards.subrange(i, cards.len() as int).push(end_card())),
    decreases cards.len() - i,
{
    let data = spec_serialize_header(cards);
    let m = cards.len() as int;
    let img = data.subrange(80 * i, 80 * i + 80);
    if i == m {
        assert forall|j: int| 0 <= j < 80 implies img[j] == (end_keyword() + spaces(72))[j] by {
            assert(80 * i + j >= 80 * m);
            assert(80 * i + j < 80 * m + 80);
        }
        assert(img =~= end_keyword() + spaces(72));
        lemma_end_card_parse();
        assert(cards.subrange(i, m).push(end_card()) =~= seq![end_card()]);
    } else {
        let c = cards[i];
        lemma_card_roundtrip(c);
        assert forall|j: int| 0 <= j < 80 implies img[j] == spec_format_card(c)[j] by {
            let p = 80 * i + j;
            assert(p / 80 == i && p % 80 == j) by (nonlinear_arith) requires p == 80 * i + j, 0 <= j < 80;
            assert(p < 80 * m) by (nonlinear_arith) requires p == 80 * i + j, j < 80, i + 1 <= m;
        }
        assert(img =~= spec_format_card(c));
        lemma_parse_serialized(cards, i + 1, n);
        assert(seq![c] + cards.subrange(i + 1, m).push(end_card()) =~= cards.subrange(i, m).push(end_card()));
    }
}

/// Serializing cards that each read back as themselves, and parsing the
/// header back, gives the cards followed by the `END` card.
pub proof fn lemma_header_roundtrip(cards: Seq<CardModel>)
    requires
        forall|k: int| 0 <= k < cards.len() ==> exact_card(#[trigger] cards[k]),
    ensures
        spec_parse_header(spec_serialize_header(cards)) == Ok::<Seq<CardModel>, Error>(cards.push(end_card())),
{
    let data = spec_serialize_header(cards);
    let m = cards.len() as int;
    let raw = 80 * (m + 1);
    crate::block::lemma_padded_len_bounds(raw);
    let total = crate::block::spec_padded_len(raw);
    assert(data.len() == total);
    let q = total / 2880;
    assert(total == q * 2880) by (nonlinear_arith) requires total % 2880 == 0, q == total / 2880;
    assert(total >= 2880) by (nonlinear_arith) requires total >= raw, raw >= 80, total % 2880 == 0;
    let n = cards_in_blocks(total);
    assert(n == q * 36);
    assert(80 * n == total) by (nonlinear_arith) requires n == q * 36, total == q * 2880;
    assert(m < n) by (nonlinear_arith) requires 80 * n == total, total >= 80 * (m + 1);
    lemma_parse_serialized(cards, 0, n);
    assert(cards.subrange(0, m) =~= cards);
}

/// A header parsed from cards `i..n` holds at most `n - i` cards.
pub proof fn lemma_parse_cards_count(data: Seq<u8>, i: int, n: int)
    ensures
        spec_parse_cards(data, i, n) matches Ok(cs) ==> cs.len() <= n - i,
    decreases n - i,
{
    if 0 <= i < n {
        lemma_parse_cards_count(data, i + 1, n);
    }
}

/// A parsed header holds at most one card per 80 bytes.
pub proof fn lemma_parse_header_count(data: Seq<u8>)
    ensures
        spec_parse_header(data) matches Ok(cs) ==> 80 * cs.len() <= data.len(),
{
    if data.len() >= 2880 {
        lemma_parse_cards_count(data, 0, cards_in_blocks(data.len() as int));
        let q = data.len() / 2880;
        assert(80 * (q * 36) <= data.len()) by (nonlinear_arith) requires q == data.len() / 2880, data.len() >= 0;
    }
}

/// The END card found is among the first `n`.
proof fn lemma_first_end_card_bound(data: Seq<u8>, i: int, n: int)
    ensures
        first_end_card(data, i, n) matches Some(k) ==> 0 <= i <= k < n,
    decreases n - i,
{
    if 0 <= i < n {
        lemma_first_end_card_bound(data, i + 1, n);
    }
}

/// The header length lies within the data.
pub proof fn lemma_header_byte_len_bound(data: Seq<u8>)
    ensures
        spec_header_byte_len(data) matches Ok(hl) ==> hl <= data.len(),
{
    if data.len() >= 2880 {
        let n = cards_in_blocks(data.len() as int);
        lemma_first_end_card_bound(data, 0, n);
        if let Some(k) = first_end_card(data, 0, n) {
            let q = data.len() / 2880;
            assert((k / 36 + 1) * 2880 <= data.len()) by (nonlinear_arith)
                requires 0 <= k < q * 36, q == data.len() / 2880, data.len() >= 0;
        }
    }
}

/// Whether card slot `k` of `data` holds the `END` keyword.
pub open spec fn end_slot(data: Seq<u8>, k: int) -> bool {
    data.subrange(80 * k, 80 * k + 8) == end_keyword()
}

/// The first `END` card slot from `i` on, if any before `n`.
proof fn lemma_first_end_card_is_first(data: Seq<u8>, i: int, n: int)
    requires
        0 <= i,
    ensures
        first_end_card(data, i, n) matches Some(k) ==> i <= k < n && end_slot(data, k)
            && forall|j: int| i <= j < k ==> !#[trigger] end_slot(data, j),
        first_end_card(data, i, n) is None ==> forall|j: int| i <= j < n ==> !#[trigger] end_slot(data, j),
    decreases n - i,
{
    if i < n {
        lemma_first_end_card_is_first(data, i + 1, n);
    }
}

/// The first `END` card slot from `i` on, if any before `n`.
pub(crate) proof fn lemma_first_end_card_is_first_pub(data: Seq<u8>, i: int, n: int)
    requires
        0 <= i,
    ensures
        first_end_card(data, i, n) matches Some(k) ==> i <= k < n && end_slot(data, k)
            && forall|j: int| i <= j < k ==> !#[trigger] end_slot(data, j),
        first_end_card(data, i, n) is None ==> forall|j: int| i <= j < n ==> !#[trigger] end_slot(data, j),
{
    lemma_first_end_card_is_first(data, i, n);
}

/// A header ends with the block that holds its first `END` card: its
/// length is the whole blocks up to and including the block of the first
/// card slot whose keyword is `END`. With fewer bytes than one block, or
/// no such slot in the complete blocks, there is no header.
pub proof fn lemma_header_ends_with_end_block(data: Seq<u8>)
    requires
        data.len() <= usize::MAX,
    ensures
        spec_header_byte_len(data) matches Ok(n) ==> exists|k: int| 0 <= k < cards_in_blocks(data.len() as int)
            && #[trigger] end_slot(data, k) && (forall|j: int| 0 <= j < k ==> !#[trigger] end_slot(data, j))
            && n == (k / 36 + 1) * 2880,
        spec_header_byte_len(data) matches Ok(n) ==> n % 2880 == 0 && 0 < n <= data.len(),
        spec_header_byte_len(data) is Err <==> data.len() < 2880
            || forall|j: int| 0 <= j < cards_in_blocks(data.len() as int) ==> !#[trigger] end_slot(data, j),
{
    if data.len() >= 2880 {
        let n = cards_in_blocks(data.len() as int);
        lemma_first_end_card_is_first(data, 0, n);
        lemma_header_byte_len_bound(data);
        if let Some(k) = first_end_card(data, 0, n) {
            let q = data.len() / 2880;
            assert((k / 36 + 1) * 2880 <= data.len()) by (nonlinear_arith)
                requires 0 <= k < q * 36, q == data.len() / 2880, data.len() >= 0;
            assert(((k / 36 + 1) * 2880) % 2880 == 0) by (nonlinear_arith) requires k >= 0;
            assert((k / 36 + 1) * 2880 > 0) by (nonlinear_arith) requires k >= 0;
            assert(end_slot(data, k));
        }
    }
}

} // verus!
