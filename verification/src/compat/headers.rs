//! Header keywords of the `fitsio`-style API: reading a keyword's value
//! from an HDU of a file.
use vstd::prelude::*;
use vstd::utf8::{decode_utf8, encode_utf8, valid_utf8};

use super::errors::{Error, Result};
use super::fitsfile::FitsFile;
use super::hdu::FitsHdu;
use crate::block::{lemma_padded_len_bounds, padded_byte_len, spec_padded_len};
use crate::hdu::{hdus_view, parse_fits, spec_parse_fits, FitsData, Hdu, HduModel};
use crate::header::{cards_view, end_keyword, keyword_trimmed, kw, kw_pad, serialize_header, spec_serialize_header, Card, CardModel};
use crate::text::{ascii_chars, chars_of, int_decimal, string_from_bytes, string_from_chars, text_equals, trim, trim_bounds, u64_decimal};
use crate::value::{Value, ValueModel};

verus! {

/// A header value with an optional comment.
#[derive(Debug, Clone, PartialEq)]
pub struct HeaderValue<T> {
    pub value: T,
    pub comment: Option<String>,
}

/// The name of a card's keyword: its bytes without trailing spaces, decoded
/// (empty when they are not UTF-8).
pub open spec fn card_name(c: CardModel) -> Seq<char> {
    if valid_utf8(keyword_trimmed(c.keyword)) {
        decode_utf8(keyword_trimmed(c.keyword))
    } else {
        Seq::empty()
    }
}

/// The value of the first card, from `i` on, named `name` that has a value.
pub open spec fn named_value(cards: Seq<CardModel>, name: Seq<char>, i: int) -> Option<ValueModel>
    decreases cards.len() - i,
{
    if i < 0 || i >= cards.len() {
        None
    } else if card_name(cards[i]) == name && cards[i].value is Some {
        cards[i].value
    } else {
        named_value(cards, name, i + 1)
    }
}

/// What looking up a keyword of an HDU of a file finds.
pub enum KeyLookup {
    /// The file's bytes do not parse.
    Unreadable(crate::error::Error),
    /// The file has no HDU of that index.
    NoHdu,
    /// The HDU has no card of that name with a value.
    NoKey,
    /// The value of the first such card.
    Found(ValueModel),
}

/// Looking up keyword `name` in HDU `index` of a file with bytes `data`.
pub open spec fn key_lookup(data: Seq<u8>, index: int, name: Seq<char>) -> KeyLookup {
    match spec_parse_fits(data) {
        Err(e) => KeyLookup::Unreadable(e),
        Ok(hs) => if index >= hs.len() {
            KeyLookup::NoHdu
        } else {
            match named_value(hs[index].cards, name, 0) {
                Some(v) => KeyLookup::Found(v),
                None => KeyLookup::NoKey,
            }
        },
    }
}

/// The message for a missing HDU.
pub open spec fn no_hdu_message(index: int) -> Seq<char> {
    "HDU index "@ + ascii_chars(int_decimal(index)) + " not found"@
}

/// The message for a missing keyword.
pub open spec fn no_key_message(name: Seq<char>) -> Seq<char> {
    "keyword '"@ + name + "' not found"@
}

/// The message for a keyword whose value is of another kind.
pub open spec fn wrong_kind_message(name: Seq<char>, kind: Seq<char>) -> Seq<char> {
    "keyword '"@ + name + "' is not "@ + kind
}

/// The error, if any, that a lookup gives before the value's kind matters.
pub open spec fn lookup_failed(k: KeyLookup, index: int, name: Seq<char>, r: Error) -> bool {
    match k {
        KeyLookup::Unreadable(e) => r matches Error::Fits(f) && f == e,
        KeyLookup::NoHdu => r matches Error::Message(m) && m@ == no_hdu_message(index),
        KeyLookup::NoKey => r matches Error::Message(m) && m@ == no_key_message(name),
        KeyLookup::Found(_) => false,
    }
}

/// A message that joins `a`, `b` and `c`.
fn message3(a: &str, b: &str, c: &str) -> (r: String)
    ensures
        r@ == a@ + b@ + c@,
{
    let mut s = String::from_str(a);
    s.append(b);
    s.append(c);
    s
}

/// Read card values of the HDU: the value of the first card named `name`
/// that has one.
fn find_card_value(file: &FitsFile, hdu: &FitsHdu, name: &str) -> (r: Result<Value>)
    requires
        file@.data.len() + 2880 <= usize::MAX,
    ensures
        match key_lookup(file@.data, hdu.hdu_index as int, name@) {
            KeyLookup::Found(v) => r matches Ok(x) && x@ == v,
            k => r matches Err(e) && lookup_failed(k, hdu.hdu_index as int, name@, e),
        },
{
    let fits_data = match parse_fits(file.data()) {
        Ok(f) => f,
        Err(e) => return Err(Error::Fits(e)),
    };
    if hdu.hdu_index >= fits_data.hdus.len() {
        let digits = u64_decimal(hdu.hdu_index as u64);
        let d = string_from_bytes(digits.as_slice());
        proof {
            reveal_strlit("HDU index ");
            reveal_strlit(" not found");
        }
        return Err(Error::Message(message3("HDU index ", d.as_str(), " not found")));
    }
    let core_hdu = &fits_data.hdus[hdu.hdu_index];
    match first_value(core_hdu.cards.as_slice(), name) {
        Some(v) => Ok(v),
        None => Err(Error::Message(message3("keyword '", name, "' not found"))),
    }
}

/// The value of the first card named `name` that has a value.
fn first_value(cards: &[Card], name: &str) -> (r: Option<Value>)
    ensures
        r matches Some(v) ==> named_value(cards_view(cards@), name@, 0) == Some(v@),
        r is None ==> named_value(cards_view(cards@), name@, 0) is None,
{
    let ghost cv = cards_view(cards@);
    let mut i: usize = 0;
    while i < cards.len()
        invariant
            i <= cards@.len(),
            cv == cards_view(cards@),
            named_value(cv, name@, 0) == named_value(cv, name@, i as int),
        decreases cards@.len() - i,
    {
        let card = &cards[i];
        assert(cv[i as int] == card@);
        if text_equals(card.keyword_str(), name) {
            match &card.value {
                Some(v) => {
                    return Some(crate::header::copy_value(v));
                },
                None => {},
            }
        }
        i += 1;
    }
    None
}

/// Trait for types that can be read from a FITS header card.
pub trait ReadsKey: Sized {
    /// The kind of keyword value this type is read from, as error messages
    /// name it.
    spec fn kind_name() -> Seq<char>;

    /// Whether a keyword value is of the kind this type is read from.
    spec fn accepts(v: ValueModel) -> bool;

    /// Whether a keyword value of that kind reads as `x`.
    spec fn reads_as(v: ValueModel, x: Self) -> bool;

    /// Read keyword `name` of the HDU: the value of the first card of that
    /// name with a value, when it is of this type's kind.
    fn read_key(file: &FitsFile, hdu: &FitsHdu, name: &str) -> (r: Result<Self>)
        requires
            file@.data.len() + 2880 <= usize::MAX,
        ensures
            match key_lookup(file@.data, hdu.hdu_index as int, name@) {
                KeyLookup::Found(v) => if Self::accepts(v) {
                    r matches Ok(x) && Self::reads_as(v, x)
                } else {
                    r matches Err(Error::Message(m)) && m@ == wrong_kind_message(name@, Self::kind_name())
                },
                k => r matches Err(e) && lookup_failed(k, hdu.hdu_index as int, name@, e),
            };
}

impl ReadsKey for i64 {
    open spec fn kind_name() -> Seq<char> {
        "an integer"@
    }

    open spec fn accepts(v: ValueModel) -> bool {
        v is Integer
    }

    open spec fn reads_as(v: ValueModel, x: Self) -> bool {
        v == ValueModel::Integer(x as int)
    }

    /// An integer keyword.
    fn read_key(file: &FitsFile, hdu: &FitsHdu, name: &str) -> (r: Result<Self>)
        ensures
            match key_lookup(file@.data, hdu.hdu_index as int, name@) {
                KeyLookup::Found(ValueModel::Integer(n)) => r == Ok::<i64, Error>(n as i64),
                KeyLookup::Found(_) => r matches Err(Error::Message(m)) && m@ == wrong_kind_message(name@, "an integer"@),
                k => r matches Err(e) && lookup_failed(k, hdu.hdu_index as int, name@, e),
            },
    {
        match find_card_value(file, hdu, name) {
            Ok(Value::Integer(n)) => Ok(n),
            Ok(_) => {
                proof {
                    reveal_strlit("' is not an integer");
                    reveal_strlit("' is not ");
                    reveal_strlit("an integer");
                }
                assert("' is not an integer"@ =~= "' is not "@ + "an integer"@);
                Err(Error::Message(message3("keyword '", name, "' is not an integer")))
            },
            Err(e) => Err(e),
        }
    }
}

impl ReadsKey for bool {
    open spec fn kind_name() -> Seq<char> {
        "a logical"@
    }

    open spec fn accepts(v: ValueModel) -> bool {
        v is Logical
    }

    open spec fn reads_as(v: ValueModel, x: Self) -> bool {
        v == ValueModel::Logical(x)
    }

    /// A logical keyword.
    fn read_key(file: &FitsFile, hdu: &FitsHdu, name: &str) -> (r: Result<Self>)
        ensures
            match key_lookup(file@.data, hdu.hdu_index as int, name@) {
                KeyLookup::Found(ValueModel::Logical(b)) => r == Ok::<bool, Error>(b),
                KeyLookup::Found(_) => r matches Err(Error::Message(m)) && m@ == wrong_kind_message(name@, "a logical"@),
                k => r matches Err(e) && lookup_failed(k, hdu.hdu_index as int, name@, e),
            },
    {
        match find_card_value(file, hdu, name) {
            Ok(Value::Logical(b)) => Ok(b),
            Ok(_) => {
                proof {
                    reveal_strlit("' is not a logical");
                    reveal_strlit("' is not ");
                    reveal_strlit("a logical");
                }
                assert("' is not a logical"@ =~= "' is not "@ + "a logical"@);
                Err(Error::Message(message3("keyword '", name, "' is not a logical")))
            },
            Err(e) => Err(e),
        }
    }
}

impl ReadsKey for String {
    open spec fn kind_name() -> Seq<char> {
        "a string"@
    }

    open spec fn accepts(v: ValueModel) -> bool {
        v is Str
    }

    open spec fn reads_as(v: ValueModel, x: Self) -> bool {
        v matches ValueModel::Str(s) && x@ == trim(s)
    }

    /// A string keyword, without surrounding whitespace.
    fn read_key(file: &FitsFile, hdu: &FitsHdu, name: &str) -> (r: Result<Self>)
        ensures
            match key_lookup(file@.data, hdu.hdu_index as int, name@) {
                KeyLookup::Found(ValueModel::Str(s)) => r matches Ok(t) && t@ == trim(s),
                KeyLookup::Found(_) => r matches Err(Error::Message(m)) && m@ == wrong_kind_message(name@, "a string"@),
                k => r matches Err(e) && lookup_failed(k, hdu.hdu_index as int, name@, e),
            },
    {
        match find_card_value(file, hdu, name) {
            Ok(Value::String(s)) => {
                let cs = chars_of(s.as_str());
                let (b, e) = trim_bounds(cs.as_slice(), 0, cs.len());
                assert(cs@.subrange(0, cs@.len() as int) =~= cs@);
                let sl = cs.as_slice();
                Ok(string_from_chars(&sl[b..e]))
            },
            Ok(_) => {
                proof {
                    reveal_strlit("' is not a string");
                    reveal_strlit("' is not ");
                    reveal_strlit("a string");
                }
                assert("' is not a string"@ =~= "' is not "@ + "a string"@);
                Err(Error::Message(message3("keyword '", name, "' is not a string")))
            },
            Err(e) => Err(e),
        }
    }
}

// ── Writing keywords ──

/// The keyword written for a name: its first 8 bytes, padded with spaces.
pub open spec fn key_keyword(name: Seq<char>) -> Seq<u8> {
    kw_pad(encode_utf8(name))
}

/// The index of the first card, from `i` on, named `name`.
pub open spec fn first_named_card(cards: Seq<CardModel>, name: Seq<char>, i: int) -> Option<int>
    decreases cards.len() - i,
{
    if i < 0 || i >= cards.len() {
        None
    } else if card_name(cards[i]) == name {
        Some(i)
    } else {
        first_named_card(cards, name, i + 1)
    }
}

/// The index of the first `END` card from `i` on.
pub open spec fn first_end(cards: Seq<CardModel>, i: int) -> Option<int>
    decreases cards.len() - i,
{
    if i < 0 || i >= cards.len() {
        None
    } else if cards[i].keyword == end_keyword() {
        Some(i)
    } else {
        first_end(cards, i + 1)
    }
}

/// The cards after writing `v` under `name`: the first card of that name
/// takes the value; without one, a new card goes before the `END` card (or
/// last, when there is none).
pub open spec fn with_key(cards: Seq<CardModel>, name: Seq<char>, v: ValueModel) -> Seq<CardModel> {
    match first_named_card(cards, name, 0) {
        Some(j) => cards.update(j, CardModel { keyword: cards[j].keyword, value: Some(v), comment: cards[j].comment }),
        None => {
            let c = CardModel { keyword: key_keyword(name), value: Some(v), comment: None };
            match first_end(cards, 0) {
                Some(e) => cards.insert(e, c),
                None => cards.push(c),
            }
        },
    }
}

/// The cards other than `END` cards, in order.
pub open spec fn without_end(cards: Seq<CardModel>) -> Seq<CardModel>
    decreases cards.len(),
{
    if cards.len() == 0 {
        Seq::empty()
    } else if cards.last().keyword == end_keyword() {
        without_end(cards.drop_last())
    } else {
        without_end(cards.drop_last()).push(cards.last())
    }
}

/// Bytes padded with zeros to whole blocks.
pub open spec fn padded_data(raw: Seq<u8>) -> Seq<u8> {
    raw + Seq::new((spec_padded_len(raw.len() as int) - raw.len()) as nat, |i: int| 0u8)
}

/// An HDU written again: its header without `END` cards (serializing adds
/// one), then its data from `old`, padded, when it has data inside `old`.
pub open spec fn hdu_bytes(h: HduModel, old: Seq<u8>) -> Seq<u8> {
    spec_serialize_header(without_end(h.cards)) + if h.data_len > 0 && h.data_start + h.data_len <= old.len() {
        padded_data(old.subrange(h.data_start, h.data_start + h.data_len))
    } else {
        Seq::empty()
    }
}

/// HDUs written again, one after another.
pub open spec fn rebuilt(hdus: Seq<HduModel>, old: Seq<u8>) -> Seq<u8>
    decreases hdus.len(),
{
    if hdus.len() == 0 {
        Seq::empty()
    } else {
        rebuilt(hdus.drop_last(), old) + hdu_bytes(hdus.last(), old)
    }
}

/// The cards other than `END` cards.
fn cards_without_end(cards: &[Card]) -> (r: Vec<Card>)
    ensures
        cards_view(r@) == without_end(cards_view(cards@)),
        r@.len() <= cards@.len(),
{
    let ghost cv = cards_view(cards@);
    let mut out: Vec<Card> = Vec::new();
    let mut i: usize = 0;
    while i < cards.len()
        invariant
            i <= cards@.len(),
            cv == cards_view(cards@),
            cards_view(out@) == without_end(cv.subrange(0, i as int)),
            out@.len() <= i,
        decreases cards@.len() - i,
    {
        let c = &cards[i];
        assert(cv.subrange(0, i + 1).drop_last() =~= cv.subrange(0, i as int));
        assert(cv.subrange(0, i + 1).last() == c@);
        if !c.is_end() {
            out.push(c.duplicate());
            assert(cards_view(out@) =~= without_end(cv.subrange(0, i as int)).push(c@));
        }
        i += 1;
    }
    assert(cv.subrange(0, cards@.len() as int) =~= cv);
    out
}

/// Write the HDUs of `fits_data` again, with the data of each taken from
/// the file's bytes, in place of the file's bytes.
fn rebuild_fits_data(file: &mut FitsFile, fits_data: &FitsData) -> (r: Result<()>)
    requires
        old(file)@.data.len() + 2880 <= usize::MAX,
        forall|k: int| 0 <= k < fits_data.hdus@.len() ==> 80 * ((#[trigger] fits_data.hdus@[k]).cards@.len() + 1) + 2880 <= usize::MAX,
    ensures
        r is Ok,
        final(file)@.data == rebuilt(hdus_view(fits_data.hdus@), old(file)@.data),
        final(file)@.filename == old(file)@.filename,
        final(file)@.mode == old(file)@.mode,
{
    let ghost hs = hdus_view(fits_data.hdus@);
    let ghost start = file@.data;
    let mut new_data: Vec<u8> = Vec::new();
    let mut i: usize = 0;
    while i < fits_data.hdus.len()
        invariant
            i <= fits_data.hdus@.len(),
            hs == hdus_view(fits_data.hdus@),
            start == file@.data,
            start.len() + 2880 <= usize::MAX,
            forall|k: int| 0 <= k < fits_data.hdus@.len() ==> 80 * ((#[trigger] fits_data.hdus@[k]).cards@.len() + 1) + 2880 <= usize::MAX,
            new_data@ == rebuilt(hs.subrange(0, i as int), start),
        decreases fits_data.hdus@.len() - i,
    {
        let hdu = &fits_data.hdus[i];
        assert(hs[i as int] == hdu@);
        assert(hs.subrange(0, i + 1).drop_last() =~= hs.subrange(0, i as int));
        let kept = cards_without_end(hdu.cards.as_slice());
        let header_bytes = serialize_header(kept.as_slice());
        new_data.extend_from_slice(header_bytes.as_slice());
        let data = file.data();
        if hdu.data_len > 0 && hdu.data_len <= data.len() && hdu.data_start <= data.len() - hdu.data_len {
            let data_end = hdu.data_start + hdu.data_len;
            let raw = vstd::slice::slice_subrange(data, hdu.data_start, data_end);
            proof { lemma_padded_len_bounds(raw@.len() as int); }
            let padded_len = padded_byte_len(raw.len());
            new_data.extend_from_slice(raw);
            let mut k: usize = raw.len();
            while k < padded_len
                invariant
                    raw@.len() <= k <= padded_len,
                    new_data@ == rebuilt(hs.subrange(0, i as int), start) + header_bytes@ + raw@
                        + Seq::new((k - raw@.len()) as nat, |j: int| 0u8),
                decreases padded_len - k,
            {
                new_data.push(0u8);
                k += 1;
                assert(new_data@ =~= rebuilt(hs.subrange(0, i as int), start) + header_bytes@ + raw@
                    + Seq::new((k - raw@.len()) as nat, |j: int| 0u8));
            }
            assert(new_data@ =~= rebuilt(hs.subrange(0, i + 1), start));
        } else {
            assert(new_data@ =~= rebuilt(hs.subrange(0, i + 1), start));
        }
        i += 1;
    }
    assert(hs.subrange(0, fits_data.hdus@.len() as int) =~= hs);
    file.set_data(new_data);
    Ok(())
}

/// The cards with `value` written under `name`.
fn set_key_in(cards: Vec<Card>, name: &str, value: Value) -> (r: Vec<Card>)
    ensures
        cards_view(r@) == with_key(cards_view(cards@), name@, value@),
        r@.len() <= cards@.len() + 1,
{
    let ghost cv = cards_view(cards@);
    let ghost orig = cards@;
    let mut cs = cards;
    let mut i: usize = 0;
    while i < cs.len()
        invariant
            i <= cs@.len(),
            cs@ == orig,
            cards@ == orig,
            cv == cards_view(orig),
            first_named_card(cv, name@, 0) == first_named_card(cv, name@, i as int),
        decreases cs@.len() - i,
    {
        assert(cv[i as int] == cs@[i as int]@);
        if text_equals(cs[i].keyword_str(), name) {
            let c = cs.remove(i);
            let ghost cm = c@;
            let updated = Card { keyword: c.keyword, value: Some(value), comment: c.comment };
            cs.insert(i, updated);
            assert(cs@ =~= orig.update(i as int, updated));
            assert(cards_view(cs@) =~= with_key(cv, name@, value@));
            return cs;
        }
        i += 1;
    }
    let keyword = kw(name.as_bytes());
    let new_card = Card { keyword, value: Some(value), comment: None };
    let mut e: usize = 0;
    while e < cs.len()
        invariant
            e <= cs@.len(),
            cs@ == orig,
            cards@ == orig,
            cv == cards_view(orig),
            first_named_card(cv, name@, 0) is None,
            first_end(cv, 0) == first_end(cv, e as int),
            new_card@ == (CardModel { keyword: key_keyword(name@), value: Some(value@), comment: None }),
        decreases cs@.len() - e,
    {
        assert(cv[e as int] == cs@[e as int]@);
        if cs[e].is_end() {
            cs.insert(e, new_card);
            assert(cards_view(cs@) =~= with_key(cv, name@, value@));
            return cs;
        }
        e += 1;
    }
    cs.push(new_card);
    assert(cards_view(cs@) =~= with_key(cv, name@, value@));
    cs
}

/// The HDUs of a file after writing `v` under `name` in HDU `index`.
pub open spec fn hdus_with_key(hs: Seq<HduModel>, index: int, name: Seq<char>, v: ValueModel) -> Seq<HduModel> {
    hs.update(index, HduModel { cards: with_key(hs[index].cards, name, v), ..hs[index] })
}

/// Write `value` under `name` in the HDU, and write the file's HDUs again.
fn write_key_to_file(file: &mut FitsFile, hdu: &FitsHdu, name: &str, value: Value) -> (r: Result<()>)
    requires
        old(file)@.data.len() + 2 * 2880 <= usize::MAX,
    ensures
        final(file)@.filename == old(file)@.filename,
        final(file)@.mode == old(file)@.mode,
        match spec_parse_fits(old(file)@.data) {
            Err(e) => r matches Err(Error::Fits(f)) && f == e && final(file)@.data == old(file)@.data,
            Ok(hs) => if hdu.hdu_index >= hs.len() {
                r matches Err(Error::Message(m)) && m@ == no_hdu_message(hdu.hdu_index as int)
                    && final(file)@.data == old(file)@.data
            } else {
                r is Ok && final(file)@.data == rebuilt(
                    hdus_with_key(hs, hdu.hdu_index as int, name@, value@), old(file)@.data)
            },
        },
{
    let fits_data = match parse_fits(file.data()) {
        Ok(f) => f,
        Err(e) => return Err(Error::Fits(e)),
    };
    proof {
        crate::hdu::lemma_hdu_cards_bounded(file@.data, 0, true);
    }
    if hdu.hdu_index >= fits_data.hdus.len() {
        let digits = u64_decimal(hdu.hdu_index as u64);
        let d = string_from_bytes(digits.as_slice());
        proof {
            reveal_strlit("HDU index ");
            reveal_strlit(" not found");
        }
        return Err(Error::Message(message3("HDU index ", d.as_str(), " not found")));
    }
    let ghost hs = hdus_view(fits_data.hdus@);
    let mut hdus = fits_data.hdus;
    let idx = hdu.hdu_index;
    let h = hdus.remove(idx);
    assert(hs[idx as int] == h@);
    let Hdu { info, header_start, data_start, data_len, cards } = h;
    let new_cards = set_key_in(cards, name, value);
    hdus.insert(idx, Hdu { info, header_start, data_start, data_len, cards: new_cards });
    assert(hdus_view(hdus@) =~= hdus_with_key(hs, idx as int, name@, value@));
    let updated = FitsData { hdus };
    assert forall|k: int| 0 <= k < updated.hdus@.len() implies 80 * ((#[trigger] updated.hdus@[k]).cards@.len() + 1) + 2880 <= usize::MAX by {
        assert(hdus_view(updated.hdus@)[k] == updated.hdus@[k]@);
        assert(cards_view(updated.hdus@[k].cards@).len() == updated.hdus@[k].cards@.len());
        if k != idx {
            assert(updated.hdus@[k]@ == hs[k]);
        } else {
            assert(updated.hdus@[k]@.cards == with_key(hs[k].cards, name@, value@));
        }
    }
    rebuild_fits_data(file, &updated)
}

/// Trait for types that can be written to a FITS header card.
pub trait WritesKey {
    /// The keyword value that writing `v` stores.
    spec fn stored(v: &Self) -> ValueModel;

    /// Write `value` under `name` in the HDU, and write the file's HDUs
    /// again.
    fn write_key(file: &mut FitsFile, hdu: &FitsHdu, name: &str, value: &Self) -> (r: Result<()>)
        requires
            old(file)@.data.len() + 2 * 2880 <= usize::MAX,
        ensures
            final(file)@.filename == old(file)@.filename,
            final(file)@.mode == old(file)@.mode,
            key_written(old(file)@.data, final(file)@.data, hdu.hdu_index as int, name@, Self::stored(value), r);
}

/// What writing `v` under `name` in HDU `index` does to a file's bytes and
/// what it returns.
pub open spec fn key_written(old_data: Seq<u8>, new_data: Seq<u8>, index: int, name: Seq<char>, v: ValueModel, r: Result<()>) -> bool {
    match spec_parse_fits(old_data) {
        Err(e) => r matches Err(Error::Fits(f)) && f == e && new_data == old_data,
        Ok(hs) => if index >= hs.len() {
            r matches Err(Error::Message(m)) && m@ == no_hdu_message(index) && new_data == old_data
        } else {
            r is Ok && new_data == rebuilt(hdus_with_key(hs, index, name, v), old_data)
        },
    }
}

impl WritesKey for i64 {
    open spec fn stored(v: &Self) -> ValueModel {
        ValueModel::Integer(*v as int)
    }

    /// Write an integer keyword.
    fn write_key(file: &mut FitsFile, hdu: &FitsHdu, name: &str, value: &Self) -> (r: Result<()>)
        ensures
            key_written(old(file)@.data, final(file)@.data, hdu.hdu_index as int, name@, ValueModel::Integer(*value as int), r),
    {
        write_key_to_file(file, hdu, name, Value::Integer(*value))
    }
}

impl WritesKey for bool {
    open spec fn stored(v: &Self) -> ValueModel {
        ValueModel::Logical(*v)
    }

    /// Write a logical keyword.
    fn write_key(file: &mut FitsFile, hdu: &FitsHdu, name: &str, value: &Self) -> (r: Result<()>)
        ensures
            key_written(old(file)@.data, final(file)@.data, hdu.hdu_index as int, name@, ValueModel::Logical(*value), r),
    {
        write_key_to_file(file, hdu, name, Value::Logical(*value))
    }
}

impl WritesKey for String {
    open spec fn stored(v: &Self) -> ValueModel {
        ValueModel::Str(v@)
    }

    /// Write a string keyword.
    fn write_key(file: &mut FitsFile, hdu: &FitsHdu, name: &str, value: &Self) -> (r: Result<()>)
        ensures
            key_written(old(file)@.data, final(file)@.data, hdu.hdu_index as int, name@, ValueModel::Str(value@), r),
    {
        let s = string_from_chars(chars_of(value.as_str()).as_slice());
        write_key_to_file(file, hdu, name, Value::String(s))
    }
}

} // verus!
