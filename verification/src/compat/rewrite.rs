//! Reading a file again after it was changed: a written keyword's value is
//! what a lookup of the keyword finds, and an appended image extension is
//! one HDU more.
use vstd::prelude::*;

use super::errors::Result;
use super::fitsfile::{extname_card, image_extension_bytes, image_extension_cards, names_hdu, pixel_bytes};
use super::images::{spec_to_bitpix, ImageType};
use crate::primary::product;
use super::headers::{
    card_name, first_end, first_named_card, hdu_bytes, hdus_with_key, key_keyword, key_lookup, key_written, named_value,
    rebuilt, with_key, without_end, KeyLookup,
};
use crate::block::{lemma_padded_len_bounds, spec_blocks_needed, spec_padded_len};
use crate::error::Error;
use crate::hdu::{lemma_hdu_cards_bounded, spec_data_len, spec_hdu_info, spec_hdus_from, spec_is_primary, spec_parse_fits, HduInfoModel, HduModel};
use crate::header::{
    cards_in_blocks, end_card, end_keyword, exact_card, first_end_card, lemma_header_roundtrip, spec_format_card,
    spec_header_byte_len, spec_parse_header, spec_serialize_header, CardModel,
};
use crate::value::{spaces, ValueModel};

verus! {

/// A header that is written again as it stands: one `END` card closes it,
/// and each other card reads back as itself.
pub open spec fn header_rewritable(cards: Seq<CardModel>) -> bool {
    &&& cards == without_end(cards).push(end_card())
    &&& forall|k: int| 0 <= k < without_end(cards).len() ==> exact_card(#[trigger] without_end(cards)[k])
}

/// An HDU whose header is written again as it stands and gives the HDU's
/// own layout, read as the first HDU of a file when `first`.
pub open spec fn hdu_rewritable(h: HduModel, first: bool) -> bool {
    &&& header_rewritable(h.cards)
    &&& first ==> spec_is_primary(h.cards)
    &&& spec_hdu_info(h.cards, first) == Ok::<HduInfoModel, Error>(h.info)
    &&& spec_data_len(h.cards, first) matches Ok(dl) && dl as int == h.data_len
}

/// Writing `v` under `name` in HDU `index` of the file with bytes `data`
/// leaves a file that reads back: `name` is the name of the keyword that
/// holds it, and after the write every HDU's header is written again as
/// it stands and gives that HDU's layout, so the key changes no HDU's shape.
pub open spec fn key_write_rereads(data: Seq<u8>, index: int, name: Seq<char>, v: ValueModel) -> bool {
    &&& card_name(CardModel { keyword: key_keyword(name), value: None, comment: None }) == name
    &&& spec_parse_fits(data) matches Ok(hs) && forall|k: int| 0 <= k < hs.len()
        ==> hdu_rewritable(#[trigger] hdus_with_key(hs, index, name, v)[k], k == 0)
}

/// Where the first card named `name` from `i` on stands.
proof fn lemma_first_named(cards: Seq<CardModel>, name: Seq<char>, i: int)
    requires
        0 <= i,
    ensures
        first_named_card(cards, name, i) matches Some(j) ==> i <= j < cards.len() && card_name(cards[j]) == name
            && forall|k: int| i <= k < j ==> card_name(#[trigger] cards[k]) != name,
        first_named_card(cards, name, i) is None ==> forall|k: int| i <= k < cards.len() ==> card_name(#[trigger] cards[k]) != name,
    decreases cards.len() - i,
{
    if i < cards.len() {
        lemma_first_named(cards, name, i + 1);
    }
}

/// The first `END` card from `i` on lies among the cards.
proof fn lemma_first_end_in(cards: Seq<CardModel>, i: int)
    requires
        0 <= i,
    ensures
        first_end(cards, i) matches Some(e) ==> i <= e < cards.len(),
    decreases cards.len() - i,
{
    if i < cards.len() {
        lemma_first_end_in(cards, i + 1);
    }
}

/// Cards of other names are passed over by a lookup.
proof fn lemma_named_value_skip(cards: Seq<CardModel>, name: Seq<char>, i: int, j: int)
    requires
        0 <= i <= j <= cards.len(),
        forall|k: int| i <= k < j ==> card_name(#[trigger] cards[k]) != name,
    ensures
        named_value(cards, name, i) == named_value(cards, name, j),
    decreases j - i,
{
    if i < j {
        lemma_named_value_skip(cards, name, i + 1, j);
    }
}

/// After writing `v` under `name` in a list of cards, looking `name` up in
/// it finds `v`.
pub proof fn lemma_with_key_found(cards: Seq<CardModel>, name: Seq<char>, v: ValueModel)
    requires
        card_name(CardModel { keyword: key_keyword(name), value: None, comment: None }) == name,
    ensures
        named_value(with_key(cards, name, v), name, 0) == Some(v),
{
    let w = with_key(cards, name, v);
    lemma_first_named(cards, name, 0);
    match first_named_card(cards, name, 0) {
        Some(j) => {
            assert forall|k: int| 0 <= k < j implies card_name(#[trigger] w[k]) != name by {
                assert(w[k] == cards[k]);
            }
            lemma_named_value_skip(w, name, 0, j);
            assert(card_name(w[j]) == name);
        },
        None => {
            lemma_first_end_in(cards, 0);
            let e: int = match first_end(cards, 0) {
                Some(e) => e,
                None => cards.len() as int,
            };
            assert forall|k: int| 0 <= k < e implies card_name(#[trigger] w[k]) != name by {
                assert(w[k] == cards[k]);
            }
            lemma_named_value_skip(w, name, 0, e);
            assert(card_name(w[e]) == name);
        },
    }
}

/// HDU `g` of bytes `a` holds the same data as HDU `h` of bytes `b`.
pub open spec fn same_data(g: HduModel, a: Seq<u8>, h: HduModel, b: Seq<u8>) -> bool {
    &&& g.data_len == h.data_len
    &&& a.subrange(g.data_start, g.data_start + g.data_len) == b.subrange(h.data_start, h.data_start + h.data_len)
}

/// The bytes of the HDUs from `k` on, written again.
spec fn tail_bytes(hs: Seq<HduModel>, bytes: Seq<u8>, k: int) -> Seq<u8>
    decreases hs.len() - k,
{
    if k < 0 || k >= hs.len() {
        Seq::empty()
    } else {
        hdu_bytes(hs[k], bytes) + tail_bytes(hs, bytes, k + 1)
    }
}

/// A rewritten file is the HDUs before `k` followed by those from `k` on.
proof fn lemma_rebuilt_split(hs: Seq<HduModel>, bytes: Seq<u8>, k: int)
    requires
        0 <= k <= hs.len(),
    ensures
        rebuilt(hs.subrange(0, k), bytes) + tail_bytes(hs, bytes, k) == rebuilt(hs, bytes),
    decreases hs.len() - k,
{
    if k == hs.len() {
        assert(hs.subrange(0, k) =~= hs);
        assert(rebuilt(hs, bytes) + Seq::<u8>::empty() =~= rebuilt(hs, bytes));
    } else {
        lemma_rebuilt_split(hs, bytes, k + 1);
        let pre = rebuilt(hs.subrange(0, k), bytes);
        assert(hs.subrange(0, k + 1).drop_last() =~= hs.subrange(0, k));
        assert(hs.subrange(0, k + 1).last() == hs[k]);
        assert(rebuilt(hs.subrange(0, k + 1), bytes) == pre + hdu_bytes(hs[k], bytes));
        assert(pre + tail_bytes(hs, bytes, k) =~= pre + hdu_bytes(hs[k], bytes) + tail_bytes(hs, bytes, k + 1));
    }
}

/// A serialized header fills whole blocks, at least one, with room for its
/// cards and the `END` card.
proof fn lemma_serialized_len(m: int)
    requires
        m >= 0,
    ensures
        spec_blocks_needed(80 * (m + 1)) == m / 36 + 1,
{
    let q = m / 36;
    let r = m % 36;
    assert(m == 36 * q + r && 0 <= r < 36) by (nonlinear_arith) requires q == m / 36, r == m % 36, m >= 0;
    assert(80 * (m + 1) + 2879 == 2880 * (q + 1) + 80 * r + 79);
    assert((2880 * (q + 1) + 80 * r + 79) / 2880 == q + 1) by (nonlinear_arith)
        requires 0 <= r < 36, q >= 0;
}

/// A serialized header fills at least one block.
proof fn lemma_serialized_one_block(cs: Seq<CardModel>)
    ensures
        spec_serialize_header(cs).len() >= 2880,
{
    let m = cs.len() as int;
    lemma_serialized_len(m);
    let q = m / 36;
    assert((q + 1) * 2880 >= 2880) by (nonlinear_arith) requires q >= 0;
}

/// The END card of a header is the first card slot from `i` on whose
/// keyword is `END`.
proof fn lemma_first_end_card_at(data: Seq<u8>, i: int, m: int, n: int)
    requires
        0 <= i <= m < n,
        forall|j: int| i <= j < m ==> #[trigger] data.subrange(80 * j, 80 * j + 8) != end_keyword(),
        data.subrange(80 * m, 80 * m + 8) == end_keyword(),
    ensures
        first_end_card(data, i, n) == Some(m),
    decreases m - i,
{
    if i < m {
        lemma_first_end_card_at(data, i + 1, m, n);
    }
}

/// A serialized header followed by other bytes: its length is what
/// `header_byte_len` reports, and its cards read back.
proof fn lemma_serialized_header_then(cs: Seq<CardModel>, rest: Seq<u8>)
    requires
        forall|k: int| 0 <= k < cs.len() ==> exact_card(#[trigger] cs[k]),
        spec_serialize_header(cs).len() + rest.len() <= usize::MAX,
    ensures
        spec_serialize_header(cs).len() >= 2880,
        spec_header_byte_len(spec_serialize_header(cs) + rest) == Ok::<usize, Error>(spec_serialize_header(cs).len() as usize),
        spec_parse_header((spec_serialize_header(cs) + rest).subrange(0, spec_serialize_header(cs).len() as int))
            == Ok::<Seq<CardModel>, Error>(cs.push(end_card())),
{
    let s = spec_serialize_header(cs);
    let d = s + rest;
    let m = cs.len() as int;
    lemma_serialized_len(m);
    let q = m / 36;
    assert(s.len() == (q + 1) * 2880);
    assert((q + 1) * 2880 >= 2880) by (nonlinear_arith) requires q >= 0;
    assert(d.len() / 2880 >= q + 1) by (nonlinear_arith) requires d.len() >= (q + 1) * 2880, q >= 0;
    let n = cards_in_blocks(d.len() as int);
    assert(n >= (q + 1) * 36) by (nonlinear_arith) requires n == (d.len() / 2880) * 36, d.len() / 2880 >= q + 1;
    assert(m < (q + 1) * 36) by (nonlinear_arith) requires q == m / 36, m >= 0;
    assert forall|j: int| 0 <= j < m implies #[trigger] d.subrange(80 * j, 80 * j + 8) != end_keyword() by {
        let c = cs[j];
        crate::header::lemma_card_roundtrip(c);
        assert forall|t: int| 0 <= t < 8 implies d.subrange(80 * j, 80 * j + 8)[t] == c.keyword[t] by {
            let p = 80 * j + t;
            assert(p / 80 == j && p % 80 == t) by (nonlinear_arith) requires p == 80 * j + t, 0 <= t < 80;
            assert(p < 80 * m) by (nonlinear_arith) requires p == 80 * j + t, t < 80, j + 1 <= m;
            assert(spec_format_card(c)[t] == c.keyword[t]);
        }
        assert(d.subrange(80 * j, 80 * j + 8) =~= c.keyword);
    }
    assert forall|t: int| 0 <= t < 8 implies d.subrange(80 * m, 80 * m + 8)[t] == end_keyword()[t] by {
        assert((end_keyword() + spaces(72))[t] == end_keyword()[t]);
    }
    assert(d.subrange(80 * m, 80 * m + 8) =~= end_keyword());
    lemma_first_end_card_at(d, 0, m, n);
    assert(d.subrange(0, s.len() as int) =~= s);
    lemma_header_roundtrip(cs);
}

/// One step of reading the HDUs of a file: the HDU whose header starts at
/// `off`, then those after it.
proof fn lemma_hdus_from_step(
    d: Seq<u8>,
    off: int,
    first: bool,
    cards: Seq<CardModel>,
    info: HduInfoModel,
    hl: usize,
    dl: usize,
)
    requires
        0 <= off,
        off + 2880 <= d.len(),
        hl > 0,
        spec_header_byte_len(d.subrange(off, d.len() as int)) == Ok::<usize, Error>(hl),
        spec_parse_header(d.subrange(off, d.len() as int).subrange(0, hl as int)) == Ok::<Seq<CardModel>, Error>(cards),
        first ==> spec_is_primary(cards),
        spec_hdu_info(cards, first) == Ok::<HduInfoModel, Error>(info),
        spec_data_len(cards, first) == Ok::<usize, Error>(dl),
        dl > 0 ==> off + hl + dl <= d.len(),
    ensures
        ({
            let hdu = HduModel { info, header_start: off, data_start: off + hl, data_len: dl as int, cards };
            let next = off + hl + spec_padded_len(dl as int);
            spec_hdus_from(d, off, first) == if next >= d.len() {
                Ok::<Seq<HduModel>, Error>(seq![hdu])
            } else {
                match spec_hdus_from(d, next, false) {
                    Ok(rest) => Ok::<Seq<HduModel>, Error>(seq![hdu] + rest),
                    Err(e) => Err::<Seq<HduModel>, Error>(e),
                }
            }
        }),
{
    assert((first && spec_is_primary(cards)) == first);
}

/// Reading a file made of rewritable HDUs written again, from the start of
/// HDU `k`, gives back those HDUs' cards.
#[verifier::spinoff_prover]
#[verifier::rlimit(100)]
proof fn lemma_hdus_from_rebuilt(hs: Seq<HduModel>, bytes: Seq<u8>, k: int)
    requires
        0 <= k < hs.len(),
        forall|j: int| 0 <= j < hs.len() ==> hdu_rewritable(#[trigger] hs[j], j == 0),
        forall|j: int| 0 <= j < hs.len() ==> 0 <= (#[trigger] hs[j]).data_start && hs[j].data_start + hs[j].data_len <= bytes.len(),
        rebuilt(hs, bytes).len() <= usize::MAX,
    ensures
        spec_hdus_from(rebuilt(hs, bytes), rebuilt(hs.subrange(0, k), bytes).len() as int, k == 0) matches Ok(gs)
            && gs.len() == hs.len() - k
            && forall|j: int| 0 <= j < gs.len() ==> (#[trigger] gs[j]).cards == hs[k + j].cards
                && same_data(gs[j], rebuilt(hs, bytes), hs[k + j], bytes),
    decreases hs.len() - k,
{
    let d = rebuilt(hs, bytes);
    let pre = rebuilt(hs.subrange(0, k), bytes);
    let off = pre.len() as int;
    lemma_rebuilt_split(hs, bytes, k);
    lemma_rebuilt_split(hs, bytes, k + 1);
    let h = hs[k];
    assert(hdu_rewritable(h, k == 0));
    let cs = without_end(h.cards);
    let s = spec_serialize_header(cs);
    let p = hdu_bytes(h, bytes).subrange(s.len() as int, hdu_bytes(h, bytes).len() as int);
    let t = tail_bytes(hs, bytes, k + 1);
    assert(hdu_bytes(h, bytes) =~= s + p);
    let remaining = d.subrange(off, d.len() as int);
    assert(remaining =~= s + (p + t));
    lemma_serialized_header_then(cs, p + t);
    let hl = s.len() as usize;
    let dl = spec_data_len(h.cards, k == 0)->Ok_0;
    lemma_padded_len_bounds(dl as int);
    assert(p.len() == spec_padded_len(dl as int)) by {
        if dl > 0 {
            assert(p =~= bytes.subrange(h.data_start, h.data_start + h.data_len)
                + Seq::new((spec_padded_len(dl as int) - dl) as nat, |i: int| 0u8));
        } else {
            assert(p =~= Seq::<u8>::empty());
        }
    }
    let next = off + hl + spec_padded_len(dl as int);
    assert(rebuilt(hs.subrange(0, k + 1), bytes).len() == next) by {
        assert(hs.subrange(0, k + 1).drop_last() =~= hs.subrange(0, k));
        assert(hs.subrange(0, k + 1).last() == h);
    }
    lemma_hdus_from_step(d, off, k == 0, h.cards, h.info, hl, dl);
    let hdu = HduModel { info: h.info, header_start: off, data_start: off + hl, data_len: dl as int, cards: h.cards };
    assert(same_data(hdu, d, h, bytes)) by {
        if dl > 0 {
            assert(d.subrange(off + hl, off + hl + dl) =~= remaining.subrange(hl as int, hl + dl));
            assert(remaining.subrange(hl as int, hl + dl) =~= p.subrange(0, dl as int));
            assert(p.subrange(0, dl as int) =~= bytes.subrange(h.data_start, h.data_start + h.data_len));
        } else {
            assert(d.subrange(off + hl, off + hl) =~= bytes.subrange(h.data_start, h.data_start));
        }
    }
    if k + 1 < hs.len() {
        assert(t.len() >= 2880) by {
            let h2 = hs[k + 1];
            assert(hdu_rewritable(h2, false));
            lemma_serialized_one_block(without_end(h2.cards));
        }
        lemma_hdus_from_rebuilt(hs, bytes, k + 1);
        let rest = spec_hdus_from(d, next, false)->Ok_0;
        let gs = seq![hdu] + rest;
        assert forall|j: int| 0 <= j < gs.len() implies (#[trigger] gs[j]).cards == hs[k + j].cards
            && same_data(gs[j], d, hs[k + j], bytes) by {
            if j > 0 {
                assert(gs[j] == rest[j - 1]);
                assert(rest[j - 1].cards == hs[k + 1 + (j - 1)].cards);
                assert(same_data(rest[j - 1], d, hs[k + 1 + (j - 1)], bytes));
            }
        }
    } else {
        assert(t =~= Seq::<u8>::empty());
    }
}

/// Writing a keyword and then reading it gives the written value: after a
/// successful write of `v` under `name` in HDU `index`, a lookup of `name`
/// in that HDU of the new bytes finds `v`, and the file has as many HDUs as
/// before, each with the cards it had but for the written key and with the
/// data bytes it had, whenever the written key leaves every header of the
/// file readable as written and every HDU's layout as it was.
#[verifier::spinoff_prover]
#[verifier::rlimit(100)]
pub proof fn lemma_read_after_write(
    old_data: Seq<u8>,
    new_data: Seq<u8>,
    index: int,
    name: Seq<char>,
    v: ValueModel,
    r: Result<()>,
)
    requires
        0 <= index,
        key_written(old_data, new_data, index, name, v, r),
        r is Ok,
        key_write_rereads(old_data, index, name, v),
        new_data.len() <= usize::MAX,
    ensures
        key_lookup(new_data, index, name) == KeyLookup::Found(v),
        spec_parse_fits(new_data) matches Ok(gs) && gs.len() == spec_parse_fits(old_data)->Ok_0.len()
            && forall|k: int| 0 <= k < gs.len() ==> (#[trigger] gs[k]).cards
                == hdus_with_key(spec_parse_fits(old_data)->Ok_0, index, name, v)[k].cards
                && same_data(gs[k], new_data, spec_parse_fits(old_data)->Ok_0[k], old_data),
{
    let hs = spec_parse_fits(old_data)->Ok_0;
    let ws = hdus_with_key(hs, index, name, v);
    assert(spec_hdus_from(old_data, 0, true) == Ok::<Seq<HduModel>, Error>(hs));
    assert(0 <= index < hs.len());
    lemma_hdu_cards_bounded(old_data, 0, true);
    assert(new_data == rebuilt(ws, old_data));
    assert forall|j: int| 0 <= j < ws.len() implies 0 <= (#[trigger] ws[j]).data_start
        && ws[j].data_start + ws[j].data_len <= old_data.len() by {
        assert(0 <= hs[j].data_start && hs[j].data_start + hs[j].data_len <= old_data.len());
        assert(ws[j].data_start == hs[j].data_start && ws[j].data_len == hs[j].data_len);
    }
    assert(ws.subrange(0, 0) =~= Seq::<HduModel>::empty());
    lemma_hdus_from_rebuilt(ws, old_data, 0);
    let h0 = ws[0];
    lemma_serialized_one_block(without_end(h0.cards));
    lemma_rebuilt_split(ws, old_data, 0);
    let gs = spec_hdus_from(new_data, 0, true)->Ok_0;
    assert(spec_parse_fits(new_data) == Ok::<Seq<HduModel>, Error>(gs));
    assert(gs[index].cards == ws[index].cards);
    assert forall|k: int| 0 <= k < gs.len() implies (#[trigger] gs[k]).cards == ws[k].cards
        && same_data(gs[k], new_data, hs[k], old_data) by {
        assert(same_data(gs[k], new_data, ws[k], old_data));
        assert(ws[k].data_start == hs[k].data_start && ws[k].data_len == hs[k].data_len);
    }
    lemma_with_key_found(hs[index].cards, name, v);
}

/// The first `END` card slot of `d` stays the first when bytes are
/// appended and more slots are searched.
proof fn lemma_first_end_card_extend(d: Seq<u8>, x: Seq<u8>, i: int, n: int, m: int)
    requires
        0 <= i,
        n <= m,
        80 * n <= d.len(),
        first_end_card(d, i, n) is Some,
    ensures
        first_end_card(d + x, i, m) == first_end_card(d, i, n),
    decreases n - i,
{
    if i < n {
        assert((d + x).subrange(80 * i, 80 * i + 8) =~= d.subrange(80 * i, 80 * i + 8));
        if d.subrange(80 * i, 80 * i + 8) != end_keyword() {
            lemma_first_end_card_extend(d, x, i + 1, n, m);
        }
    }
}

/// A header found in `d` is found, of the same length, when bytes are
/// appended.
proof fn lemma_header_len_extend(d: Seq<u8>, x: Seq<u8>)
    requires
        spec_header_byte_len(d) is Ok,
    ensures
        spec_header_byte_len(d + x) == spec_header_byte_len(d),
{
    let n = cards_in_blocks(d.len() as int);
    let m = cards_in_blocks((d + x).len() as int);
    vstd::arithmetic::div_mod::lemma_div_is_ordered(d.len() as int, (d + x).len() as int, 2880);
    assert(n <= m);
    let q = d.len() / 2880;
    assert(80 * n <= d.len()) by (nonlinear_arith) requires n == q * 36, q == d.len() / 2880, d.len() >= 0;
    lemma_first_end_card_extend(d, x, 0, n, m);
}

/// Reading the HDUs of a file that ends with its last HDU, with the bytes
/// of one more HDU appended, gives the same HDUs and then that one.
#[verifier::spinoff_prover]
#[verifier::rlimit(100)]
proof fn lemma_hdus_from_extend(d: Seq<u8>, x: Seq<u8>, off: int, first: bool, nh: HduModel)
    requires
        spec_hdus_from(d, off, first) matches Ok(rest) && rest.len() > 0
            && rest.last().data_start + spec_padded_len(rest.last().data_len) == d.len(),
        spec_hdus_from(d + x, d.len() as int, false) == Ok::<Seq<HduModel>, Error>(seq![nh]),
        x.len() > 0,
    ensures
        spec_hdus_from(d + x, off, first) == Ok::<Seq<HduModel>, Error>(spec_hdus_from(d, off, first)->Ok_0.push(nh)),
    decreases d.len() - off,
{
    let rest = spec_hdus_from(d, off, first)->Ok_0;
    let e = d + x;
    let remaining = d.subrange(off, d.len() as int);
    let hl = spec_header_byte_len(remaining)->Ok_0;
    crate::header::lemma_header_byte_len_bound(remaining);
    assert(e.subrange(off, e.len() as int) =~= remaining + x);
    lemma_header_len_extend(remaining, x);
    assert((remaining + x).subrange(0, hl as int) =~= remaining.subrange(0, hl as int));
    let cards = spec_parse_header(remaining.subrange(0, hl as int))->Ok_0;
    let is_primary = first && spec_is_primary(cards);
    let info = spec_hdu_info(cards, is_primary)->Ok_0;
    let dl = spec_data_len(cards, is_primary)->Ok_0;
    lemma_padded_len_bounds(dl as int);
    let next = off + hl + spec_padded_len(dl as int);
    let hdu = HduModel { info, header_start: off, data_start: off + hl, data_len: dl as int, cards };
    if next >= d.len() {
        assert(rest == seq![hdu]);
        assert(spec_hdus_from(e, off, first) == Ok::<Seq<HduModel>, Error>(seq![hdu] + seq![nh]));
        assert(seq![hdu] + seq![nh] =~= rest.push(nh));
    } else {
        let rest2 = spec_hdus_from(d, next, false)->Ok_0;
        assert(rest == seq![hdu] + rest2);
        if rest2.len() == 0 {
            assert(rest =~= seq![hdu]);
        }
        assert(rest2.last() == rest.last());
        lemma_hdus_from_extend(d, x, next, false, nh);
        assert(seq![hdu] + rest2.push(nh) =~= rest.push(nh));
    }
}

/// A file that ends where its last HDU's padded data ends.
pub open spec fn ends_with_last_hdu(data: Seq<u8>) -> bool {
    spec_parse_fits(data) matches Ok(hs)
        && hs.last().data_start + spec_padded_len(hs.last().data_len) == data.len()
}

/// The header of a new image extension reads back as written and as an
/// image whose data is its pixels.
pub open spec fn image_header_rereads(extname: Seq<char>, t: ImageType, dims: Seq<usize>) -> bool {
    let cards = image_extension_cards(extname, t, dims);
    &&& forall|k: int| 0 <= k < cards.len() ==> exact_card(#[trigger] cards[k])
    &&& spec_hdu_info(cards.push(end_card()), false) is Ok
    &&& spec_data_len(cards.push(end_card()), false) matches Ok(dl)
        && dl as int == product(dims) * pixel_bytes(spec_to_bitpix(t))
}

/// Appending an image extension to a file that ends with its last HDU
/// gives a file of one HDU more: the HDUs that were there, unchanged, then
/// the new extension, whose cards are the header written and which the
/// trimmed name names.
pub proof fn lemma_image_extension_appended(
    old_data: Seq<u8>,
    new_data: Seq<u8>,
    extname: Seq<char>,
    t: ImageType,
    dims: Seq<usize>,
)
    requires
        new_data == old_data + image_extension_bytes(extname, t, dims),
        ends_with_last_hdu(old_data),
        image_header_rereads(extname, t, dims),
        new_data.len() <= usize::MAX,
    ensures
        spec_parse_fits(new_data) matches Ok(gs) && gs.len() == spec_parse_fits(old_data)->Ok_0.len() + 1
            && gs.subrange(0, gs.len() - 1) == spec_parse_fits(old_data)->Ok_0
            && gs.last().cards == image_extension_cards(extname, t, dims).push(end_card())
            && names_hdu(gs.last(), crate::text::trim(extname)),
{
    let hs = spec_parse_fits(old_data)->Ok_0;
    let cards = image_extension_cards(extname, t, dims);
    let full = cards.push(end_card());
    let bytes = product(dims) * pixel_bytes(spec_to_bitpix(t));
    let zeros = Seq::new(spec_padded_len(bytes) as nat, |i: int| 0u8);
    let x = image_extension_bytes(extname, t, dims);
    let hdr = spec_serialize_header(cards);
    assert(x == hdr + zeros);
    assert(new_data.subrange(old_data.len() as int, new_data.len() as int) =~= hdr + zeros);
    lemma_serialized_header_then(cards, zeros);
    let hl = hdr.len() as usize;
    let info = spec_hdu_info(full, false)->Ok_0;
    let dl = spec_data_len(full, false)->Ok_0;
    lemma_padded_len_bounds(dl as int);
    lemma_hdus_from_step(new_data, old_data.len() as int, false, full, info, hl, dl);
    let nh = HduModel { info, header_start: old_data.len() as int, data_start: old_data.len() + hl, data_len: dl as int, cards: full };
    assert(old_data.len() + hl + spec_padded_len(dl as int) >= new_data.len());
    assert(spec_hdus_from(old_data, 0, true) == Ok::<Seq<HduModel>, Error>(hs));
    lemma_hdus_from_extend(old_data, x, 0, true, nh);
    let gs = hs.push(nh);
    assert(spec_parse_fits(new_data) == Ok::<Seq<HduModel>, Error>(gs));
    assert(gs.subrange(0, gs.len() - 1) =~= hs);
    let j = crate::extension::spec_extension_cards(crate::extension::ExtensionType::Image, spec_to_bitpix(t), dims, 0, 1).len() as int;
    assert(full[j] == extname_card(extname));
    assert(names_hdu(nh, crate::text::trim(extname)));
}

/// Reading HDUs from `off` on looks only at the bytes from `off` on.
proof fn lemma_hdus_from_suffix(d1: Seq<u8>, d2: Seq<u8>, off: int, first: bool)
    requires
        d1.len() == d2.len(),
        0 <= off,
        forall|i: int| off <= i < d1.len() ==> d1[i] == d2[i],
    ensures
        spec_hdus_from(d1, off, first) == spec_hdus_from(d2, off, first),
    decreases d1.len() - off,
{
    if !(off >= d1.len() || d1.len() - off < 2880) {
        let r1 = d1.subrange(off, d1.len() as int);
        let r2 = d2.subrange(off, d2.len() as int);
        assert(r1 =~= r2);
        if let Ok(hl) = spec_header_byte_len(r1) {
            if let Ok(cards) = spec_parse_header(r1.subrange(0, hl as int)) {
                let is_primary = first && spec_is_primary(cards);
                if let Ok(dl) = spec_data_len(cards, is_primary) {
                    lemma_padded_len_bounds(dl as int);
                    let next = off + hl + spec_padded_len(dl as int);
                    if next < d1.len() {
                        lemma_hdus_from_suffix(d1, d2, next, false);
                    }
                }
            }
        }
    }
}

/// The first `END` card slot of `a` is that of `b` when they agree up to
/// its keyword.
proof fn lemma_first_end_card_agree(a: Seq<u8>, b: Seq<u8>, i: int, n: int, k: int)
    requires
        0 <= i,
        first_end_card(a, i, n) == Some(k),
        a.len() == b.len(),
        80 * k + 8 <= a.len(),
        forall|j: int| 0 <= j < 80 * k + 8 ==> a[j] == b[j],
    ensures
        first_end_card(b, i, n) == Some(k),
    decreases n - i,
{
    crate::header::lemma_first_end_card_is_first_pub(a, i, n);
    if i < k {
        assert(a.subrange(80 * i, 80 * i + 8) =~= b.subrange(80 * i, 80 * i + 8));
        lemma_first_end_card_agree(a, b, i + 1, n, k);
    } else {
        assert(a.subrange(80 * k, 80 * k + 8) =~= b.subrange(80 * k, 80 * k + 8));
    }
}

/// A header read from `r1` is read, of the same length, from bytes that
/// agree with it up to its end.
proof fn lemma_header_len_agree(r1: Seq<u8>, r2: Seq<u8>, hl: usize)
    requires
        r1.len() == r2.len(),
        r1.len() <= usize::MAX,
        spec_header_byte_len(r1) == Ok::<usize, Error>(hl),
        forall|j: int| 0 <= j < hl ==> r1[j] == r2[j],
    ensures
        spec_header_byte_len(r2) == Ok::<usize, Error>(hl),
        r1.subrange(0, hl as int) == r2.subrange(0, hl as int),
{
    let n = cards_in_blocks(r1.len() as int);
    crate::header::lemma_first_end_card_is_first_pub(r1, 0, n);
    let k = first_end_card(r1, 0, n)->Some_0;
    crate::header::lemma_header_byte_len_bound(r1);
    assert(80 * k + 8 <= (k / 36 + 1) * 2880) by (nonlinear_arith) requires k >= 0;
    lemma_first_end_card_agree(r1, r2, 0, n, k);
    assert(r1.subrange(0, hl as int) =~= r2.subrange(0, hl as int));
}

/// Along HDUs laid one after another, every HDU after the first starts at
/// or after the second.
proof fn lemma_chain_after(hs: Seq<HduModel>, len: int, k: int)
    requires
        1 <= k < hs.len(),
        forall|j: int| 0 <= j < hs.len() ==> crate::hdu::hdu_in_place(#[trigger] hs[j], len),
        forall|j: int| 0 <= j < hs.len() - 1 ==> #[trigger] hs[j + 1].header_start
            == hs[j].data_start + spec_padded_len(hs[j].data_len),
    ensures
        hs[k].header_start >= hs[1].header_start,
    decreases k,
{
    if k > 1 {
        lemma_chain_after(hs, len, k - 1);
        lemma_padded_len_bounds(hs[k - 1].data_len);
        assert(crate::hdu::hdu_in_place(hs[k - 1], len));
        assert(hs[(k - 1) + 1].header_start == hs[k - 1].data_start + spec_padded_len(hs[k - 1].data_len));
    }
}

/// Reading the HDUs of a file from `off` on gives the same HDUs after the
/// padded data segment of one of them is overwritten.
#[verifier::spinoff_prover]
#[verifier::rlimit(100)]
proof fn lemma_hdus_from_rewrite(d1: Seq<u8>, d2: Seq<u8>, off: int, first: bool, t: int)
    requires
        0 <= off,
        off % 2880 == 0,
        d1.len() == d2.len(),
        d1.len() <= usize::MAX,
        spec_hdus_from(d1, off, first) matches Ok(hs) && 0 <= t < hs.len()
            && hs[t].data_start + spec_padded_len(hs[t].data_len) <= d1.len()
            && forall|i: int| 0 <= i < d1.len() && !(hs[t].data_start <= i < hs[t].data_start + spec_padded_len(hs[t].data_len))
                ==> d1[i] == d2[i],
    ensures
        spec_hdus_from(d2, off, first) == spec_hdus_from(d1, off, first),
    decreases d1.len() - off,
{
    let hs = spec_hdus_from(d1, off, first)->Ok_0;
    let lo = hs[t].data_start;
    let hi = lo + spec_padded_len(hs[t].data_len);
    crate::hdu::lemma_hdus_from_layout(d1, off, first);
    let r1 = d1.subrange(off, d1.len() as int);
    let r2 = d2.subrange(off, d2.len() as int);
    crate::header::lemma_header_ends_with_end_block(r1);
    let hl = spec_header_byte_len(r1)->Ok_0;
    let cards = spec_parse_header(r1.subrange(0, hl as int))->Ok_0;
    let is_primary = first && spec_is_primary(cards);
    let info = spec_hdu_info(cards, is_primary)->Ok_0;
    let dl = spec_data_len(cards, is_primary)->Ok_0;
    lemma_padded_len_bounds(dl as int);
    let next = off + hl + spec_padded_len(dl as int);
    assert(hs[0].data_start == off + hl);
    assert(off + hl <= lo) by {
        if t > 0 {
            lemma_chain_after(hs, d1.len() as int, t);
            assert(hs[0int + 1].header_start == hs[0].data_start + spec_padded_len(hs[0].data_len));
            assert(crate::hdu::hdu_in_place(hs[t], d1.len() as int));
        }
    }
    assert forall|j: int| 0 <= j < hl implies r1[j] == r2[j] by {
        assert(r1[j] == d1[off + j]);
        assert(r2[j] == d2[off + j]);
    }
    lemma_header_len_agree(r1, r2, hl);
    lemma_hdus_from_step(d1, off, first, cards, info, hl, dl);
    lemma_hdus_from_step(d2, off, first, cards, info, hl, dl);
    let hdu = HduModel { info, header_start: off, data_start: off + hl, data_len: dl as int, cards };
    if next < d1.len() {
        let rest = spec_hdus_from(d1, next, false)->Ok_0;
        assert(hs == seq![hdu] + rest);
        assert(next % 2880 == 0) by (nonlinear_arith)
            requires next == off + hl + spec_padded_len(dl as int), off % 2880 == 0, hl % 2880 == 0,
                spec_padded_len(dl as int) % 2880 == 0;
        if t == 0 {
            assert(hi == next);
            lemma_hdus_from_suffix(d1, d2, next, false);
        } else {
            assert(rest[t - 1] == hs[t]);
            lemma_hdus_from_rewrite(d1, d2, next, false, t - 1);
        }
    }
}

/// Writing a pixel segment of the same padded size into an image HDU of a
/// file leaves every HDU where it was: reading the file again gives the
/// same HDUs.
pub proof fn lemma_image_write_keeps_hdus(old_data: Seq<u8>, new_data: Seq<u8>, index: int, serialized: Seq<u8>, r: Result<()>)
    requires
        0 <= index,
        super::images::image_written(old_data, new_data, index, serialized, r),
        r is Ok,
        old_data.len() <= usize::MAX,
        spec_parse_fits(old_data) matches Ok(hs) && index < hs.len()
            && serialized.len() == spec_padded_len(hs[index].data_len)
            && hs[index].data_start + spec_padded_len(hs[index].data_len) <= old_data.len(),
    ensures
        new_data.len() == old_data.len(),
        spec_parse_fits(new_data) == spec_parse_fits(old_data),
        new_data.subrange(spec_parse_fits(old_data)->Ok_0[index].data_start,
            spec_parse_fits(old_data)->Ok_0[index].data_start + serialized.len()) == serialized,
{
    let hs = spec_parse_fits(old_data)->Ok_0;
    let h = hs[index];
    let lo = h.data_start;
    let hi = lo + spec_padded_len(h.data_len);
    crate::hdu::lemma_parse_fits_layout(old_data);
    assert(crate::hdu::hdu_in_place(h, old_data.len() as int));
    assert(new_data == super::images::with_data(old_data, h, serialized));
    assert(new_data =~= old_data.subrange(0, lo) + serialized + old_data.subrange(hi, old_data.len() as int));
    assert forall|i: int| 0 <= i < old_data.len() && !(lo <= i < hi) implies old_data[i] == new_data[i] by {
        if i >= hi {
            assert(new_data[i] == old_data.subrange(hi, old_data.len() as int)[i - hi]);
        }
    }
    assert(spec_hdus_from(old_data, 0, true) == Ok::<Seq<HduModel>, Error>(hs));
    lemma_hdus_from_rewrite(old_data, new_data, 0, true, index);
    assert(new_data.subrange(lo, lo + serialized.len()) =~= serialized);
}

/// The stored form of unsigned 16-bit pixels reads back, as BITPIX 16, as
/// their signed storage values.
proof fn lemma_u16_storage_decodes(data: Seq<u16>)
    ensures
        crate::image::spec_decode_pixels(<u16 as super::images::WriteImage>::storage(data).subrange(0, 2 * data.len() as int), 16)
            == Ok::<crate::image::ImageValues, Error>(crate::image::ImageValues::I16(super::images::u16_storage(data))),
{
    let v = super::images::u16_storage(data);
    crate::image::lemma_image_roundtrip(crate::image::ImageValues::I16(v));
    assert(crate::image::spec_serialize_image(crate::image::ImageValues::I16(v))
        == <u16 as super::images::WriteImage>::storage(data));
}

/// Unsigned 16-bit pixels written into a 16-bit image HDU whose header
/// gives `BSCALE = 1` and `BZERO = 32768` (as `create_image` writes it for
/// `UnsignedShort`) read back unchanged.
#[verifier::spinoff_prover]
#[verifier::rlimit(100)]
pub proof fn lemma_u16_write_then_read(old_data: Seq<u8>, new_data: Seq<u8>, index: int, data: Seq<u16>, r: Result<()>)
    requires
        0 <= index,
        super::images::image_written(old_data, new_data, index, <u16 as super::images::WriteImage>::storage(data), r),
        r is Ok,
        old_data.len() <= usize::MAX,
        spec_parse_fits(old_data) matches Ok(hs) && index < hs.len()
            && crate::image::plain_bitpix(hs[index].info) == Some(16i64)
            && hs[index].data_len == 2 * data.len()
            && hs[index].data_start + spec_padded_len(hs[index].data_len) <= old_data.len()
            && super::hdu::scale_of(hs[index].cards, super::hdu::bscale_keyword(), 1) == Some(1int)
            && super::hdu::scale_of(hs[index].cards, super::fitsfile::bzero_keyword(), 0) == Some(32768int),
    ensures
        super::images::pixel_read(new_data, index)
            == super::images::PixelRead::Physical(Seq::new(data.len(), |i: int| data[i] as int)),
{
    let hs = spec_parse_fits(old_data)->Ok_0;
    let h = hs[index];
    let v = super::images::u16_storage(data);
    let ser = <u16 as super::images::WriteImage>::storage(data);
    let px = crate::image::be_pixels(crate::image::i16_values(v), 2);
    assert(px.len() == 2 * data.len());
    assert(ser.len() == spec_padded_len(h.data_len));
    lemma_image_write_keeps_hdus(old_data, new_data, index, ser, r);
    let dl = h.data_len;
    let stored = Seq::new(v.len(), |i: int| v[i] as int);
    assert(!(h.info is CompressedImage));
    lemma_u16_storage_decodes(data);
    lemma_padded_len_bounds(dl);
    crate::hdu::lemma_parse_fits_layout(old_data);
    assert(crate::hdu::hdu_in_place(h, old_data.len() as int));
    if dl > 0 {
        let big = new_data.subrange(h.data_start, h.data_start + ser.len());
        assert(big == ser);
        assert(new_data.subrange(h.data_start, h.data_start + dl) =~= big.subrange(0, dl));
        assert(big.subrange(0, dl) =~= ser.subrange(0, dl));
    } else {
        assert(ser.subrange(0, 0) =~= Seq::<u8>::empty());
    }
    assert(crate::image::spec_read_image_data(new_data, h) == Ok::<crate::image::ImageValues, Error>(crate::image::ImageValues::I16(v)));
    assert(Seq::new(stored.len(), |i: int| stored[i] * 1 + 32768) =~= Seq::new(data.len(), |i: int| data[i] as int));
}

} // verus!
