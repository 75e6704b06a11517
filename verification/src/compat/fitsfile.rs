//! An open FITS file held in memory, in the style of the `fitsio` crate.
//!
//! The file's bytes live in memory; reading them from disk and writing
//! them back is left to the caller.
use vstd::prelude::*;

use super::errors::{Error, Result};
use super::hdu::FitsHdu;
use super::images::{spec_to_bitpix, spec_unsigned_bzero, ImageDescription, ImageType};
use crate::bintable::{binary_columns_view, build_binary_table_cards, offsets_fit, spec_binary_table_cards, BinaryColumnDescriptor};
use crate::block::{lemma_padded_len_bounds, padded_byte_len, spec_padded_len};
use crate::extension::{build_extension_header, spec_extension_cards, ExtensionType};
use crate::hdu::{hdus_view, parse_fits, spec_parse_fits, FitsData, Hdu, HduModel};
use crate::header::{cards_view, kw, kw_pad, serialize_header, spec_serialize_header, Card, CardModel};
use crate::primary::{build_primary_header, product, spec_primary_cards};
use crate::text::trimmed_equals;
use crate::value::{Value, ValueModel};

verus! {

/// Whether a file is opened for reading or writing.
#[derive(Debug, Clone, Copy, PartialEq, Eq, Structural)]
pub enum FileOpenMode {
    ReadOnly,
    ReadWrite,
}

/// An in-memory representation of an open FITS file.
#[derive(Debug)]
pub struct FitsFile {
    data: Vec<u8>,
    filename: String,
    mode: FileOpenMode,
}

/// The content of a [`FitsFile`].
pub struct FitsFileModel {
    pub data: Seq<u8>,
    pub filename: Seq<char>,
    pub mode: FileOpenMode,
}

impl View for FitsFile {
    type V = FitsFileModel;

    closed spec fn view(&self) -> FitsFileModel {
        FitsFileModel { data: self.data@, filename: self.filename@, mode: self.mode }
    }
}

/// Builder for creating a new FITS file.
pub struct NewFitsFile {
    path: String,
    overwrite: bool,
}

impl View for NewFitsFile {
    type V = (Seq<char>, bool);

    closed spec fn view(&self) -> (Seq<char>, bool) {
        (self.path@, self.overwrite)
    }
}

/// The `EXTNAME` keyword.
pub open spec fn extname_keyword() -> Seq<u8> {
    kw_pad(seq![69u8, 88u8, 84u8, 78u8, 65u8, 77u8, 69u8])
}

/// The card naming an extension.
pub open spec fn extname_card(name: Seq<char>) -> CardModel {
    CardModel { keyword: extname_keyword(), value: Some(ValueModel::Str(name)), comment: None }
}

/// An HDU carries an `EXTNAME` card whose string value, without
/// surrounding whitespace, is `name`.
pub open spec fn names_hdu(h: HduModel, name: Seq<char>) -> bool {
    exists|j: int| 0 <= j < h.cards.len() && #[trigger] h.cards[j].keyword == extname_keyword()
        && (h.cards[j].value matches Some(ValueModel::Str(s)) && crate::text::trim(s) == name)
}

/// The index of the first HDU, from `i` on, that `name` names.
pub open spec fn first_named(hdus: Seq<HduModel>, name: Seq<char>, i: int) -> Option<int>
    decreases hdus.len() - i,
{
    if i < 0 || i >= hdus.len() {
        None
    } else if names_hdu(hdus[i], name) {
        Some(i)
    } else {
        first_named(hdus, name, i + 1)
    }
}

/// Something that picks out an HDU of a file: an index or an `EXTNAME`.
pub trait DescribesHdu {
    /// The index of the HDU described, among `hdus`.
    spec fn described(&self, hdus: Seq<HduModel>) -> Option<int>;

    /// The described HDU and its index.
    fn get_hdu<'a>(&self, fits_data: &'a FitsData) -> (r: Option<(usize, &'a Hdu)>)
        ensures
            r is None <==> self.described(hdus_view(fits_data.hdus@)) is None,
            r matches Some((i, h)) ==> self.described(hdus_view(fits_data.hdus@)) == Some(i as int)
                && i < fits_data.hdus@.len() && *h == fits_data.hdus@[i as int];
}

impl DescribesHdu for usize {
    open spec fn described(&self, hdus: Seq<HduModel>) -> Option<int> {
        if *self < hdus.len() { Some(*self as int) } else { None }
    }

    fn get_hdu<'a>(&self, fits_data: &'a FitsData) -> (r: Option<(usize, &'a Hdu)>) {
        if *self < fits_data.hdus.len() {
            Some((*self, &fits_data.hdus[*self]))
        } else {
            None
        }
    }
}

/// Whether an HDU's cards name it `name` through `EXTNAME`.
fn hdu_named(cards: &[Card], name: &str) -> (r: bool)
    ensures
        r == exists|j: int| 0 <= j < cards@.len() && #[trigger] cards_view(cards@)[j].keyword == extname_keyword()
            && (cards_view(cards@)[j].value matches Some(ValueModel::Str(s)) && crate::text::trim(s) == name@),
{
    let ghost cv = cards_view(cards@);
    let key = kw(&[69u8, 88u8, 84u8, 78u8, 65u8, 77u8, 69u8]);
    assert(seq![69u8, 88u8, 84u8, 78u8, 65u8, 77u8, 69u8] =~= [69u8, 88u8, 84u8, 78u8, 65u8, 77u8, 69u8]@);
    let mut j: usize = 0;
    while j < cards.len()
        invariant
            j <= cards@.len(),
            cv == cards_view(cards@),
            key@ == extname_keyword(),
            forall|k: int| 0 <= k < j ==> !(#[trigger] cv[k].keyword == extname_keyword()
                && (cv[k].value matches Some(ValueModel::Str(s)) && crate::text::trim(s) == name@)),
        decreases cards@.len() - j,
    {
        let c = &cards[j];
        assert(cv[j as int] == c@);
        if crate::header::keyword_eq(&c.keyword, &key) {
            match &c.value {
                Some(Value::String(s)) => {
                    if trimmed_equals(s.as_str(), name) {
                        assert(cv[j as int].keyword == extname_keyword());
                        assert(cv[j as int].value == Some(ValueModel::Str(s@)));
                        return true;
                    }
                },
                _ => {},
            }
        }
        j += 1;
    }
    false
}

impl<'b> DescribesHdu for &'b str {
    open spec fn described(&self, hdus: Seq<HduModel>) -> Option<int> {
        first_named(hdus, self@, 0)
    }

    fn get_hdu<'a>(&self, fits_data: &'a FitsData) -> (r: Option<(usize, &'a Hdu)>) {
        let ghost hs = hdus_view(fits_data.hdus@);
        let mut i: usize = 0;
        while i < fits_data.hdus.len()
            invariant
                i <= fits_data.hdus@.len(),
                hs == hdus_view(fits_data.hdus@),
                first_named(hs, self@, 0) == first_named(hs, self@, i as int),
            decreases fits_data.hdus@.len() - i,
        {
            let h = &fits_data.hdus[i];
            assert(hs[i as int] == h@);
            if hdu_named(h.cards.as_slice(), *self) {
                return Some((i, h));
            }
            i += 1;
        }
        None
    }
}

impl DescribesHdu for String {
    open spec fn described(&self, hdus: Seq<HduModel>) -> Option<int> {
        first_named(hdus, self@, 0)
    }

    fn get_hdu<'a>(&self, fits_data: &'a FitsData) -> (r: Option<(usize, &'a Hdu)>) {
        let name: &str = self.as_str();
        name.get_hdu(fits_data)
    }
}

/// The message of an error for an HDU that is not there.
pub open spec fn not_found_message() -> Seq<char> {
    "HDU not found"@
}

/// The header of the one HDU of a new file: an empty primary image.
pub open spec fn new_file_header() -> Seq<u8> {
    spec_serialize_header(spec_primary_cards(8, Seq::empty()))
}

/// The bytes a pixel of BITPIX `bitpix` takes.
pub open spec fn pixel_bytes(bitpix: i64) -> int {
    (if bitpix < 0 { -(bitpix as int) } else { bitpix as int }) / 8
}

/// The `BZERO` keyword.
pub open spec fn bzero_keyword() -> Seq<u8> {
    kw_pad(seq![66u8, 90u8, 69u8, 82u8, 79u8])
}

/// The header cards of a new image extension: the mandatory keywords, its
/// `EXTNAME`, and for an unsigned (or signed byte) type the `BZERO` that
/// stores it in the signed type of its BITPIX.
pub open spec fn image_extension_cards(extname: Seq<char>, t: ImageType, dims: Seq<usize>) -> Seq<CardModel> {
    let base = spec_extension_cards(ExtensionType::Image, spec_to_bitpix(t), dims, 0, 1).push(extname_card(extname));
    match spec_unsigned_bzero(t) {
        Some(z) => base.push(CardModel { keyword: bzero_keyword(), value: Some(z), comment: None }),
        None => base,
    }
}

/// The bytes a new image extension adds: its header and zeroed data
/// blocks.
pub open spec fn image_extension_bytes(extname: Seq<char>, t: ImageType, dims: Seq<usize>) -> Seq<u8> {
    let bytes = product(dims) * pixel_bytes(spec_to_bitpix(t));
    spec_serialize_header(image_extension_cards(extname, t, dims))
        + Seq::new(spec_padded_len(bytes) as nat, |i: int| 0u8)
}

/// A new image extension fits: its header has fewer than a few thousand
/// cards, and its data and the whole file fit in memory.
pub open spec fn image_fits(data_len: int, desc_bitpix: i64, dims: Seq<usize>) -> bool {
    &&& dims.len() < 1000
    &&& crate::primary::prefix_products_fit(pixel_bytes(desc_bitpix), dims)
    &&& spec_padded_len(product(dims) * pixel_bytes(desc_bitpix)) <= usize::MAX
    &&& data_len + 2880 * 100 + spec_padded_len(product(dims) * pixel_bytes(desc_bitpix))
        + 2880 <= usize::MAX
}

impl FitsFile {
    /// A file whose bytes were read from `filename`.
    pub fn from_bytes(data: Vec<u8>, filename: String, mode: FileOpenMode) -> (r: FitsFile)
        ensures
            r@.data == data@,
            r@.filename == filename@,
            r@.mode == mode,
    {
        FitsFile { data, filename, mode }
    }

    /// Return a builder for creating a new FITS file.
    pub fn create(path: &str) -> (r: NewFitsFile)
        ensures
            r@ == (path@, false),
    {
        NewFitsFile { path: String::from_str(path), overwrite: false }
    }

    /// Return a handle to the primary HDU (index 0).
    pub fn primary_hdu(&self) -> (r: Result<FitsHdu>)
        ensures
            r matches Ok(h) && h.hdu_index == 0,
    {
        Ok(FitsHdu { hdu_index: 0 })
    }

    /// Return a handle to the HDU described by `desc` (index or name).
    pub fn hdu<D: DescribesHdu>(&self, desc: D) -> (r: Result<FitsHdu>)
        requires
            self@.data.len() + 2880 <= usize::MAX,
        ensures
            match spec_parse_fits(self@.data) {
                Err(e) => r matches Err(Error::Fits(f)) && f == e,
                Ok(hs) => match desc.described(hs) {
                    Some(i) => r matches Ok(h) && h.hdu_index == i,
                    None => r matches Err(Error::Message(m)) && m@ == not_found_message(),
                },
            },
    {
        let fits_data = match parse_fits(self.data.as_slice()) {
            Ok(f) => f,
            Err(e) => return Err(Error::Fits(e)),
        };
        match desc.get_hdu(&fits_data) {
            Some((idx, _)) => Ok(FitsHdu { hdu_index: idx }),
            None => Err(Error::Message(String::from_str("HDU not found"))),
        }
    }

    /// Return the number of HDUs in this file.
    pub fn num_hdus(&self) -> (r: Result<usize>)
        requires
            self@.data.len() + 2880 <= usize::MAX,
        ensures
            match spec_parse_fits(self@.data) {
                Err(e) => r matches Err(Error::Fits(f)) && f == e,
                Ok(hs) => r == Ok::<usize, Error>(hs.len() as usize),
            },
    {
        match parse_fits(self.data.as_slice()) {
            Ok(f) => Ok(f.hdus.len()),
            Err(e) => Err(Error::Fits(e)),
        }
    }

    /// Return handles to all HDUs in the file.
    pub fn iter(&self) -> (r: Result<Vec<FitsHdu>>)
        requires
            self@.data.len() + 2880 <= usize::MAX,
        ensures
            match spec_parse_fits(self@.data) {
                Err(e) => r matches Err(Error::Fits(f)) && f == e,
                Ok(hs) => r matches Ok(v) && v@.len() == hs.len()
                    && forall|i: int| 0 <= i < v@.len() ==> #[trigger] v@[i].hdu_index == i,
            },
    {
        let n = match parse_fits(self.data.as_slice()) {
            Ok(f) => f.hdus.len(),
            Err(e) => return Err(Error::Fits(e)),
        };
        let mut v: Vec<FitsHdu> = Vec::new();
        let mut i: usize = 0;
        while i < n
            invariant
                i <= n,
                v@.len() == i,
                forall|k: int| 0 <= k < i ==> #[trigger] v@[k].hdu_index == k,
            decreases n - i,
        {
            v.push(FitsHdu { hdu_index: i });
            i += 1;
        }
        Ok(v)
    }

    /// Append a header, then `padded` zero bytes, to the file's bytes.
    fn append_hdu(&mut self, header_bytes: &[u8], padded: usize)
        ensures
            final(self)@.data == old(self)@.data + header_bytes@ + Seq::new(padded as nat, |i: int| 0u8),
            final(self)@.filename == old(self)@.filename,
            final(self)@.mode == old(self)@.mode,
    {
        let ghost start = self.data@;
        self.data.extend_from_slice(header_bytes);
        let mut k: usize = 0;
        while k < padded
            invariant
                k <= padded,
                self.data@ == start + header_bytes@ + Seq::new(k as nat, |i: int| 0u8),
                self.filename == old(self).filename,
                self.mode == old(self).mode,
            decreases padded - k,
        {
            self.data.push(0u8);
            k += 1;
            assert(self.data@ =~= start + header_bytes@ + Seq::new(k as nat, |i: int| 0u8));
        }
    }

    /// The handle of the last HDU of the file.
    fn last_hdu(&self) -> (r: Result<FitsHdu>)
        requires
            self@.data.len() + 2880 <= usize::MAX,
        ensures
            match spec_parse_fits(self@.data) {
                Err(e) => r matches Err(Error::Fits(f)) && f == e,
                Ok(hs) => r matches Ok(h) && h.hdu_index == hs.len() - 1,
            },
    {
        match parse_fits(self.data.as_slice()) {
            Ok(f) => Ok(FitsHdu { hdu_index: f.hdus.len() - 1 }),
            Err(e) => Err(Error::Fits(e)),
        }
    }

    /// Create a new image extension HDU with the given name and description.
    pub fn create_image(&mut self, extname: &str, desc: &ImageDescription) -> (r: Result<FitsHdu>)
        requires
            image_fits(old(self)@.data.len() as int, spec_to_bitpix(desc.data_type), desc.dimensions@),
        ensures
            final(self)@.data == old(self)@.data + image_extension_bytes(extname@, desc.data_type, desc.dimensions@),
            final(self)@.filename == old(self)@.filename,
            final(self)@.mode == old(self)@.mode,
            match spec_parse_fits(final(self)@.data) {
                Err(e) => r matches Err(Error::Fits(f)) && f == e,
                Ok(hs) => r matches Ok(h) && h.hdu_index == hs.len() - 1,
            },
    {
        let bitpix = desc.data_type.to_bitpix();
        let naxes = desc.dimensions.as_slice();
        let mut cards = match build_extension_header(ExtensionType::Image, bitpix, naxes, 0, 1) {
            Ok(c) => c,
            Err(e) => return Err(Error::Fits(e)),
        };
        let key = kw(&[69u8, 88u8, 84u8, 78u8, 65u8, 77u8, 69u8]);
        assert(seq![69u8, 88u8, 84u8, 78u8, 65u8, 77u8, 69u8] =~= [69u8, 88u8, 84u8, 78u8, 65u8, 77u8, 69u8]@);
        let ghost before = cards_view(cards@);
        cards.push(Card { keyword: key, value: Some(Value::String(String::from_str(extname))), comment: None });
        assert(cards_view(cards@) =~= before.push(extname_card(extname@)));
        let ghost with_name = cards_view(cards@);
        match desc.data_type.unsigned_bzero() {
            Some(z) => {
                let zk = kw(&[66u8, 90u8, 69u8, 82u8, 79u8]);
                assert(seq![66u8, 90u8, 69u8, 82u8, 79u8] =~= [66u8, 90u8, 69u8, 82u8, 79u8]@);
                cards.push(Card { keyword: zk, value: Some(z), comment: None });
                assert(cards_view(cards@) =~= image_extension_cards(extname@, desc.data_type, desc.dimensions@));
            },
            None => {
                assert(cards_view(cards@) =~= image_extension_cards(extname@, desc.data_type, desc.dimensions@));
            },
        }
        let header_bytes = serialize_header(cards.as_slice());
        let bpp: usize = if bitpix < 0 { (-bitpix) as usize / 8 } else { bitpix as usize / 8 };
        assert(bpp == pixel_bytes(bitpix));
        let data_bytes = crate::primary::scaled_product(bpp, naxes);
        proof {
            crate::primary::lemma_product_nonneg(desc.dimensions@);
            assert(product(desc.dimensions@) * pixel_bytes(bitpix) == data_bytes);
            lemma_padded_len_bounds((80 * (cards@.len() + 1)) as int);
        }
        let padded = padded_byte_len(data_bytes);
        self.append_hdu(header_bytes.as_slice(), padded);
        self.last_hdu()
    }

    /// The header cards of a new binary table extension with no rows.
    fn table_header(extname: &str, columns: &[BinaryColumnDescriptor]) -> (r: Result<Vec<Card>>)
        requires
            offsets_fit(binary_columns_view(columns@)),
            columns@.len() < 1000,
        ensures
            r matches Ok(cs) && cards_view(cs@) == spec_binary_table_cards(binary_columns_view(columns@), 0, 0).push(extname_card(extname@))
                && cs@.len() <= 2 * columns@.len() + 20,
    {
        let mut cards = match build_binary_table_cards(columns, 0, 0) {
            Ok(c) => c,
            Err(e) => return Err(Error::Fits(e)),
        };
        proof {
            crate::bintable::lemma_columns_cards_len(binary_columns_view(columns@), columns@.len() as nat);
        }
        let key = kw(&[69u8, 88u8, 84u8, 78u8, 65u8, 77u8, 69u8]);
        assert(seq![69u8, 88u8, 84u8, 78u8, 65u8, 77u8, 69u8] =~= [69u8, 88u8, 84u8, 78u8, 65u8, 77u8, 69u8]@);
        let ghost before = cards_view(cards@);
        cards.push(Card { keyword: key, value: Some(Value::String(String::from_str(extname))), comment: None });
        assert(cards_view(cards@) =~= before.push(extname_card(extname@)));
        Ok(cards)
    }

    /// Create a new binary table extension HDU.
    pub fn create_table(&mut self, extname: &str, columns: &[BinaryColumnDescriptor]) -> (r: Result<FitsHdu>)
        requires
            offsets_fit(binary_columns_view(columns@)),
            columns@.len() < 1000,
            old(self)@.data.len() + 2880 * 100 <= usize::MAX,
        ensures
            final(self)@.data == old(self)@.data + spec_serialize_header(
                spec_binary_table_cards(binary_columns_view(columns@), 0, 0).push(extname_card(extname@))),
            final(self)@.filename == old(self)@.filename,
            final(self)@.mode == old(self)@.mode,
            match spec_parse_fits(final(self)@.data) {
                Err(e) => r matches Err(Error::Fits(f)) && f == e,
                Ok(hs) => r matches Ok(h) && h.hdu_index == hs.len() - 1,
            },
    {
        let cards = match Self::table_header(extname, columns) {
            Ok(c) => c,
            Err(e) => return Err(e),
        };
        let header_bytes = serialize_header(cards.as_slice());
        proof {
            lemma_padded_len_bounds((80 * (cards@.len() + 1)) as int);
        }
        self.append_hdu(header_bytes.as_slice(), 0);
        assert(self.data@ =~= old(self)@.data + header_bytes@);
        self.last_hdu()
    }

    /// Return a reference to the in-memory FITS bytes.
    pub fn data(&self) -> (r: &[u8])
        ensures
            r@ == self@.data,
    {
        self.data.as_slice()
    }

    /// Replace the in-memory FITS bytes (used by write operations).
    pub fn set_data(&mut self, data: Vec<u8>)
        ensures
            final(self)@.data == data@,
            final(self)@.filename == old(self)@.filename,
            final(self)@.mode == old(self)@.mode,
    {
        self.data = data;
    }

    /// Return the file path.
    pub fn filename(&self) -> (r: &str)
        ensures
            r@ == self@.filename,
    {
        self.filename.as_str()
    }

    /// Return the open mode.
    pub fn mode(&self) -> (r: FileOpenMode)
        ensures
            r == self@.mode,
    {
        self.mode
    }
}

impl NewFitsFile {
    /// Set whether to overwrite an existing file.
    pub fn overwrite(self) -> (r: Self)
        ensures
            r@ == (self@.0, true),
    {
        NewFitsFile { path: self.path, overwrite: true }
    }

    /// The path of the file to create.
    pub fn path(&self) -> (r: &str)
        ensures
            r@ == self@.0,
    {
        self.path.as_str()
    }

    /// Whether an existing file may be replaced.
    pub fn overwrites(&self) -> (r: bool)
        ensures
            r == self@.1,
    {
        self.overwrite
    }

    /// The new file, open for writing, holding a minimal primary HDU.
    pub fn into_file(self) -> (r: Result<FitsFile>)
        ensures
            r matches Ok(f) && f@.data == new_file_header() && f@.filename == self@.0
                && f@.mode == FileOpenMode::ReadWrite,
    {
        let empty: [usize; 0] = [];
        assert(empty@ =~= Seq::<usize>::empty());
        let cards = match build_primary_header(8, &empty) {
            Ok(c) => c,
            Err(e) => return Err(Error::Fits(e)),
        };
        let header_bytes = serialize_header(cards.as_slice());
        Ok(FitsFile { data: header_bytes, filename: self.path, mode: FileOpenMode::ReadWrite })
    }
}

} // verus!
