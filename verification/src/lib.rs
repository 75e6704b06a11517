//! Pure FITS (Flexible Image Transport System) reading and writing, with
//! the byte-level layout, header grammar and checksum arithmetic verified.
#![allow(unused_imports)]

pub mod bintable;
pub mod block;
pub mod checksum;
pub mod compat;
pub mod endian;
pub mod error;
pub mod extension;
pub mod extract;
pub mod hdu;
pub mod header;
pub mod primary;
pub mod image;
pub mod info;
pub mod io;
pub mod table;
pub mod table_roundtrip;
pub mod text;
pub mod tiled;
pub mod value;

pub use block::{BLOCK_SIZE, CARDS_PER_BLOCK, CARD_SIZE};
pub use error::{Error, Result};
