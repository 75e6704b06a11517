//! Value types of an API that mirrors the `fitsio` crate: errors, image
//! types, column descriptions and header values.
use vstd::prelude::*;

pub mod errors;
pub mod fitsfile;
pub mod hdu;
pub mod headers;
pub mod images;
pub mod rewrite;
pub mod tables;

verus! {

} // verus!
