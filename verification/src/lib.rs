//! A reversible transform between UTF-8 text and RGB raster images.
//!
//! Each 3-byte group of text becomes one pixel; zero-filled pixels pad the
//! buffer up to the capacity of the requested image size. The inverse
//! reconstructs the text from the raw pixel bytes, stripping trailing NUL
//! padding. Despite the historical naming, no cryptography is involved.

mod decrypt;
mod encrypt;
mod error;
mod rgb;

pub use decrypt::{decrypt, decrypt_bytes, lemma_round_trip, lemma_trim_trailing_nuls, trim_trailing_nuls};
pub use encrypt::{
    ceil_sqrt, default_size, encrypt, encrypt_outcome, is_ceil_sqrt, lemma_ceil_sqrt,
    lemma_default_capacity, parse_size, spec_height, spec_width, valid_size_spec, zero_bytes,
};
pub use error::{HexCryptError, HexCryptResult};
pub use rgb::{pixel_bytes, pixel_dims, PixelBuffer};
