use vstd::prelude::*;

verus! {

/// The closed set of failures shared by the encoding and decoding directions.
///
/// Every fallible operation of this crate reports one of these kinds; nothing
/// is recovered internally, each error surfaces immediately to the caller.
#[derive(Debug)]
pub enum HexCryptError {
    /// An underlying file read or write failed.
    IoError,
    /// The size specifier does not match the `<integer>x<integer>` pattern;
    /// carries the offending string.
    InvalidImageSize(String),
    /// The requested dimensions cannot hold the byte buffer, or the buffer
    /// length does not match the pixel capacity exactly; carries the
    /// attempted (width, height).
    CannotCreateImage(u32, u32),
    /// The underlying image codec failed to decode or encode a file.
    ImageError,
    /// Decoded pixel bytes are not valid UTF-8.
    BytesToString,
}

/// Shorthand for a `Result` whose error type is [`HexCryptError`].
pub type HexCryptResult<T> = Result<T, HexCryptError>;

} // verus!
