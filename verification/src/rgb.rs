use vstd::prelude::*;

verus! {

/// An RGB pixel buffer: a thin holder for the outside codec's image value,
/// which Verus does not look into. What it holds is reached in contracts
/// only through [`pixel_bytes`] and [`pixel_dims`].
#[derive(Debug)]
#[verifier::external_body]
pub struct PixelBuffer {
    /// The image value of the `image` crate; the I/O layer reads it to
    /// persist the image as a file.
    pub image: image::RgbImage,
}

/// The raw bytes a pixel buffer holds: row-major, three bytes per pixel, in
/// (R, G, B) channel order.
pub uninterp spec fn pixel_bytes(buf: PixelBuffer) -> Seq<u8>;

/// The (width, height) a pixel buffer was created with.
pub uninterp spec fn pixel_dims(buf: PixelBuffer) -> (u32, u32);

/// Relies on `image::ImageBuffer::from_raw`: a buffer of exactly
/// `width * height * 3` bytes is accepted (its length passes the
/// `check_image_fits` test) and is kept, unchanged, as the image's raw
/// contents, together with the given dimensions.
#[verifier::external_body]
pub(crate) fn rgb_from_raw(width: u32, height: u32, buf: Vec<u8>) -> (r: PixelBuffer)
    requires
        buf@.len() == 3 * (width as int) * (height as int),
    ensures
        pixel_bytes(r) == buf@,
        pixel_dims(r) == (width, height),
{
    PixelBuffer { image: image::RgbImage::from_raw(width, height, buf).unwrap() }
}

/// Relies on `image::ImageBuffer::as_raw`: returns a copy of the raw byte
/// container the image holds.
#[verifier::external_body]
pub(crate) fn rgb_raw_bytes(buf: &PixelBuffer) -> (r: Vec<u8>)
    ensures
        r@ == pixel_bytes(*buf),
{
    buf.image.as_raw().clone()
}

} // verus!
