use vstd::prelude::*;

use crate::pixel::{rgb_bytes, rgb_of};

verus! {

#[verifier::external_type_specification]
#[verifier::external_body]
pub struct ExEncodingError(png::EncodingError);

/// The PNG file that png's encoder writes for an 8-bit RGB image of these dimensions and bytes.
pub uninterp spec fn png_rgb8(width: u32, height: u32, rgb: Seq<u8>) -> Seq<u8>;

/// Why a frame could not be turned into a PNG file.
#[derive(Clone, Copy, Debug, PartialEq, Eq, Structural)]
pub enum ImageError {
    /// The pixel count is not `width * height`.
    SizeMismatch,
    /// The RGB bytes of the frame would not fit in the address space.
    TooLarge,
    /// The PNG encoder refused the image.
    Encoding,
}

/// Relies on png's `Encoder` (with `write_header`, `write_image_data` and `finish`), set to
/// 8-bit RGB without alpha and writing into memory: on success, the bytes written depend on the
/// dimensions and the image data alone; it fails only on a zero width or height, or on data whose
/// length is not three bytes per pixel. The bound keeps the encoder's row and image sizes, which
/// it computes in `usize`, from overflowing.
#[verifier::external_body]
fn png_encode_rgb8(width: u32, height: u32, rgb: &Vec<u8>) -> (r: Result<Vec<u8>, png::EncodingError>)
    requires
        3 * width * height < usize::MAX,
    ensures
        r matches Ok(bytes) ==> bytes@ == png_rgb8(width, height, rgb@),
        width > 0 && height > 0 && rgb@.len() == 3 * width * height ==> r is Ok,
{
    let mut out: Vec<u8> = Vec::new();
    let mut encoder = png::Encoder::new(&mut out, width, height);
    encoder.set_color(png::ColorType::Rgb);
    encoder.set_depth(png::BitDepth::Eight);
    let mut writer = encoder.write_header()?;
    writer.write_image_data(rgb.as_slice())?;
    writer.finish()?;
    Ok(out)
}

/// Encodes a row-major frame of packed `0x00RRGGBB` pixels as an 8-bit RGB PNG file.
pub fn encode_png(width: u32, height: u32, pixels: &Vec<u32>) -> (r: Result<Vec<u8>, ImageError>)
    ensures
        pixels@.len() != width * height ==> r == Err::<Vec<u8>, ImageError>(ImageError::SizeMismatch),
        pixels@.len() == width * height && 3 * pixels@.len() >= usize::MAX ==> r == Err::<
            Vec<u8>,
            ImageError,
        >(ImageError::TooLarge),
        pixels@.len() == width * height && 3 * pixels@.len() < usize::MAX ==> match r {
            Ok(bytes) => bytes@ == png_rgb8(width, height, rgb_of(pixels@)),
            Err(e) => e == ImageError::Encoding && (width == 0 || height == 0),
        },
{
    assert(width as int * height as int <= u32::MAX as int * u32::MAX as int) by (nonlinear_arith);
    if pixels.len() as u64 != width as u64 * height as u64 {
        return Err(ImageError::SizeMismatch);
    }
    if pixels.len() > usize::MAX / 3 || pixels.len() * 3 == usize::MAX {
        return Err(ImageError::TooLarge);
    }
    let rgb = rgb_bytes(pixels);
    assert(rgb@.len() == 3 * width * height) by (nonlinear_arith)
        requires
            rgb@.len() == 3 * pixels@.len(),
            pixels@.len() == width * height,
    ;
    match png_encode_rgb8(width, height, &rgb) {
        Ok(bytes) => Ok(bytes),
        Err(_) => Err(ImageError::Encoding),
    }
}

} // verus!
