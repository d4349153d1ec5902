//! Image files as bytes: decoding a file into an upright raster and
//! encoding a raster as PNG. Both are done by the `image` crate; what it
//! computes is named here, not proved.

use vstd::prelude::*;
use image::ImageDecoder;
use image::ImageEncoder;
use crate::error::{bytes_result, StegError};
use crate::raster::{raster_result, Image, Raster};

verus! {

/// The error type of the `image` crate.
#[verifier::external_type_specification]
#[verifier::external_body]
pub struct ExImageError(image::ImageError);

/// Width, height and RGBA samples that the built-in decoders of the `image`
/// crate give for the bytes of an image file, the format told from its
/// built-in signatures and orientation metadata applied; `None` where it
/// reports an error.
pub uninterp spec fn decoded_rgba(bytes: Seq<u8>) -> Option<(int, int, Seq<u8>)>;

/// Width, height and RGB samples that the built-in decoders of the `image`
/// crate give for the bytes of an image file, the format told from its
/// built-in signatures and orientation metadata applied; `None` where it
/// reports an error.
pub uninterp spec fn decoded_rgb(bytes: Seq<u8>) -> Option<(int, int, Seq<u8>)>;

/// The PNG file that the `image` crate writes for RGBA samples; `None`
/// where it reports an error.
pub uninterp spec fn png_rgba(width: int, height: int, pixels: Seq<u8>) -> Option<Seq<u8>>;

/// The PNG file that the `image` crate writes for RGB samples; `None` where
/// it reports an error.
pub uninterp spec fn png_rgb(width: int, height: int, pixels: Seq<u8>) -> Option<Seq<u8>>;

/// The eight bytes every PNG file begins with.
pub open spec fn png_signature() -> Seq<u8> {
    seq![0x89u8, 0x50u8, 0x4eu8, 0x47u8, 0x0du8, 0x0au8, 0x1au8, 0x0au8]
}

/// Whether the bytes begin with the PNG signature.
pub open spec fn is_png(bytes: Seq<u8>) -> bool {
    bytes.len() >= 8 && bytes.subrange(0, 8) == png_signature()
}

/// The raster made of what was decoded: `UnsupportedImage` where nothing
/// was, or where the samples do not match the size.
pub open spec fn loaded(decoded: Option<(int, int, Seq<u8>)>, channels: int) -> Result<Image, StegError> {
    match decoded {
        None => Err(StegError::UnsupportedImage),
        Some(d) => {
            let img = Image { width: d.0, height: d.1, channels, pixels: d.2 };
            if img.wf() {
                Ok(img)
            } else {
                Err(StegError::UnsupportedImage)
            }
        },
    }
}

/// The upright RGBA raster of an image file.
pub open spec fn loaded_rgba(bytes: Seq<u8>) -> Result<Image, StegError> {
    loaded(decoded_rgba(bytes), 4)
}

/// The upright RGB raster of an image file.
pub open spec fn loaded_rgb(bytes: Seq<u8>) -> Result<Image, StegError> {
    loaded(decoded_rgb(bytes), 3)
}

/// The PNG file of a raster, or `Io` where none could be written or what
/// was written does not begin with the PNG signature.
pub open spec fn png_file(img: Image) -> Result<Seq<u8>, StegError> {
    let written = if img.channels == 4 {
        png_rgba(img.width, img.height, img.pixels)
    } else {
        png_rgb(img.width, img.height, img.pixels)
    };
    match written {
        Some(bytes) => if is_png(bytes) {
            Ok(bytes)
        } else {
            Err(StegError::Io)
        },
        None => Err(StegError::Io),
    }
}

/// Calls the `image` crate: `guess_format` tells the format from the
/// built-in signatures, `ImageReader::with_format` builds the built-in
/// decoder for it, the orientation tag is applied and the image converted
/// to 8-bit RGBA. Neither call reads the hooks that a process may register,
/// so the result depends on the bytes alone. Trusted: the result is the one
/// named `decoded_rgba`, an error standing for `None`.
#[verifier::external_body]
fn decode_rgba8(bytes: &[u8]) -> (res: Result<(u32, u32, Vec<u8>), image::ImageError>)
    ensures
        match res {
            Ok(d) => decoded_rgba(bytes@) == Some((d.0 as int, d.1 as int, d.2@)),
            Err(_) => decoded_rgba(bytes@) is None,
        },
{
    let format = image::guess_format(bytes)?;
    let reader = image::ImageReader::with_format(std::io::Cursor::new(bytes), format);
    let mut decoder = reader.into_decoder()?;
    let orientation = decoder.orientation().unwrap_or(image::metadata::Orientation::NoTransforms);
    let mut img = image::DynamicImage::from_decoder(decoder)?;
    img.apply_orientation(orientation);
    let out = img.to_rgba8();
    Ok((out.width(), out.height(), out.into_raw()))
}

/// Calls the `image` crate: `guess_format` tells the format from the
/// built-in signatures, `ImageReader::with_format` builds the built-in
/// decoder for it, the orientation tag is applied and the image converted
/// to 8-bit RGB. Neither call reads the hooks that a process may register,
/// so the result depends on the bytes alone. Trusted: the result is the one
/// named `decoded_rgb`, an error standing for `None`.
#[verifier::external_body]
fn decode_rgb8(bytes: &[u8]) -> (res: Result<(u32, u32, Vec<u8>), image::ImageError>)
    ensures
        match res {
            Ok(d) => decoded_rgb(bytes@) == Some((d.0 as int, d.1 as int, d.2@)),
            Err(_) => decoded_rgb(bytes@) is None,
        },
{
    let format = image::guess_format(bytes)?;
    let reader = image::ImageReader::with_format(std::io::Cursor::new(bytes), format);
    let mut decoder = reader.into_decoder()?;
    let orientation = decoder.orientation().unwrap_or(image::metadata::Orientation::NoTransforms);
    let mut img = image::DynamicImage::from_decoder(decoder)?;
    img.apply_orientation(orientation);
    let out = img.to_rgb8();
    Ok((out.width(), out.height(), out.into_raw()))
}

/// Calls the PNG encoder of the `image` crate on RGBA samples. Trusted: the
/// result is the one named `png_rgba`, an error standing for `None`. The
/// encoder panics unless there are four samples per pixel.
#[verifier::external_body]
fn encode_png_rgba(pixels: &[u8], width: u32, height: u32) -> (res: Result<Vec<u8>, image::ImageError>)
    requires
        pixels.len() == width * height * 4,
    ensures
        match res {
            Ok(file) => png_rgba(width as int, height as int, pixels@) == Some(file@),
            Err(_) => png_rgba(width as int, height as int, pixels@) is None,
        },
{
    let mut out = std::io::Cursor::new(Vec::new());
    image::codecs::png::PngEncoder::new(&mut out).write_image(
        pixels,
        width,
        height,
        image::ExtendedColorType::Rgba8,
    )?;
    Ok(out.into_inner())
}

/// Calls the PNG encoder of the `image` crate on RGB samples. Trusted: the
/// result is the one named `png_rgb`, an error standing for `None`. The
/// encoder panics unless there are three samples per pixel.
#[verifier::external_body]
fn encode_png_rgb(pixels: &[u8], width: u32, height: u32) -> (res: Result<Vec<u8>, image::ImageError>)
    requires
        pixels.len() == width * height * 3,
    ensures
        match res {
            Ok(file) => png_rgb(width as int, height as int, pixels@) == Some(file@),
            Err(_) => png_rgb(width as int, height as int, pixels@) is None,
        },
{
    let mut out = std::io::Cursor::new(Vec::new());
    image::codecs::png::PngEncoder::new(&mut out).write_image(
        pixels,
        width,
        height,
        image::ExtendedColorType::Rgb8,
    )?;
    Ok(out.into_inner())
}

fn to_raster(decoded: Result<(u32, u32, Vec<u8>), image::ImageError>, channels: u8) -> (res: Result<
    Raster,
    StegError,
>)
    ensures
        res is Ok ==> res->Ok_0.wf(),
        raster_result(res) == loaded(
            match decoded {
                Ok(d) => Some((d.0 as int, d.1 as int, d.2@)),
                Err(_) => None,
            },
            channels as int,
        ),
{
    match decoded {
        Ok(d) => {
            let (width, height, pixels) = d;
            match Raster::new(width, height, channels, pixels) {
                Some(raster) => Ok(raster),
                None => Err(StegError::UnsupportedImage),
            }
        },
        Err(_) => Err(StegError::UnsupportedImage),
    }
}

/// Decodes the bytes of an image file into an upright RGBA raster. Fails
/// with `UnsupportedImage` when the bytes cannot be decoded.
pub fn load_rgba(bytes: &[u8]) -> (res: Result<Raster, StegError>)
    ensures
        raster_result(res) == loaded_rgba(bytes@),
        res is Ok ==> res->Ok_0.wf() && res->Ok_0.channels == 4,
{
    to_raster(decode_rgba8(bytes), 4)
}

/// Decodes the bytes of an image file into an upright RGB raster. Fails
/// with `UnsupportedImage` when the bytes cannot be decoded.
pub fn load_rgb(bytes: &[u8]) -> (res: Result<Raster, StegError>)
    ensures
        raster_result(res) == loaded_rgb(bytes@),
        res is Ok ==> res->Ok_0.wf() && res->Ok_0.channels == 3,
{
    to_raster(decode_rgb8(bytes), 3)
}

/// Whether the bytes begin with the PNG signature.
pub fn has_png_signature(bytes: &[u8]) -> (yes: bool)
    ensures
        yes == is_png(bytes@),
{
    if bytes.len() < 8 {
        return false;
    }
    let yes = bytes[0] == 0x89 && bytes[1] == 0x50 && bytes[2] == 0x4e && bytes[3] == 0x47
        && bytes[4] == 0x0d && bytes[5] == 0x0a && bytes[6] == 0x1a && bytes[7] == 0x0a;
    proof {
        let head = bytes@.subrange(0, 8);
        if yes {
            assert(head =~= png_signature());
        } else {
            assert(head[0] == bytes@[0] && head[1] == bytes@[1] && head[2] == bytes@[2] && head[3]
                == bytes@[3] && head[4] == bytes@[4] && head[5] == bytes@[5] && head[6]
                == bytes@[6] && head[7] == bytes@[7]);
        }
    }
    yes
}

/// Encodes a raster as a PNG file, and makes sure that the file begins with
/// the PNG signature. Fails with `Io` otherwise.
pub fn save_png(img: &Raster) -> (res: Result<Vec<u8>, StegError>)
    requires
        img.wf(),
    ensures
        bytes_result(res) == png_file(img@),
        res matches Ok(file) ==> is_png(file@),
{
    let written = if img.channels == 4 {
        encode_png_rgba(img.pixels.as_slice(), img.width, img.height)
    } else {
        encode_png_rgb(img.pixels.as_slice(), img.width, img.height)
    };
    match written {
        Ok(file) => {
            if has_png_signature(file.as_slice()) {
                Ok(file)
            } else {
                Err(StegError::Io)
            }
        },
        Err(_) => Err(StegError::Io),
    }
}

} // verus!
