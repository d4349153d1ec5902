//! The least-significant-bit codec. The framed payload replaces the lowest
//! bit of the red, green and blue samples, pixel by pixel from the top-left
//! corner; alpha is left alone.

use vstd::prelude::*;
use crate::bits::{bits_of_bytes, bytes_to_bits};
use crate::error::{bytes_result, StegError};
use crate::frame::{find_frame, lemma_find_frame_at_start, search_frame, wrap, wrap_payload};
use crate::image_io::{is_png, load_rgba, loaded_rgba, png_file, save_png};
use crate::raster::{raster_result, with_pixels, Image, Raster};

verus! {

/// The buffer position that carries bit `t`: colour sample `t % 3` of pixel
/// `t / 3`.
pub open spec fn carrier(t: int) -> int {
    4 * (t / 3) + t % 3
}

/// Number of bits an RGBA buffer carries: three per pixel.
pub open spec fn capacity_bits(pixels: Seq<u8>) -> int {
    3 * (pixels.len() as int / 4)
}

/// `v` with its lowest bit replaced by `bit`.
pub open spec fn with_low_bit(v: u8, bit: bool) -> u8 {
    (v - v % 2 + if bit {
        1int
    } else {
        0int
    }) as u8
}

/// The samples with the bit string written into them from the first pixel
/// on.
pub open spec fn embed_pixels(pixels: Seq<u8>, bits: Seq<bool>) -> Seq<u8> {
    Seq::new(
        pixels.len(),
        |p: int|
            if p % 4 < 3 && 3 * (p / 4) + p % 4 < bits.len() {
                with_low_bit(pixels[p], bits[3 * (p / 4) + p % 4])
            } else {
                pixels[p]
            },
    )
}

/// The bits an RGBA buffer carries: the lowest bit of each colour sample in
/// buffer order.
pub open spec fn carried_bits(pixels: Seq<u8>) -> Seq<bool> {
    Seq::new(capacity_bits(pixels) as nat, |t: int| pixels[carrier(t)] % 2 == 1)
}

/// Encoding a payload into a cover. Fails with `TooLarge` when the framed
/// payload has more bits than the cover has colour samples, or the payload
/// exceeds the length field.
pub open spec fn encode_image(cover: Image, payload: Seq<u8>) -> Result<Image, StegError> {
    if payload.len() > u32::MAX || 8 * (11 + payload.len()) > capacity_bits(cover.pixels) {
        Err(StegError::TooLarge)
    } else {
        Ok(with_pixels(cover, embed_pixels(cover.pixels, bits_of_bytes(wrap(payload)))))
    }
}

/// Decoding an image: the first frame among the carried bits, or
/// `NotFound`.
pub open spec fn decode_image(img: Image) -> Result<Seq<u8>, StegError> {
    match find_frame(carried_bits(img.pixels)) {
        Some(body) => Ok(body),
        None => Err(StegError::NotFound),
    }
}

/// Encodes a payload into an RGBA cover and returns the stego raster.
pub fn encode_raster(cover: &Raster, payload: &[u8]) -> (res: Result<Raster, StegError>)
    requires
        cover.wf(),
        cover.channels == 4,
    ensures
        raster_result(res) == encode_image(cover@, payload@),
        res is Ok ==> res->Ok_0.wf(),
{
    let total = cover.pixels.len();
    let capacity: usize = (total / 4) * 3;
    if payload.len() > 0xffff_ffff {
        return Err(StegError::TooLarge);
    }
    let need: u64 = 8 * (11 + payload.len() as u64);
    if need > capacity as u64 {
        return Err(StegError::TooLarge);
    }
    let frame = wrap_payload(payload);
    let bits = bytes_to_bits(frame.as_slice());
    let mut pixels: Vec<u8> = vstd::slice::slice_to_vec(cover.pixels.as_slice());
    let count = bits.len();
    let mut t: usize = 0;
    while t < count
        invariant
            count == bits@.len(),
            count <= 3 * (total / 4),
            total == cover.pixels@.len(),
            pixels@.len() == total,
            t <= count,
            forall|p: int|
                0 <= p < total ==> #[trigger] pixels@[p] == (if p % 4 < 3 && 3 * (p / 4) + p % 4 < t {
                    with_low_bit(cover.pixels@[p], bits@[3 * (p / 4) + p % 4])
                } else {
                    cover.pixels@[p]
                }),
        decreases count - t,
    {
        let at: usize = 4 * (t / 3) + t % 3;
        let v = pixels[at];
        let b: u8 = if bits[t] {
            1
        } else {
            0
        };
        pixels[at] = v - v % 2 + b;
        t = t + 1;
    }
    proof {
        assert(pixels@ =~= embed_pixels(cover.pixels@, bits@));
    }
    Ok(Raster { width: cover.width, height: cover.height, channels: 4, pixels })
}

/// Decodes the payload of an RGBA stego raster.
pub fn decode_raster(image: &Raster) -> (res: Result<Vec<u8>, StegError>)
    requires
        image.wf(),
        image.channels == 4,
    ensures
        bytes_result(res) == decode_image(image@),
{
    let total = image.pixels.len();
    let count: usize = (total / 4) * 3;
    let mut bits: Vec<bool> = Vec::new();
    let mut t: usize = 0;
    while t < count
        invariant
            total == image.pixels@.len(),
            count == 3 * (total / 4),
            t <= count,
            bits@.len() == t,
            forall|k: int| 0 <= k < t ==> bits@[k] == (image.pixels@[carrier(k)] % 2 == 1),
        decreases count - t,
    {
        let at: usize = 4 * (t / 3) + t % 3;
        bits.push(image.pixels[at] % 2 == 1);
        t = t + 1;
    }
    proof {
        assert(bits@ =~= carried_bits(image.pixels@));
    }
    search_frame(bits.as_slice())
}

/// The bits carried after embedding begin with the bits embedded.
pub proof fn lemma_carried_prefix(pixels: Seq<u8>, bits: Seq<bool>)
    requires
        bits.len() <= capacity_bits(pixels),
    ensures
        carried_bits(embed_pixels(pixels, bits)).len() == capacity_bits(pixels),
        carried_bits(embed_pixels(pixels, bits)).subrange(0, bits.len() as int) == bits,
{
    let out = embed_pixels(pixels, bits);
    let got = carried_bits(out);
    assert forall|t: int| 0 <= t < bits.len() implies got[t] == bits[t] by {
        let p = carrier(t);
        assert(p % 4 == t % 3);
        assert(p / 4 == t / 3);
    }
    assert(got.subrange(0, bits.len() as int) =~= bits);
}

/// Round trip. A payload that a cover has room for is read back from the
/// encoded image.
pub proof fn lemma_round_trip(cover: Image, payload: Seq<u8>)
    requires
        encode_image(cover, payload) is Ok,
    ensures
        decode_image(encode_image(cover, payload)->Ok_0) == Ok::<Seq<u8>, StegError>(payload),
{
    let frame = wrap(payload);
    let bits = bits_of_bytes(frame);
    let out = with_pixels(cover, embed_pixels(cover.pixels, bits));
    assert(frame.len() == 11 + payload.len());
    lemma_carried_prefix(cover.pixels, bits);
    lemma_find_frame_at_start(carried_bits(out.pixels), payload);
}

/// What encoding an image file gives: the cover is decoded, the payload
/// embedded, and the result written as PNG.
pub open spec fn encode_file(image: Seq<u8>, payload: Seq<u8>) -> Result<Seq<u8>, StegError> {
    match loaded_rgba(image) {
        Err(e) => Err(e),
        Ok(cover) => match encode_image(cover, payload) {
            Err(e) => Err(e),
            Ok(out) => png_file(out),
        },
    }
}

/// What decoding an image file gives.
pub open spec fn decode_file(image: Seq<u8>) -> Result<Seq<u8>, StegError> {
    match loaded_rgba(image) {
        Err(e) => Err(e),
        Ok(img) => decode_image(img),
    }
}

/// Encodes a payload into the image held in `image`, the bytes of an image
/// file, and returns the bytes of a PNG file.
pub fn encode(image: &[u8], payload: &[u8]) -> (res: Result<Vec<u8>, StegError>)
    ensures
        bytes_result(res) == encode_file(image@, payload@),
        res matches Ok(file) ==> is_png(file@),
{
    let cover = match load_rgba(image) {
        Ok(cover) => cover,
        Err(e) => {
            return Err(e);
        },
    };
    let out = match encode_raster(&cover, payload) {
        Ok(out) => out,
        Err(e) => {
            return Err(e);
        },
    };
    save_png(&out)
}

/// Decodes the payload of the image held in `image`, the bytes of an image
/// file.
pub fn decode(image: &[u8]) -> (res: Result<Vec<u8>, StegError>)
    ensures
        bytes_result(res) == decode_file(image@),
{
    match load_rgba(image) {
        Ok(img) => decode_raster(&img),
        Err(e) => Err(e),
    }
}

} // verus!
