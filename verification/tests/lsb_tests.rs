use image::ImageEncoder;
use stegstr::error::StegError;
use stegstr::lsb;
use stegstr::raster::Raster;

fn gradient(width: u32, height: u32) -> Raster {
    let mut pixels = Vec::new();
    for y in 0..height {
        for x in 0..width {
            let v = ((y * 256 + x) % 256) as u8;
            pixels.extend_from_slice(&[v, v.wrapping_add(1), v.wrapping_add(2), 255]);
        }
    }
    Raster::new(width, height, 4, pixels).unwrap()
}

fn png_of(raster: &Raster) -> Vec<u8> {
    let mut out = Vec::new();
    image::codecs::png::PngEncoder::new(&mut out)
        .write_image(&raster.pixels, raster.width, raster.height, image::ExtendedColorType::Rgba8)
        .unwrap();
    out
}

#[test]
fn lsb_gradient_round_trip() {
    let cover = gradient(256, 256);
    let stego = lsb::encode_raster(&cover, b"Hello, Stegstr!").unwrap();
    let decoded = lsb::decode_raster(&stego).unwrap();
    assert_eq!(decoded.len(), 15);
    assert_eq!(decoded, b"Hello, Stegstr!".to_vec());
}

#[test]
fn lsb_round_trip_through_png_files() {
    let cover = png_of(&gradient(256, 256));
    let stego = lsb::encode(&cover, b"Hello, Stegstr!").unwrap();
    assert_eq!(&stego[..8], &[0x89, 0x50, 0x4e, 0x47, 0x0d, 0x0a, 0x1a, 0x0a]);
    assert_eq!(lsb::decode(&stego), Ok(b"Hello, Stegstr!".to_vec()));
}

#[test]
fn lsb_changes_only_the_lowest_colour_bits() {
    let cover = gradient(32, 32);
    let stego = lsb::encode_raster(&cover, b"xyz").unwrap();
    assert_eq!(stego.width, 32);
    assert_eq!(stego.height, 32);
    for (i, (before, after)) in cover.pixels.iter().zip(stego.pixels.iter()).enumerate() {
        if i % 4 == 3 {
            assert_eq!(before, after);
        } else {
            assert_eq!(before & 0xfe, after & 0xfe);
        }
    }
    let frame_bits = 8 * (11 + 3);
    let carriers = (frame_bits + 2) / 3;
    assert_eq!(&cover.pixels[4 * carriers..], &stego.pixels[4 * carriers..]);
}

#[test]
fn lsb_writes_bits_in_rgb_order() {
    let cover = Raster::new(8, 8, 4, vec![0u8; 256]).unwrap();
    let stego = lsb::encode_raster(&cover, b"").unwrap();
    // 'S' is 0101_0011: red 0, green 1, blue 0 in the first pixel, then 1, 0, 0.
    assert_eq!(&stego.pixels[..8], &[0, 1, 0, 0, 1, 0, 0, 0]);
}

#[test]
fn lsb_exact_fit_and_one_byte_more() {
    // 8 * (11 + len) <= 3 * W * H: a 6x6 cover carries 108 bits, so 2 bytes fit and 3 do not.
    let cover = gradient(6, 6);
    let stego = lsb::encode_raster(&cover, b"ab").unwrap();
    assert_eq!(lsb::decode_raster(&stego), Ok(b"ab".to_vec()));
    assert_eq!(lsb::encode_raster(&cover, b"abc"), Err(StegError::TooLarge));
}

#[test]
fn lsb_finds_a_frame_that_ends_on_the_last_sample() {
    // 30 pixels carry 90 bits: two clear bits, then the frame of the empty payload
    let mut bits = vec![false, false];
    bits.extend_from_slice(&stegstr::bits::bytes_to_bits(&stegstr::frame::wrap_payload(b"")));
    let mut pixels = vec![0x40u8; 30 * 4];
    for (t, bit) in bits.iter().enumerate() {
        pixels[4 * (t / 3) + t % 3] = 0x40 | (*bit as u8);
    }
    let image = Raster::new(6, 5, 4, pixels).unwrap();
    assert_eq!(lsb::decode_raster(&image), Ok(Vec::new()));
}

#[test]
fn lsb_empty_cover_is_too_small_for_anything() {
    let cover = Raster::new(0, 0, 4, Vec::new()).unwrap();
    assert_eq!(lsb::encode_raster(&cover, b""), Err(StegError::TooLarge));
    assert_eq!(lsb::decode_raster(&cover), Err(StegError::NotFound));
}

#[test]
fn lsb_plain_cover_has_no_frame() {
    let cover = Raster::new(64, 64, 4, vec![0x80u8; 64 * 64 * 4]).unwrap();
    assert_eq!(lsb::decode_raster(&cover), Err(StegError::NotFound));
}

#[test]
fn lsb_decode_of_garbage_file_is_unsupported() {
    assert_eq!(lsb::decode(b"not an image"), Err(StegError::UnsupportedImage));
    assert_eq!(lsb::encode(b"not an image", b"x"), Err(StegError::UnsupportedImage));
}
