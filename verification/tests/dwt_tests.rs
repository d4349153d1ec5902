use image::ImageEncoder;
use stegstr::error::StegError;
use stegstr::raster::{ensure_even_dimensions, Raster};
use stegstr::stego::{
    decode, decode_from_tile, decode_raster, embed_in_tile, encode, encode_raster, haar2d_forward,
    haar2d_inverse,
};

fn flat(width: u32, height: u32, value: u8) -> Raster {
    let mut pixels = Vec::new();
    for _ in 0..(width * height) {
        pixels.extend_from_slice(&[value, value, value, 255]);
    }
    Raster::new(width, height, 4, pixels).unwrap()
}

fn textured(width: u32, height: u32) -> Raster {
    let mut pixels = Vec::new();
    for y in 0..height {
        for x in 0..width {
            let v = 40 + ((x * 7 + y * 13) % 160) as u8;
            pixels.extend_from_slice(&[v, v / 2 + 20, 250 - v, 255]);
        }
    }
    Raster::new(width, height, 4, pixels).unwrap()
}

fn to_png(raster: &Raster) -> Vec<u8> {
    let mut out = Vec::new();
    image::codecs::png::PngEncoder::new(&mut out)
        .write_image(&raster.pixels, raster.width, raster.height, image::ExtendedColorType::Rgba8)
        .unwrap();
    out
}

#[test]
fn test_encode_decode_roundtrip() {
    let mut pixels = Vec::new();
    for i in 0..(256usize * 256) {
        let v = (i % 256) as u8;
        pixels.extend_from_slice(&[v, v.wrapping_add(1), v.wrapping_add(2), 255]);
    }
    let mut png_bytes = Vec::new();
    image::codecs::png::PngEncoder::new(&mut png_bytes)
        .write_image(&pixels, 256, 256, image::ExtendedColorType::Rgba8)
        .unwrap();

    let payload = b"Hello, Stegstr!";
    let encoded = encode(&png_bytes, payload).unwrap();

    let decoded = decode(&encoded).unwrap();
    assert_eq!(decoded, payload);
}

#[test]
fn forward_transform_of_one_block() {
    let img = [10u8, 0, 0, 0, 20, 0, 0, 0, 30, 0, 0, 0, 40, 0, 0, 0];
    let (ll, lh, hl, hh) = haar2d_forward(&img, 2, 2, 0);
    assert_eq!((ll, lh, hl, hh), (vec![25], vec![5], vec![10], vec![0]));
}

#[test]
fn forward_transform_rounds_toward_zero() {
    let img = [3u8, 0, 0, 0, 0, 0, 0, 0, 0, 0, 0, 0, 0, 0, 0, 0];
    let (ll, lh, hl, hh) = haar2d_forward(&img, 2, 2, 0);
    assert_eq!((ll, lh, hl, hh), (vec![0], vec![0], vec![0], vec![0]));
    let img = [7u8, 0, 0, 0, 0, 0, 0, 0, 0, 0, 0, 0, 0, 0, 0, 0];
    let (ll, lh, hl, hh) = haar2d_forward(&img, 2, 2, 0);
    assert_eq!((ll, lh, hl, hh), (vec![1], vec![-1], vec![-1], vec![-1]));
}

#[test]
fn forward_transform_reads_the_asked_channel() {
    let img = [0u8, 8, 0, 0, 0, 8, 0, 0, 0, 8, 0, 0, 0, 8, 0, 0];
    assert_eq!(haar2d_forward(&img, 2, 2, 1).0, vec![8]);
    assert_eq!(haar2d_forward(&img, 2, 2, 0).0, vec![0]);
}

#[test]
fn forward_transform_counts_blocks_row_by_row() {
    let mut img = vec![0u8; 4 * 2 * 4];
    // second block of the only block row: columns 2 and 3
    img[2 * 4] = 100;
    img[3 * 4] = 100;
    img[(4 + 2) * 4] = 100;
    img[(4 + 3) * 4] = 100;
    let (ll, _, _, _) = haar2d_forward(&img, 4, 2, 0);
    assert_eq!(ll, vec![0, 100]);
}

#[test]
fn inverse_transform_of_one_block() {
    let mut out = vec![9u8; 16];
    haar2d_inverse(&mut out, 2, 2, 0, &[25], &[5], &[10], &[0]);
    assert_eq!(out, vec![10, 9, 9, 9, 20, 9, 9, 9, 30, 9, 9, 9, 40, 9, 9, 9]);
}

#[test]
fn inverse_transform_limits_samples() {
    let mut out = vec![0u8; 16];
    haar2d_inverse(&mut out, 2, 2, 2, &[255], &[1], &[0], &[0]);
    assert_eq!(out[2], 254);
    assert_eq!(out[6], 255);
    assert_eq!(out[10], 254);
    assert_eq!(out[14], 255);
    haar2d_inverse(&mut out, 2, 2, 2, &[0], &[1], &[0], &[0]);
    assert_eq!((out[2], out[6], out[10], out[14]), (0, 1, 0, 1));
}

#[test]
fn tile_round_trip() {
    let cover = textured(64, 48);
    let frame = stegstr::frame::wrap_payload(b"in a tile");
    let tile = embed_in_tile(&cover.pixels, 64, 48, &frame).unwrap();
    assert_eq!(tile.len(), cover.pixels.len());
    assert_eq!(decode_from_tile(&tile, 64, 48), Ok(b"in a tile".to_vec()));
}

#[test]
fn tile_embedding_leaves_alpha_alone() {
    let cover = textured(16, 16);
    let frame = stegstr::frame::wrap_payload(b"");
    let tile = embed_in_tile(&cover.pixels, 16, 16, &frame).unwrap();
    for i in (3..tile.len()).step_by(4) {
        assert_eq!(tile[i], cover.pixels[i]);
    }
}

#[test]
fn tile_capacity_is_three_bits_per_block() {
    // an 8x8 tile has 16 blocks per channel: 48 bits, six bytes
    let cover = textured(8, 8);
    assert!(embed_in_tile(&cover.pixels, 8, 8, &[0u8; 6]).is_ok());
    assert_eq!(embed_in_tile(&cover.pixels, 8, 8, &[0u8; 7]), Err(StegError::TooLarge));
}

#[test]
fn tile_decode_reports_small_tiles() {
    assert_eq!(decode_from_tile(&[0u8; 4], 1, 1), Err(StegError::TooSmall));
    assert_eq!(decode_from_tile(&[0u8; 8 * 8 * 4], 8, 8), Err(StegError::TooSmall));
    assert_eq!(decode_from_tile(&[0u8; 0], 0, 0), Err(StegError::TooSmall));
}

#[test]
fn tile_decode_finds_a_frame_that_ends_on_the_last_bit() {
    // A 10x12 tile carries 90 bits. Block k of a channel takes the samples
    // (a, b, c, d) = (0, 2, 0, 2) for a set bit, which gives LH = 1, and
    // all zero for a clear bit.
    let mut bits = vec![false, false];
    bits.extend_from_slice(&stegstr::bits::bytes_to_bits(&stegstr::frame::wrap_payload(b"")));
    assert_eq!(bits.len(), 90);
    let mut raw = vec![0u8; 10 * 12 * 4];
    for (g, bit) in bits.iter().enumerate() {
        if *bit {
            let (ch, k) = (g / 30, g % 30);
            let (i, j) = (k / 5, k % 5);
            raw[((2 * i) * 10 + 2 * j + 1) * 4 + ch] = 2;
            raw[((2 * i + 1) * 10 + 2 * j + 1) * 4 + ch] = 2;
        }
    }
    assert_eq!(decode_from_tile(&raw, 10, 12), Ok(Vec::new()));
}

#[test]
fn tile_decode_reports_missing_frame() {
    let cover = flat(32, 32, 128);
    assert_eq!(decode_from_tile(&cover.pixels, 32, 32), Err(StegError::NotFound));
}

#[test]
fn dwt_round_trip_on_one_tile() {
    let cover = textured(256, 256);
    let stego = encode_raster(&cover, b"Hello, Stegstr!").unwrap();
    assert_eq!((stego.width, stego.height, stego.channels), (256, 256, 4));
    assert_eq!(decode_raster(&stego), Ok(b"Hello, Stegstr!".to_vec()));
}

#[test]
fn dwt_round_trip_on_small_cover() {
    let cover = textured(40, 30);
    let stego = encode_raster(&cover, b"small").unwrap();
    assert_eq!(decode_raster(&stego), Ok(b"small".to_vec()));
}

#[test]
fn dwt_crops_odd_covers_to_even_size() {
    let cover = textured(41, 31);
    let stego = encode_raster(&cover, b"odd").unwrap();
    assert_eq!((stego.width, stego.height), (40, 30));
    assert_eq!(decode_raster(&stego), Ok(b"odd".to_vec()));
}

#[test]
fn even_crop_keeps_the_top_left_corner() {
    let cover = textured(5, 3);
    let cropped = ensure_even_dimensions(&cover);
    assert_eq!((cropped.width, cropped.height), (4, 2));
    for y in 0..2usize {
        for x in 0..4usize {
            assert_eq!(
                &cropped.pixels[(y * 4 + x) * 4..(y * 4 + x) * 4 + 4],
                &cover.pixels[(y * 5 + x) * 4..(y * 5 + x) * 4 + 4]
            );
        }
    }
    let same = ensure_even_dimensions(&textured(4, 2));
    assert_eq!(same, textured(4, 2));
}

#[test]
fn dwt_rejects_covers_under_two_pixels() {
    assert_eq!(encode_raster(&textured(1, 9), b""), Err(StegError::TooSmall));
    assert_eq!(decode_raster(&textured(9, 1)), Err(StegError::TooSmall));
    assert_eq!(decode_raster(&Raster::new(0, 0, 4, Vec::new()).unwrap()), Err(StegError::TooSmall));
}

#[test]
fn dwt_rejects_payload_beyond_the_image() {
    // a 16x16 image carries 3 * 64 = 192 bits: 24 bytes, 13 of payload
    let cover = textured(16, 16);
    assert!(encode_raster(&cover, &[1u8; 13]).is_ok());
    assert_eq!(encode_raster(&cover, &[1u8; 14]), Err(StegError::TooLarge));
}

#[test]
fn dwt_uses_whole_image_when_no_tile_fits() {
    // a 256x256 tile carries 49152 bits, 6144 bytes; a 512x256 image carries twice that
    let cover = textured(512, 256);
    let payload = vec![0x5au8; 7000];
    let stego = encode_raster(&cover, &payload).unwrap();
    assert_eq!(decode_raster(&stego), Ok(payload));
}

#[test]
fn dwt_embeds_into_every_tile() {
    let cover = textured(512, 512);
    let payload = b"every tile carries me";
    let stego = encode_raster(&cover, payload).unwrap();
    for (tx, ty) in [(0u32, 0u32), (256, 0), (0, 256), (256, 256)] {
        let tile = stego.crop(tx, ty, 256, 256);
        assert_eq!(decode_from_tile(&tile.pixels, 256, 256), Ok(payload.to_vec()));
    }
}

#[test]
fn dwt_survives_a_crop_to_one_tile() {
    let cover = textured(700, 600);
    let payload = b"crop me";
    let stego = encode_raster(&cover, payload).unwrap();
    let cut = stego.crop(256, 256, 256, 256);
    assert_eq!(decode_raster(&cut), Ok(payload.to_vec()));
    let cut = stego.crop(0, 256, 256, 256);
    assert_eq!(decode_raster(&cut), Ok(payload.to_vec()));
}

#[test]
fn dwt_reads_a_short_frame_from_a_tile_off_the_origin() {
    // only the tile at (128, 128) of a 512x512 image carries the payload
    let payload = b"wind";
    let tile = encode_raster(&textured(256, 256), payload).unwrap();
    let mut image = flat(512, 512, 128);
    image.paste(128, 128, &tile);
    assert_eq!(decode_raster(&image), Ok(payload.to_vec()));
}

#[test]
fn dwt_whole_image_read_comes_first() {
    // In a cover two tiles wide the first row of blocks holds the start of
    // the frame twice, so a frame of more than 128 bits is not read back
    // from the whole image; each tile still carries it.
    let cover = textured(512, 256);
    let payload = b"Hello, Stegstr!";
    let stego = encode_raster(&cover, payload).unwrap();
    let first = decode_raster(&stego).unwrap();
    assert_eq!(first.len(), payload.len());
    assert_eq!(&first[..5], &payload[..5]);
    assert!(first != payload.to_vec());
    assert_eq!(decode_raster(&stego.crop(0, 0, 256, 256)), Ok(payload.to_vec()));
    assert_eq!(decode_raster(&stego.crop(256, 0, 256, 256)), Ok(payload.to_vec()));
}

#[test]
fn dwt_plain_cover_has_no_frame() {
    assert_eq!(decode_raster(&flat(300, 300, 128)), Err(StegError::NotFound));
    assert_eq!(decode_raster(&flat(64, 64, 128)), Err(StegError::NotFound));
}

#[test]
fn dwt_files_are_png() {
    let cover = to_png(&textured(64, 64));
    let stego = encode(&cover, b"file").unwrap();
    assert_eq!(&stego[..8], &[0x89, 0x50, 0x4e, 0x47, 0x0d, 0x0a, 0x1a, 0x0a]);
    assert_eq!(decode(&stego), Ok(b"file".to_vec()));
    assert_eq!(decode(&cover), Err(StegError::NotFound));
    assert_eq!(decode(b"junk"), Err(StegError::UnsupportedImage));
}

#[test]
fn dwt_white_cover_loses_bits() {
    // limiting rebuilt samples to 0..=255 breaks embedding in saturated blocks
    let cover = flat(64, 64, 255);
    let stego = encode_raster(&cover, b"lost").unwrap();
    assert!(decode_raster(&stego) != Ok(b"lost".to_vec()));
}
