use image::ImageEncoder;
use stegstr::bits::bytes_to_bits;
use stegstr::error::StegError;
use stegstr::raster::Raster;
use stegstr::stego_dot::{
    cell_positions, decode, decode_offset, decode_raster, encode, encode_offset, encode_raster,
    max_payload_bytes, max_payload_bytes_for_image, shuffle_positions,
};

fn grey(width: u32, height: u32, value: u8) -> Raster {
    Raster::new(width, height, 3, vec![value; (width * height * 3) as usize]).unwrap()
}

fn noisy(width: u32, height: u32) -> Raster {
    let mut pixels = Vec::new();
    let mut state: u32 = 7;
    for _ in 0..(width * height * 3) {
        state = state.wrapping_mul(1103515245).wrapping_add(12345);
        pixels.push((state >> 16) as u8);
    }
    Raster::new(width, height, 3, pixels).unwrap()
}

fn rgb_png(raster: &Raster) -> Vec<u8> {
    let mut out = Vec::new();
    image::codecs::png::PngEncoder::new(&mut out)
        .write_image(&raster.pixels, raster.width, raster.height, image::ExtendedColorType::Rgb8)
        .unwrap();
    out
}

fn reference_order(n: usize) -> Vec<usize> {
    let mut order: Vec<usize> = (0..n).collect();
    let mut seed: u32 = 42;
    let mut i = n.saturating_sub(1);
    while i > 0 {
        seed = seed.wrapping_mul(1664525).wrapping_add(1013904223);
        order.swap(i, (seed as usize) % (i + 1));
        i -= 1;
    }
    order
}

#[test]
fn cells_sit_two_in_and_six_apart() {
    assert_eq!(cell_positions(20, 14), vec![(2, 2), (8, 2), (14, 2), (2, 8), (8, 8), (14, 8)]);
    assert_eq!(cell_positions(4, 4), vec![(2, 2)]);
    assert_eq!(cell_positions(3, 100), Vec::<(u32, u32)>::new());
    assert_eq!(cell_positions(100, 3), Vec::<(u32, u32)>::new());
    assert_eq!(cell_positions(0, 0), Vec::<(u32, u32)>::new());
    assert_eq!(cell_positions(9, 4), vec![(2, 2)]);
    assert_eq!(cell_positions(10, 4), vec![(2, 2), (8, 2)]);
}

#[test]
fn dot_capacity_of_600_by_600() {
    let cells = cell_positions(600, 600);
    assert_eq!(cells.len(), 10000);
    // floor(floor(2 * 10000 / 3) / 8) - 13 = floor(6666 / 8) - 13 = 833 - 13
    assert_eq!(max_payload_bytes_for_image(&grey(600, 600, 200)), 820);
    assert_eq!(max_payload_bytes(&rgb_png(&grey(600, 600, 200))), Ok(820));
}

#[test]
fn dot_capacity_saturates_at_zero() {
    assert_eq!(max_payload_bytes_for_image(&grey(3, 3, 0)), 0);
    assert_eq!(max_payload_bytes_for_image(&grey(40, 40, 0)), 0);
    // 156 cells carry 104 bits, 13 bytes: the framing alone
    assert_eq!(cell_positions(76, 70).len(), 156);
    assert_eq!(max_payload_bytes_for_image(&grey(76, 70, 0)), 0);
    // 168 cells carry 112 bits, 14 bytes
    assert_eq!(cell_positions(82, 70).len(), 168);
    assert_eq!(max_payload_bytes_for_image(&grey(82, 70, 0)), 1);
}

#[test]
fn shuffle_of_six_cells() {
    let cells = cell_positions(20, 14);
    assert_eq!(
        shuffle_positions(cells),
        vec![(14, 2), (14, 8), (2, 2), (8, 8), (2, 8), (8, 2)]
    );
}

#[test]
fn shuffle_follows_the_generator_for_every_count() {
    for n in 0..60u32 {
        let cells: Vec<(u32, u32)> = (0..n).map(|k| (k, 1000 + k)).collect();
        let expected: Vec<(u32, u32)> =
            reference_order(n as usize).into_iter().map(|i| cells[i]).collect();
        assert_eq!(shuffle_positions(cells), expected);
    }
}

#[test]
fn shuffle_is_the_same_for_encoder_and_decoder() {
    let first = shuffle_positions(cell_positions(600, 400));
    let second = shuffle_positions(cell_positions(600, 400));
    assert_eq!(first, second);
    let mut sorted = first.clone();
    sorted.sort();
    let mut grid = cell_positions(600, 400);
    grid.sort();
    assert_eq!(sorted, grid);
}

#[test]
fn dot_round_trip() {
    let cover = noisy(600, 600);
    let payload = b"Hello, Stegstr!";
    let stego = encode_raster(&cover, payload).unwrap();
    assert_eq!(decode_raster(&stego), Ok(payload.to_vec()));
}

#[test]
fn dot_round_trip_at_full_capacity() {
    let cover = noisy(82, 70);
    let stego = encode_raster(&cover, b"x").unwrap();
    assert_eq!(decode_raster(&stego), Ok(b"x".to_vec()));
    assert_eq!(encode_raster(&cover, b"xy"), Err(StegError::TooLarge));
    assert_eq!(encode_raster(&noisy(76, 70), b"x"), Err(StegError::TooLarge));
    let empty = encode_raster(&noisy(76, 70), b"").unwrap();
    assert_eq!(decode_raster(&empty), Ok(Vec::new()));
}

#[test]
fn dot_round_trip_through_png_files() {
    let cover = rgb_png(&noisy(300, 200));
    let stego = encode(&cover, b"dots").unwrap();
    assert_eq!(&stego[..8], &[0x89, 0x50, 0x4e, 0x47, 0x0d, 0x0a, 0x1a, 0x0a]);
    assert_eq!(decode(&stego), Ok(b"dots".to_vec()));
    assert_eq!(decode(b"junk"), Err(StegError::UnsupportedImage));
    assert_eq!(max_payload_bytes(b"junk"), Err(StegError::UnsupportedImage));
}

#[test]
fn dot_paints_one_black_pixel_per_cell() {
    let mut img = grey(20, 14, 100);
    // one symbol, bits 1 0: index 2, offset (1, 0)
    encode_offset(&mut img, &[true, false]).unwrap();
    let order = [(14u32, 2u32), (14, 8), (2, 2)];
    for (x, y) in order {
        for (dx, dy) in [(0u32, 0u32), (0, 1), (1, 0), (1, 1)] {
            let at = (((y + dy) * 20 + x + dx) * 3) as usize;
            let expected = if (dx, dy) == (1, 0) { 0 } else { 255 };
            assert_eq!(&img.pixels[at..at + 3], &[expected; 3]);
        }
    }
    // the fourth cell in order is untouched
    let at = ((8 * 20 + 8) * 3) as usize;
    assert_eq!(&img.pixels[at..at + 3], &[100; 3]);
}

#[test]
fn dot_pads_an_odd_bit_with_zero() {
    let mut img = grey(20, 14, 100);
    // bits 1, then padding 0: index 2 again
    encode_offset(&mut img, &[true]).unwrap();
    let at = ((2 * 20 + 15) * 3) as usize;
    assert_eq!(&img.pixels[at..at + 3], &[0; 3]);
}

#[test]
fn dot_embedding_needs_three_cells_per_symbol() {
    let mut img = grey(20, 14, 100);
    let before = img.clone();
    // six cells carry two symbols, four bits
    assert_eq!(encode_offset(&mut img, &[true; 5]), Err(StegError::TooLarge));
    assert_eq!(img, before);
    assert_eq!(encode_offset(&mut img, &[true; 4]), Ok(()));
}

#[test]
fn dot_decoding_votes_by_plurality() {
    let cover = noisy(300, 300);
    let payload = b"vote";
    let mut stego = encode_raster(&cover, payload).unwrap();
    // spoil the first cell of every group of three
    let order = shuffle_positions(cell_positions(300, 300));
    let bits = bytes_to_bits(payload).len() + 8 * 13;
    for group in 0..(bits / 2) {
        let (x, y) = order[group * 3];
        for (dx, dy) in [(0u32, 0u32), (0, 1), (1, 0), (1, 1)] {
            let at = (((y + dy) * 300 + x + dx) * 3) as usize;
            stego.pixels[at] = 128;
            stego.pixels[at + 1] = 128;
            stego.pixels[at + 2] = 128;
        }
    }
    assert_eq!(decode_raster(&stego), Ok(payload.to_vec()));
}

#[test]
fn dot_decoding_reports_small_images() {
    assert_eq!(decode_offset(&grey(3, 3, 0)), Err(StegError::TooSmall));
    // six cells give four bits, fewer than the sixteen of the length
    assert_eq!(decode_offset(&grey(20, 14, 0)), Err(StegError::TooSmall));
}

#[test]
fn dot_decoding_reports_a_length_past_the_image() {
    // a white image reads as symbol 0 everywhere: length 0, then an empty frame
    assert_eq!(decode_offset(&grey(100, 100, 255)), Err(StegError::TooShort));
    // paint length 0xffff into an image that cannot hold it
    let mut img = grey(100, 100, 255);
    encode_offset(&mut img, &[true; 16]).unwrap();
    assert_eq!(decode_offset(&img), Err(StegError::LenMismatch));
}

#[test]
fn dot_rejects_payloads_over_the_outer_length() {
    let cover = grey(40, 40, 0);
    assert_eq!(encode_raster(&cover, &vec![0u8; 65525]), Err(StegError::TooLarge));
}
