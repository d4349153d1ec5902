use image::ImageEncoder;
use stegstr::error::StegError;
use stegstr::image_io::{has_png_signature, load_rgb, load_rgba, save_png};
use stegstr::lsb;
use stegstr::payload::{
    decode_output, detect_output, payload_from_base64, payload_from_text, prefixed_base64,
    prepare_payload, render_payload, starts_with_brace,
};
use stegstr::raster::Raster;
use stegstr::stego_crypto::{decrypt_app, encrypt_app, is_encrypted_payload};
use stegstr::{decode_result, encode_result};

#[test]
fn json_payload_is_shown_as_it_is() {
    assert_eq!(render_payload(b"{\"a\":1}"), "{\"a\":1}");
    assert_eq!(render_payload(b"  \n\t{\"a\":1}"), "  \n\t{\"a\":1}");
    assert_eq!(render_payload("\u{a0}{}".as_bytes()), "\u{a0}{}");
}

#[test]
fn raw_payload_is_shown_as_base64() {
    assert_eq!(render_payload(&[0xde, 0xad, 0xbe, 0xef]), "base64:3q2+7w==");
    assert_eq!(render_payload(b""), "base64:");
    assert_eq!(render_payload(b"plain text"), "base64:cGxhaW4gdGV4dA==");
    assert_eq!(render_payload(b"[1]"), "base64:WzFd");
    assert_eq!(render_payload(b"x{"), "base64:eHs=");
    assert_eq!(render_payload(b"{\xff"), "base64:e/8=");
}

#[test]
fn brace_may_follow_white_space() {
    assert!(starts_with_brace("{"));
    assert!(starts_with_brace(" \r\n\t{\"k\":2}"));
    assert!(starts_with_brace("\u{3000}\u{2003}{"));
    assert!(!starts_with_brace(""));
    assert!(!starts_with_brace("   "));
    assert!(!starts_with_brace("a{"));
    assert!(!starts_with_brace("\u{200b}{"));
}

#[test]
fn base64_text_gets_its_prefix() {
    assert_eq!(prefixed_base64("3q2+7w=="), "base64:3q2+7w==");
    assert_eq!(prefixed_base64(""), "base64:");
}

#[test]
fn decode_output_without_decrypt_renders() {
    assert_eq!(decode_output(b"{\"a\":1}", false), Ok("{\"a\":1}".to_string()));
    assert_eq!(decode_output(&[0xde, 0xad, 0xbe, 0xef], false), Ok("base64:3q2+7w==".to_string()));
    let sealed = encrypt_app("{}").unwrap();
    let shown = decode_output(&sealed, false).unwrap();
    assert!(shown.starts_with("base64:U1RFR1NUUjEB"));
}

#[test]
fn decode_output_with_decrypt_opens_envelopes() {
    let sealed = encrypt_app("{\"version\":1}").unwrap();
    assert_eq!(decode_output(&sealed, true), Ok("{\"version\":1}".to_string()));
    assert_eq!(decode_output(b"{\"a\":1}", true), Err(StegError::BadMagic));
    let mut broken = sealed.clone();
    broken[30] ^= 1;
    assert_eq!(decode_output(&broken, true), Err(StegError::AuthFail));
}

#[test]
fn detect_needs_an_envelope() {
    let cover = Raster::new(64, 64, 4, vec![0x80u8; 64 * 64 * 4]).unwrap();
    let stego = lsb::encode_raster(&cover, b"{\"a\":1}").unwrap();
    let payload = lsb::decode_raster(&stego).unwrap();
    assert_eq!(payload, b"{\"a\":1}".to_vec());
    assert_eq!(detect_output(&payload), Err(StegError::BadMagic));

    let sealed = encrypt_app("{\"a\":1}").unwrap();
    let stego = lsb::encode_raster(&cover, &sealed).unwrap();
    let payload = lsb::decode_raster(&stego).unwrap();
    assert_eq!(detect_output(&payload), Ok("{\"a\":1}".to_string()));
}

#[test]
fn text_with_prefix_is_base64() {
    assert_eq!(payload_from_text("base64:3q2+7w=="), Ok(vec![0xde, 0xad, 0xbe, 0xef]));
    assert_eq!(payload_from_text("base64:"), Ok(Vec::new()));
    assert_eq!(payload_from_text("base64:base64:3q2+7w=="), Ok(vec![0xde, 0xad, 0xbe, 0xef]));
    assert_eq!(payload_from_text("base64:not base64!"), Err(StegError::BadBase64));
    assert_eq!(payload_from_text("base64:3q2+7w"), Err(StegError::BadBase64));
}

#[test]
fn text_without_prefix_is_itself() {
    assert_eq!(payload_from_text("{\"a\":1}"), Ok(b"{\"a\":1}".to_vec()));
    assert_eq!(payload_from_text(""), Ok(Vec::new()));
    assert_eq!(payload_from_text("Base64:3q2+7w=="), Ok(b"Base64:3q2+7w==".to_vec()));
    assert_eq!(payload_from_text(" base64:3q2+7w=="), Ok(b" base64:3q2+7w==".to_vec()));
    assert_eq!(payload_from_text("caf\u{e9}"), Ok("caf\u{e9}".as_bytes().to_vec()));
}

#[test]
fn command_line_base64_is_trimmed() {
    assert_eq!(payload_from_base64("3q2+7w=="), Ok(vec![0xde, 0xad, 0xbe, 0xef]));
    assert_eq!(payload_from_base64("  3q2+7w==\n"), Ok(vec![0xde, 0xad, 0xbe, 0xef]));
    assert_eq!(payload_from_base64(""), Ok(Vec::new()));
    assert_eq!(payload_from_base64("3q2+ 7w=="), Err(StegError::BadBase64));
    assert_eq!(payload_from_base64("***"), Err(StegError::BadBase64));
}

#[test]
fn payload_is_encrypted_on_request() {
    assert_eq!(prepare_payload(b"raw".to_vec(), false), Ok(b"raw".to_vec()));
    assert_eq!(prepare_payload(vec![0xff], false), Ok(vec![0xff]));
    let sealed = prepare_payload(b"text".to_vec(), true).unwrap();
    assert!(is_encrypted_payload(&sealed));
    assert_eq!(sealed.len(), 37 + 4);
    assert_eq!(decrypt_app(&sealed), Ok("text".to_string()));
    assert_eq!(prepare_payload(vec![0xff, 0xfe], true), Err(StegError::NotUtf8));
}

#[test]
fn decode_reports_payload_or_error() {
    let report = decode_result(Ok(b"{\"a\":1}".to_vec()));
    assert!(report.ok);
    assert_eq!(report.payload, Some("{\"a\":1}".to_string()));
    assert_eq!(report.error, None);
    let report = decode_result(Ok(vec![0xde, 0xad, 0xbe, 0xef]));
    assert_eq!(report.payload, Some("base64:3q2+7w==".to_string()));
    let report = decode_result(Err(StegError::NotFound));
    assert!(!report.ok);
    assert_eq!(report.payload, None);
    assert_eq!(report.error, Some("Not a Stegstr image (magic not found)".to_string()));
}

#[test]
fn encode_reports_path_or_error() {
    let report = encode_result(Ok(()), "/tmp/out.png");
    assert!(report.ok);
    assert_eq!(report.path, Some("/tmp/out.png".to_string()));
    assert_eq!(report.error, None);
    let report = encode_result(Err(StegError::TooLarge), "/tmp/out.png");
    assert!(!report.ok);
    assert_eq!(report.path, None);
    assert_eq!(report.error, Some("Payload too large".to_string()));
}

#[test]
fn png_signature_is_checked() {
    assert!(has_png_signature(&[0x89, 0x50, 0x4e, 0x47, 0x0d, 0x0a, 0x1a, 0x0a]));
    assert!(has_png_signature(&[0x89, 0x50, 0x4e, 0x47, 0x0d, 0x0a, 0x1a, 0x0a, 0, 1]));
    assert!(!has_png_signature(&[0x89, 0x50, 0x4e, 0x47, 0x0d, 0x0a, 0x1a]));
    assert!(!has_png_signature(&[0x89, 0x50, 0x4e, 0x47, 0x0d, 0x0a, 0x1a, 0x0b]));
    assert!(!has_png_signature(b""));
}

#[test]
fn rasters_are_checked_on_construction() {
    assert!(Raster::new(2, 3, 4, vec![0; 24]).is_some());
    assert!(Raster::new(2, 3, 3, vec![0; 18]).is_some());
    assert!(Raster::new(2, 3, 4, vec![0; 23]).is_none());
    assert!(Raster::new(2, 3, 3, vec![0; 24]).is_none());
    assert!(Raster::new(2, 3, 2, vec![0; 12]).is_none());
    assert!(Raster::new(0, 5, 4, Vec::new()).is_some());
}

#[test]
fn crop_and_paste_move_rectangles() {
    let mut pixels = Vec::new();
    for i in 0..(4 * 3) {
        pixels.extend_from_slice(&[i as u8, 100 + i as u8, 200 + i as u8]);
    }
    let img = Raster::new(4, 3, 3, pixels).unwrap();
    let cut = img.crop(1, 1, 2, 2);
    assert_eq!((cut.width, cut.height, cut.channels), (2, 2, 3));
    assert_eq!(cut.pixels, vec![5, 105, 205, 6, 106, 206, 9, 109, 209, 10, 110, 210]);
    let mut canvas = Raster::new(4, 3, 3, vec![0; 36]).unwrap();
    canvas.paste(2, 0, &cut);
    let mut expected = vec![0u8; 36];
    expected[6..12].copy_from_slice(&[5, 105, 205, 6, 106, 206]);
    expected[18..24].copy_from_slice(&[9, 109, 209, 10, 110, 210]);
    assert_eq!(canvas.pixels, expected);
    assert_eq!(img.crop(0, 0, 4, 3), img);
    assert_eq!(img.crop(4, 3, 0, 0).pixels, Vec::<u8>::new());
}

#[test]
fn png_files_load_as_rasters() {
    let pixels: Vec<u8> = (0..(5 * 4 * 4)).map(|i| (i * 3) as u8).collect();
    let raster = Raster::new(5, 4, 4, pixels).unwrap();
    let file = save_png(&raster).unwrap();
    assert!(has_png_signature(&file));
    assert_eq!(load_rgba(&file), Ok(raster.clone()));
    let rgb = load_rgb(&file).unwrap();
    assert_eq!((rgb.width, rgb.height, rgb.channels), (5, 4, 3));
    for p in 0..20 {
        assert_eq!(&rgb.pixels[p * 3..p * 3 + 3], &raster.pixels[p * 4..p * 4 + 3]);
    }
    let mut reference = Vec::new();
    image::codecs::png::PngEncoder::new(&mut reference)
        .write_image(&raster.pixels, 5, 4, image::ExtendedColorType::Rgba8)
        .unwrap();
    assert_eq!(file, reference);
}

#[test]
fn rgb_rasters_are_saved_as_rgb() {
    let raster = Raster::new(3, 2, 3, (0..18).collect()).unwrap();
    let file = save_png(&raster).unwrap();
    assert_eq!(load_rgb(&file), Ok(raster.clone()));
    let rgba = load_rgba(&file).unwrap();
    assert_eq!(rgba.channels, 4);
    assert_eq!(&rgba.pixels[..8], &[0, 1, 2, 255, 3, 4, 5, 255]);
}

#[test]
fn unreadable_files_are_unsupported() {
    assert_eq!(load_rgba(b""), Err(StegError::UnsupportedImage));
    assert_eq!(load_rgba(b"GIF89a broken"), Err(StegError::UnsupportedImage));
    assert_eq!(load_rgb(&[0x89, 0x50, 0x4e, 0x47, 0x0d, 0x0a, 0x1a, 0x0a]), Err(StegError::UnsupportedImage));
}

#[test]
fn empty_rasters_cannot_be_saved() {
    let raster = Raster::new(0, 0, 4, Vec::new()).unwrap();
    assert_eq!(save_png(&raster), Err(StegError::Io));
}

fn png_with_orientation(orientation: u8) -> Vec<u8> {
    let exif = vec![
        0x49, 0x49, 0x2a, 0x00, 0x08, 0x00, 0x00, 0x00, 0x01, 0x00, 0x12, 0x01, 0x03, 0x00, 0x01,
        0x00, 0x00, 0x00, orientation, 0x00, 0x00, 0x00, 0x00, 0x00, 0x00, 0x00,
    ];
    let pixels = [255u8, 0, 0, 255, 0, 0, 255, 255];
    let mut out = Vec::new();
    let mut encoder = image::codecs::png::PngEncoder::new(&mut out);
    encoder.set_exif_metadata(exif).unwrap();
    encoder.write_image(&pixels, 2, 1, image::ExtendedColorType::Rgba8).unwrap();
    out
}

#[test]
fn orientation_tag_is_applied() {
    let upright = load_rgba(&png_with_orientation(1)).unwrap();
    assert_eq!((upright.width, upright.height), (2, 1));
    assert_eq!(upright.pixels, vec![255, 0, 0, 255, 0, 0, 255, 255]);
    let turned = load_rgba(&png_with_orientation(6)).unwrap();
    assert_eq!((turned.width, turned.height), (1, 2));
    assert_eq!(turned.pixels, vec![255, 0, 0, 255, 0, 0, 255, 255]);
    let upside_down = load_rgba(&png_with_orientation(3)).unwrap();
    assert_eq!((upside_down.width, upside_down.height), (2, 1));
    assert_eq!(upside_down.pixels, vec![0, 0, 255, 255, 255, 0, 0, 255]);
    let rgb = load_rgb(&png_with_orientation(3)).unwrap();
    assert_eq!(rgb.pixels, vec![0, 0, 255, 255, 0, 0]);
}
