use stegstr::image_io::{load_rgb, load_rgba, save_png};
use stegstr::raster::Raster;
use stegstr::stego;

#[test]
fn registered_hooks_do_not_change_decoding() {
    let pixels: Vec<u8> = (0..(64 * 64 * 4)).map(|i| 40 + (i % 160) as u8).collect();
    let raster = Raster::new(64, 64, 4, pixels).unwrap();
    let file = save_png(&raster).unwrap();
    let before = load_rgba(&file).unwrap();
    let stego_file = stego::encode(&file, b"hooked").unwrap();

    // another part of the process claims the PNG signature for a format of its own
    image::hooks::register_format_detection_hook(
        "claimed".into(),
        &[0x89, 0x50, 0x4e, 0x47],
        None,
    );

    assert_eq!(load_rgba(&file), Ok(before));
    assert_eq!(load_rgba(&file), Ok(raster));
    assert_eq!(load_rgb(&file).unwrap().channels, 3);
    assert_eq!(stego::encode(&file, b"hooked"), Ok(stego_file.clone()));
    assert_eq!(stego::decode(&stego_file), Ok(b"hooked".to_vec()));
}
