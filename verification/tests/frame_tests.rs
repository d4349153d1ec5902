use stegstr::bits::{bits_to_bytes, bytes_to_bits, get_bit};
use stegstr::error::StegError;
use stegstr::frame::{search_frame, unwrap_payload, wrap_payload, MAGIC};

#[test]
fn magic_is_ascii_stegstr() {
    assert_eq!(&MAGIC[..], b"STEGSTR");
}

#[test]
fn wrap_writes_magic_length_and_body() {
    let framed = wrap_payload(b"hi");
    assert_eq!(framed, vec![0x53, 0x54, 0x45, 0x47, 0x53, 0x54, 0x52, 0, 0, 0, 2, b'h', b'i']);
}

#[test]
fn wrap_writes_big_endian_length() {
    let body = vec![7u8; 0x0102_03];
    let framed = wrap_payload(&body);
    assert_eq!(&framed[7..11], &[0x00, 0x01, 0x02, 0x03]);
    assert_eq!(framed.len(), 11 + body.len());
}

#[test]
fn unwrap_returns_the_wrapped_body() {
    for body in [&b""[..], &b"a"[..], &b"Hello, Stegstr!"[..], &[0u8, 255, 1, 254][..]] {
        assert_eq!(unwrap_payload(&wrap_payload(body)), Ok(body.to_vec()));
    }
}

#[test]
fn unwrap_ignores_bytes_after_the_body() {
    let mut framed = wrap_payload(b"abc");
    framed.extend_from_slice(b"trailing");
    assert_eq!(unwrap_payload(&framed), Ok(b"abc".to_vec()));
}

#[test]
fn unwrap_rejects_short_input() {
    assert_eq!(unwrap_payload(b""), Err(StegError::TooShort));
    assert_eq!(unwrap_payload(b"STEGSTR\0\0\0"), Err(StegError::TooShort));
}

#[test]
fn unwrap_rejects_wrong_magic() {
    assert_eq!(unwrap_payload(b"STEGSTX\0\0\0\0"), Err(StegError::BadMagic));
    assert_eq!(unwrap_payload(b"stegstr\0\0\0\0"), Err(StegError::BadMagic));
}

#[test]
fn unwrap_rejects_length_past_the_end() {
    assert_eq!(unwrap_payload(b"STEGSTR\0\0\0\x01"), Err(StegError::LenMismatch));
    assert_eq!(unwrap_payload(b"STEGSTR\xff\xff\xff\xffabc"), Err(StegError::LenMismatch));
    assert_eq!(unwrap_payload(b"STEGSTR\0\0\0\0"), Ok(Vec::new()));
}

#[test]
fn bits_come_most_significant_first() {
    let bits = bytes_to_bits(&[0xa5, 0x01]);
    let expected = [
        true, false, true, false, false, true, false, true, false, false, false, false, false,
        false, false, true,
    ];
    assert_eq!(bits, expected.to_vec());
}

#[test]
fn get_bit_counts_from_the_top() {
    assert!(get_bit(0x80, 0));
    assert!(!get_bit(0x80, 1));
    assert!(get_bit(0x01, 7));
    assert!(!get_bit(0x01, 6));
}

#[test]
fn bits_pack_back_into_bytes() {
    let data: Vec<u8> = (0..=255u8).collect();
    assert_eq!(bits_to_bytes(&bytes_to_bits(&data)), data);
}

#[test]
fn short_last_group_is_padded_with_zero_bits() {
    assert_eq!(bits_to_bytes(&[true, true, true]), vec![0xe0]);
    assert_eq!(bits_to_bytes(&[false; 9]), vec![0, 0]);
    assert_eq!(bits_to_bytes(&[]), Vec::<u8>::new());
}

#[test]
fn search_finds_a_frame_at_the_first_bit() {
    let mut bits = bytes_to_bits(&wrap_payload(b"payload"));
    bits.extend_from_slice(&[true, false, true, true]);
    assert_eq!(search_frame(&bits), Ok(b"payload".to_vec()));
}

#[test]
fn search_finds_a_shifted_frame() {
    let mut bits = vec![true, false, true];
    bits.extend_from_slice(&bytes_to_bits(&wrap_payload(b"shifted")));
    bits.extend_from_slice(&[false; 5]);
    assert_eq!(search_frame(&bits), Ok(b"shifted".to_vec()));
}

#[test]
fn search_skips_a_magic_whose_body_does_not_fit() {
    let mut early = b"STEGSTR".to_vec();
    early.extend_from_slice(&[0xff, 0xff, 0xff, 0xff]);
    let mut bits = bytes_to_bits(&early);
    bits.extend_from_slice(&bytes_to_bits(&wrap_payload(b"ok")));
    bits.push(false);
    assert_eq!(search_frame(&bits), Ok(b"ok".to_vec()));
}

#[test]
fn search_reports_not_found() {
    assert_eq!(search_frame(&[]), Err(StegError::NotFound));
    assert_eq!(search_frame(&[false; 500]), Err(StegError::NotFound));
    assert_eq!(search_frame(&bytes_to_bits(b"STEGSTR\0\0\0\x09short")), Err(StegError::NotFound));
}

#[test]
fn search_finds_an_empty_frame_that_ends_on_the_last_bit() {
    // two zero bits, then the frame of the empty payload: 90 bits in all
    let mut bits = vec![false, false];
    bits.extend_from_slice(&bytes_to_bits(&wrap_payload(b"")));
    assert_eq!(bits.len(), 90);
    assert_eq!(search_frame(&bits), Ok(vec![]));
}

#[test]
fn search_finds_a_frame_that_fills_the_bits() {
    let header_only = bytes_to_bits(&wrap_payload(b""));
    assert_eq!(header_only.len(), 88);
    assert_eq!(search_frame(&header_only), Ok(Vec::new()));
    let exact = bytes_to_bits(&wrap_payload(b"fits"));
    assert_eq!(search_frame(&exact), Ok(b"fits".to_vec()));
    let mut shifted = vec![true; 5];
    shifted.extend_from_slice(&exact);
    assert_eq!(search_frame(&shifted), Ok(b"fits".to_vec()));
    assert_eq!(search_frame(&header_only[..87]), Err(StegError::NotFound));
    assert_eq!(search_frame(&exact[..exact.len() - 1]), Err(StegError::NotFound));
}

#[test]
fn error_kinds_render_as_one_line() {
    let kinds = [
        StegError::Io,
        StegError::UnsupportedImage,
        StegError::TooSmall,
        StegError::TooLarge,
        StegError::NotFound,
        StegError::TooShort,
        StegError::BadMagic,
        StegError::BadVersion,
        StegError::LenMismatch,
        StegError::AuthFail,
        StegError::NotUtf8,
        StegError::BadKey,
        StegError::Timeout,
        StegError::BadBase64,
        StegError::BadSignature,
    ];
    for kind in kinds {
        let line = kind.message();
        assert!(!line.is_empty());
        assert!(!line.contains('\n'));
    }
    assert_eq!(StegError::TooShort.message(), "Payload too short");
    assert_eq!(StegError::NotFound.message(), "Not a Stegstr image (magic not found)");
}
