use aes_gcm::aead::Aead;
use aes_gcm::KeyInit;
use sha2::Digest;
use stegstr::error::StegError;
use stegstr::stego_crypto::{
    app_key, decrypt_app, encrypt_app, is_encrypted_payload, open_app, seal_with_iv,
};

#[test]
fn key_is_the_digest_of_the_salt() {
    let expected = sha2::Sha256::digest(b"stegstr-decrypt-v1").to_vec();
    assert_eq!(app_key().to_vec(), expected);
    assert_eq!(
        hex::encode(app_key()),
        "fd084df737ccf30d8910aaf52e9277ebd237a63714d179500a57e8df09036ce0"
    );
}

#[test]
fn envelope_of_abc() {
    let sealed = encrypt_app("abc").unwrap();
    assert_eq!(sealed.len(), 8 + 1 + 12 + 3 + 16);
    assert_eq!(sealed.len(), 40);
    assert_eq!(&sealed[..8], b"STEGSTR1");
    assert_eq!(sealed[8], 1);
    assert_eq!(decrypt_app(&sealed), Ok("abc".to_string()));
}

#[test]
fn flipping_a_byte_breaks_authentication() {
    let sealed = encrypt_app("abc").unwrap();
    for at in 9..sealed.len() {
        let mut broken = sealed.clone();
        broken[at] ^= 0x01;
        assert_eq!(decrypt_app(&broken), Err(StegError::AuthFail));
        let mut broken = sealed.clone();
        broken[at] ^= 0x80;
        assert_eq!(decrypt_app(&broken), Err(StegError::AuthFail));
    }
}

#[test]
fn envelope_round_trip() {
    for text in ["", "a", "{\"version\":1,\"events\":[]}", "caf\u{e9} \u{1f600}", "line\nbreak"] {
        let sealed = encrypt_app(text).unwrap();
        assert_eq!(sealed.len(), 37 + text.len());
        assert!(is_encrypted_payload(&sealed));
        assert_eq!(decrypt_app(&sealed), Ok(text.to_string()));
    }
}

#[test]
fn two_envelopes_of_one_text_differ() {
    let first = encrypt_app("the same text, twice").unwrap();
    let second = encrypt_app("the same text, twice").unwrap();
    assert_eq!(&first[..9], &second[..9]);
    assert_ne!(&first[9..21], &second[9..21]);
    assert_ne!(&first[21..], &second[21..]);
}

#[test]
fn envelope_is_detected_by_its_magic() {
    assert!(is_encrypted_payload(b"STEGSTR1"));
    assert!(is_encrypted_payload(b"STEGSTR1 and more"));
    assert!(!is_encrypted_payload(b"STEGSTR"));
    assert!(!is_encrypted_payload(b"STEGSTR2........"));
    assert!(!is_encrypted_payload(b""));
    assert!(!is_encrypted_payload(b"{\"a\":1}"));
}

#[test]
fn sealing_under_a_given_nonce_is_aes_256_gcm() {
    let iv = [7u8; 12];
    let sealed = seal_with_iv(b"plain bytes", &iv).unwrap();
    assert_eq!(&sealed[..8], b"STEGSTR1");
    assert_eq!(sealed[8], 1);
    assert_eq!(&sealed[9..21], &iv);
    let key = sha2::Sha256::digest(b"stegstr-decrypt-v1");
    let cipher = aes_gcm::Aes256Gcm::new_from_slice(&key).unwrap();
    let expected = cipher.encrypt(aes_gcm::Nonce::from_slice(&iv), &b"plain bytes"[..]).unwrap();
    assert_eq!(&sealed[21..], &expected[..]);
    assert_eq!(seal_with_iv(b"plain bytes", &iv).unwrap(), sealed);
    assert_eq!(open_app(&sealed), Ok(b"plain bytes".to_vec()));
}

#[test]
fn opening_reads_envelopes_made_elsewhere() {
    let key = sha2::Sha256::digest(b"stegstr-decrypt-v1");
    let cipher = aes_gcm::Aes256Gcm::new_from_slice(&key).unwrap();
    let iv = [0x42u8; 12];
    let sealed = cipher.encrypt(aes_gcm::Nonce::from_slice(&iv), &b"from elsewhere"[..]).unwrap();
    let mut envelope = b"STEGSTR1\x01".to_vec();
    envelope.extend_from_slice(&iv);
    envelope.extend_from_slice(&sealed);
    assert_eq!(decrypt_app(&envelope), Ok("from elsewhere".to_string()));
}

#[test]
fn decrypt_rejects_short_input() {
    assert_eq!(decrypt_app(b""), Err(StegError::TooShort));
    assert_eq!(decrypt_app(&[0u8; 36]), Err(StegError::TooShort));
    assert_eq!(decrypt_app(b"STEGSTR1\x01"), Err(StegError::TooShort));
}

#[test]
fn decrypt_rejects_wrong_magic() {
    let mut sealed = encrypt_app("abc").unwrap();
    sealed[7] = b'2';
    assert_eq!(decrypt_app(&sealed), Err(StegError::BadMagic));
    assert_eq!(decrypt_app(&[0u8; 37]), Err(StegError::BadMagic));
}

#[test]
fn decrypt_rejects_wrong_version() {
    let mut sealed = encrypt_app("abc").unwrap();
    sealed[8] = 2;
    assert_eq!(decrypt_app(&sealed), Err(StegError::BadVersion));
}

#[test]
fn decrypt_rejects_plaintext_that_is_not_text() {
    let sealed = seal_with_iv(&[0xff, 0xfe, 0xfd], &[1u8; 12]).unwrap();
    assert_eq!(open_app(&sealed), Ok(vec![0xff, 0xfe, 0xfd]));
    assert_eq!(decrypt_app(&sealed), Err(StegError::NotUtf8));
}

#[test]
fn empty_plaintext_is_the_shortest_envelope() {
    let sealed = encrypt_app("").unwrap();
    assert_eq!(sealed.len(), 37);
    assert_eq!(decrypt_app(&sealed), Ok(String::new()));
}
