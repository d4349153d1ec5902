//! The application envelope: plaintext sealed with AES-256-GCM under a key
//! derived from a fixed public salt, behind an eight-byte magic, a version
//! byte and the nonce. The key is public by design; the envelope hides a
//! payload from bystanders and from nobody else.

use vstd::prelude::*;
use vstd::utf8::{decode_utf8, encode_utf8, valid_utf8};
use aes_gcm::aead::Aead;
use aes_gcm::KeyInit;
use rand::RngCore;
use crate::digest::{sha256, sha256_digest};
use crate::error::{bytes_result, StegError};

verus! {

/// The error type of the AEAD traits.
#[verifier::external_type_specification]
#[verifier::external_body]
pub struct ExAeadError(aes_gcm::Error);

/// The error that `String::from_utf8` reports.
#[verifier::external_type_specification]
#[verifier::external_body]
pub struct ExFromUtf8Error(std::string::FromUtf8Error);

/// The ASCII bytes of `STEGSTR1`.
pub const STEGSTR_MAGIC: [u8; 8] = [0x53, 0x54, 0x45, 0x47, 0x53, 0x54, 0x52, 0x31];

/// The envelope version this crate writes and reads.
pub const VERSION: u8 = 1;

/// The ASCII bytes of `stegstr-decrypt-v1`, the salt the key is derived
/// from.
pub const APP_KEY_SALT: [u8; 18] = [
    0x73,
    0x74,
    0x65,
    0x67,
    0x73,
    0x74,
    0x72,
    0x2d,
    0x64,
    0x65,
    0x63,
    0x72,
    0x79,
    0x70,
    0x74,
    0x2d,
    0x76,
    0x31,
];

/// Bytes of the nonce.
pub const IV_LEN: usize = 12;

/// Bytes of the authentication tag.
pub const TAG_LEN: usize = 16;

/// The longest plaintext, in bytes, that AES-GCM seals.
pub const MAX_PLAINTEXT: u64 = 0x10_0000_0000;

/// The ciphertext and 16-byte tag that AES-256-GCM gives for a key, a
/// 12-byte nonce and a plaintext, with no associated data, as the `aes-gcm`
/// crate computes them.
pub uninterp spec fn aes_gcm_seal(key: Seq<u8>, iv: Seq<u8>, plaintext: Seq<u8>) -> Seq<u8>;

/// The plaintext that AES-256-GCM recovers from ciphertext and tag, or
/// `None` where the tag does not authenticate them, as the `aes-gcm` crate
/// decides it.
pub uninterp spec fn aes_gcm_open(key: Seq<u8>, iv: Seq<u8>, sealed: Seq<u8>) -> Option<Seq<u8>>;

/// The magic as a sequence.
pub open spec fn envelope_magic() -> Seq<u8> {
    seq![0x53u8, 0x54u8, 0x45u8, 0x47u8, 0x53u8, 0x54u8, 0x52u8, 0x31u8]
}

/// The salt as a sequence.
pub open spec fn key_salt() -> Seq<u8> {
    seq![
        0x73u8, 0x74u8, 0x65u8, 0x67u8, 0x73u8, 0x74u8, 0x72u8, 0x2du8, 0x64u8, 0x65u8, 0x63u8,
        0x72u8, 0x79u8, 0x70u8, 0x74u8, 0x2du8, 0x76u8, 0x31u8,
    ]
}

/// The envelope key: the SHA-256 digest of the salt.
pub open spec fn envelope_key() -> Seq<u8> {
    sha256_digest(key_salt())
}

/// Whether a byte string is treated as an envelope: it has at least eight
/// bytes and begins with the magic.
pub open spec fn is_envelope(bytes: Seq<u8>) -> bool {
    bytes.len() >= 8 && bytes.subrange(0, 8) == envelope_magic()
}

/// An envelope: magic, version, nonce, then ciphertext and tag.
pub open spec fn envelope(iv: Seq<u8>, sealed: Seq<u8>) -> Seq<u8> {
    envelope_magic() + seq![1u8] + iv + sealed
}

/// The envelope of a plaintext sealed under the nonce `iv`.
pub open spec fn sealed_envelope(iv: Seq<u8>, plaintext: Seq<u8>) -> Seq<u8> {
    envelope(iv, aes_gcm_seal(envelope_key(), iv, plaintext))
}

/// The plaintext bytes of an envelope. Fails with `TooShort` under 37
/// bytes, `BadMagic` when the prefix differs, `BadVersion` when the version
/// byte is not 1, and `AuthFail` when the tag does not authenticate.
pub open spec fn open_envelope(bytes: Seq<u8>) -> Result<Seq<u8>, StegError> {
    if bytes.len() < 37 {
        Err(StegError::TooShort)
    } else if bytes.subrange(0, 8) != envelope_magic() {
        Err(StegError::BadMagic)
    } else if bytes[8] != 1 {
        Err(StegError::BadVersion)
    } else {
        match aes_gcm_open(
            envelope_key(),
            bytes.subrange(9, 21),
            bytes.subrange(21, bytes.len() as int),
        ) {
            Some(plaintext) => Ok(plaintext),
            None => Err(StegError::AuthFail),
        }
    }
}

/// The text of some plaintext bytes, or `NotUtf8`.
pub open spec fn text_of(plaintext: Seq<u8>) -> Result<Seq<char>, StegError> {
    if valid_utf8(plaintext) {
        Ok(decode_utf8(plaintext))
    } else {
        Err(StegError::NotUtf8)
    }
}

/// The plaintext of an envelope as text.
pub open spec fn decrypted(bytes: Seq<u8>) -> Result<Seq<char>, StegError> {
    match open_envelope(bytes) {
        Ok(plaintext) => text_of(plaintext),
        Err(e) => Err(e),
    }
}

/// The mathematical value of a text result.
pub open spec fn text_result(r: Result<String, StegError>) -> Result<Seq<char>, StegError> {
    match r {
        Ok(s) => Ok(s@),
        Err(e) => Err(e),
    }
}

/// Calls `Aes256Gcm::encrypt` of the `aes-gcm` crate with no associated
/// data. Trusted: it fails exactly on plaintexts over 2^36 bytes; the
/// result is the one named `aes_gcm_seal`, 16 bytes longer than the
/// plaintext; and decryption under the same key and nonce gives the
/// plaintext back.
#[verifier::external_body]
fn seal(key: &[u8], iv: &[u8], plaintext: &[u8]) -> (res: Result<Vec<u8>, aes_gcm::Error>)
    requires
        key.len() == 32,
        iv.len() == 12,
    ensures
        res is Ok <==> plaintext.len() <= MAX_PLAINTEXT,
        res matches Ok(sealed) ==> {
            &&& sealed@ == aes_gcm_seal(key@, iv@, plaintext@)
            &&& sealed@.len() == plaintext@.len() + 16
            &&& aes_gcm_open(key@, iv@, sealed@) == Some(plaintext@)
        },
{
    let cipher = aes_gcm::Aes256Gcm::new_from_slice(key).map_err(|_| aes_gcm::Error)?;
    cipher.encrypt(aes_gcm::Nonce::from_slice(iv), plaintext)
}

/// Calls `Aes256Gcm::decrypt` of the `aes-gcm` crate with no associated
/// data. Trusted: the result is the one named `aes_gcm_open`, an error
/// standing for `None`.
#[verifier::external_body]
fn open(key: &[u8], iv: &[u8], sealed: &[u8]) -> (res: Result<Vec<u8>, aes_gcm::Error>)
    requires
        key.len() == 32,
        iv.len() == 12,
    ensures
        match res {
            Ok(plaintext) => aes_gcm_open(key@, iv@, sealed@) == Some(plaintext@),
            Err(_) => aes_gcm_open(key@, iv@, sealed@) is None,
        },
{
    let cipher = aes_gcm::Aes256Gcm::new_from_slice(key).map_err(|_| aes_gcm::Error)?;
    cipher.decrypt(aes_gcm::Nonce::from_slice(iv), sealed)
}

/// Calls `fill_bytes` on the thread-local generator of the `rand` crate.
/// Nothing is claimed of the twelve bytes that come back.
#[verifier::external_body]
fn fresh_iv() -> (iv: [u8; 12]) {
    let mut iv = [0u8; 12];
    rand::thread_rng().fill_bytes(&mut iv);
    iv
}

/// Calls `String::from_utf8`. Trusted: it succeeds exactly on valid UTF-8,
/// and the string then holds the characters the bytes decode to.
#[verifier::external_body]
pub(crate) fn string_from_utf8(bytes: Vec<u8>) -> (res: Result<String, std::string::FromUtf8Error>)
    ensures
        match res {
            Ok(text) => valid_utf8(bytes@) && text@ == decode_utf8(bytes@),
            Err(_) => !valid_utf8(bytes@),
        },
{
    String::from_utf8(bytes)
}

/// The envelope key.
pub fn app_key() -> (key: [u8; 32])
    ensures
        key@ == envelope_key(),
{
    proof {
        assert(APP_KEY_SALT@ =~= key_salt());
    }
    sha256(APP_KEY_SALT.as_slice())
}

/// Whether the bytes are an envelope: at least eight bytes, beginning with
/// the magic.
pub fn is_encrypted_payload(bytes: &[u8]) -> (yes: bool)
    ensures
        yes == is_envelope(bytes@),
{
    if bytes.len() < 8 {
        return false;
    }
    let yes = bytes[0] == STEGSTR_MAGIC[0] && bytes[1] == STEGSTR_MAGIC[1] && bytes[2]
        == STEGSTR_MAGIC[2] && bytes[3] == STEGSTR_MAGIC[3] && bytes[4] == STEGSTR_MAGIC[4]
        && bytes[5] == STEGSTR_MAGIC[5] && bytes[6] == STEGSTR_MAGIC[6] && bytes[7]
        == STEGSTR_MAGIC[7];
    proof {
        let head = bytes@.subrange(0, 8);
        if yes {
            assert(head =~= envelope_magic());
        } else {
            assert(head[0] == bytes@[0] && head[1] == bytes@[1] && head[2] == bytes@[2] && head[3]
                == bytes@[3] && head[4] == bytes@[4] && head[5] == bytes@[5] && head[6]
                == bytes@[6] && head[7] == bytes@[7]);
        }
    }
    yes
}

/// Seals plaintext bytes under a given nonce and wraps them in an envelope.
/// Fails with `TooLarge` over 2^36 bytes. What comes back opens to the
/// plaintext.
pub fn seal_with_iv(plaintext: &[u8], iv: &[u8; 12]) -> (res: Result<Vec<u8>, StegError>)
    ensures
        bytes_result(res) == (if plaintext.len() > MAX_PLAINTEXT {
            Err::<Seq<u8>, StegError>(StegError::TooLarge)
        } else {
            Ok::<Seq<u8>, StegError>(sealed_envelope(iv@, plaintext@))
        }),
        res matches Ok(out) ==> {
            &&& out@.len() == 37 + plaintext@.len()
            &&& is_envelope(out@)
            &&& open_envelope(out@) == Ok::<Seq<u8>, StegError>(plaintext@)
        },
{
    let key = app_key();
    let sealed = match seal(key.as_slice(), iv.as_slice(), plaintext) {
        Ok(sealed) => sealed,
        Err(_) => {
            return Err(StegError::TooLarge);
        },
    };
    let mut out: Vec<u8> = Vec::new();
    out.extend_from_slice(&STEGSTR_MAGIC);
    out.push(VERSION);
    out.extend_from_slice(iv.as_slice());
    out.extend_from_slice(sealed.as_slice());
    proof {
        assert(STEGSTR_MAGIC@ =~= envelope_magic());
        assert(out@ =~= sealed_envelope(iv@, plaintext@));
        assert(out@.subrange(0, 8) =~= envelope_magic());
        assert(out@.subrange(9, 21) =~= iv@);
        assert(out@.subrange(21, out@.len() as int) =~= sealed@);
    }
    Ok(out)
}

/// Encrypts a text under a fresh random nonce. Fails, with `TooLarge`, only
/// over 2^36 bytes of UTF-8. Whatever nonce was drawn, the result is an
/// envelope, 37 bytes longer than the text's UTF-8 encoding, and decrypts
/// to the text.
pub fn encrypt_app(plaintext: &str) -> (res: Result<Vec<u8>, StegError>)
    ensures
        res is Ok <==> encode_utf8(plaintext@).len() <= MAX_PLAINTEXT,
        res matches Err(e) ==> e == StegError::TooLarge,
        res matches Ok(out) ==> {
            &&& out@.len() == 37 + encode_utf8(plaintext@).len()
            &&& is_envelope(out@)
            &&& decrypted(out@) == Ok::<Seq<char>, StegError>(plaintext@)
            &&& exists|iv: Seq<u8>|
                iv.len() == 12 && out@ == #[trigger] sealed_envelope(iv, encode_utf8(plaintext@))
        },
{
    broadcast use vstd::utf8::encode_utf8_valid_utf8, vstd::utf8::encode_utf8_decode_utf8;

    let iv = fresh_iv();
    let res = seal_with_iv(plaintext.as_bytes(), &iv);
    proof {
        if res is Ok {
            assert(res->Ok_0@ == sealed_envelope(iv@, encode_utf8(plaintext@)));
        }
    }
    res
}

/// Opens an envelope and returns its plaintext bytes.
pub fn open_app(encrypted: &[u8]) -> (res: Result<Vec<u8>, StegError>)
    ensures
        bytes_result(res) == open_envelope(encrypted@),
{
    if encrypted.len() < STEGSTR_MAGIC.len() + 1 + IV_LEN + TAG_LEN {
        return Err(StegError::TooShort);
    }
    if !is_encrypted_payload(encrypted) {
        return Err(StegError::BadMagic);
    }
    if encrypted[8] != VERSION {
        return Err(StegError::BadVersion);
    }
    let key = app_key();
    let iv = vstd::slice::slice_subrange(encrypted, 9, 21);
    let sealed = vstd::slice::slice_subrange(encrypted, 21, encrypted.len());
    match open(key.as_slice(), iv, sealed) {
        Ok(plaintext) => Ok(plaintext),
        Err(_) => Err(StegError::AuthFail),
    }
}

/// Decrypts an envelope and returns its plaintext as text. Fails with
/// `TooShort`, `BadMagic`, `BadVersion`, `AuthFail` or `NotUtf8`.
pub fn decrypt_app(encrypted: &[u8]) -> (res: Result<String, StegError>)
    ensures
        text_result(res) == decrypted(encrypted@),
{
    let plaintext = match open_app(encrypted) {
        Ok(plaintext) => plaintext,
        Err(e) => {
            return Err(e);
        },
    };
    match string_from_utf8(plaintext) {
        Ok(text) => Ok(text),
        Err(_) => Err(StegError::NotUtf8),
    }
}

} // verus!
