//! Payloads at the edge of the library: how a recovered payload is shown as
//! text, and how text given by a caller becomes the payload to embed.

use vstd::prelude::*;
use vstd::string::StringExecFns;
use vstd::string::StrSliceExecFns;
use vstd::utf8::{decode_utf8, encode_utf8, valid_utf8};
use base64::Engine;
use crate::error::{bytes_result, StegError};
use crate::stego_crypto::{
    decrypt_app, decrypted, encrypt_app, is_encrypted_payload, is_envelope, string_from_utf8, text_of, text_result, MAX_PLAINTEXT,
};

verus! {

/// The error type of base64 decoding.
#[verifier::external_type_specification]
#[verifier::external_body]
pub struct ExDecodeError(base64::DecodeError);

/// The ASCII bytes of `base64:`, the prefix that marks base64 text.
pub const BASE64_PREFIX: [u8; 7] = [0x62, 0x61, 0x73, 0x65, 0x36, 0x34, 0x3a];

/// The standard-alphabet, padded base64 text of a byte string, as the
/// `base64` crate writes it.
pub uninterp spec fn base64_text(data: Seq<u8>) -> Seq<char>;

/// The bytes that standard-alphabet, padded base64 text stands for, or
/// `None` where the `base64` crate rejects the text.
pub uninterp spec fn base64_data(text: Seq<u8>) -> Option<Seq<u8>>;

/// Whether a character is white space in the sense of Unicode.
pub open spec fn is_space(c: char) -> bool {
    let v = c as u32;
    (0x09 <= v <= 0x0d) || v == 0x20 || v == 0x85 || v == 0xa0 || v == 0x1680 || (0x2000 <= v
        <= 0x200a) || v == 0x2028 || v == 0x2029 || v == 0x202f || v == 0x205f || v == 0x3000
}

/// A text without its leading white space.
pub open spec fn without_leading_space(s: Seq<char>) -> Seq<char>
    decreases s.len(),
{
    if s.len() > 0 && is_space(s.first()) {
        without_leading_space(s.drop_first())
    } else {
        s
    }
}

/// A text without its trailing white space.
pub open spec fn without_trailing_space(s: Seq<char>) -> Seq<char>
    decreases s.len(),
{
    if s.len() > 0 && is_space(s.last()) {
        without_trailing_space(s.drop_last())
    } else {
        s
    }
}

/// A text without leading and trailing white space.
pub open spec fn trimmed(s: Seq<char>) -> Seq<char> {
    without_trailing_space(without_leading_space(s))
}

/// Whether a text begins, after optional white space, with an opening
/// brace.
pub open spec fn opens_object(s: Seq<char>) -> bool {
    without_leading_space(s).len() > 0 && without_leading_space(s).first() == '{'
}

/// The prefix as a sequence.
pub open spec fn base64_prefix() -> Seq<u8> {
    seq![0x62u8, 0x61u8, 0x73u8, 0x65u8, 0x36u8, 0x34u8, 0x3au8]
}

/// Whether `s` begins with `head`.
pub open spec fn starts_with(s: Seq<u8>, head: Seq<u8>) -> bool {
    s.len() >= head.len() && s.subrange(0, head.len() as int) == head
}

/// `s` without any number of leading `base64:` prefixes.
pub open spec fn without_prefixes(s: Seq<u8>) -> Seq<u8>
    decreases s.len(),
{
    if starts_with(s, base64_prefix()) {
        without_prefixes(s.skip(7))
    } else {
        s
    }
}

/// How a recovered payload is shown: as its own text where it is UTF-8 and
/// begins, after optional white space, with `{`; otherwise as `base64:`
/// followed by its base64 text.
pub open spec fn rendered(payload: Seq<u8>) -> Seq<char> {
    if valid_utf8(payload) && opens_object(decode_utf8(payload)) {
        decode_utf8(payload)
    } else {
        "base64:"@ + base64_text(payload)
    }
}

/// What decoding shows for a payload. With `decrypt`, the payload must be
/// an envelope, whose plaintext is shown; `BadMagic` otherwise. Without,
/// the payload is rendered as it is.
pub open spec fn decode_shown(payload: Seq<u8>, decrypt: bool) -> Result<Seq<char>, StegError> {
    if decrypt {
        if is_envelope(payload) {
            decrypted(payload)
        } else {
            Err(StegError::BadMagic)
        }
    } else {
        Ok(rendered(payload))
    }
}

/// The payload that text given by a caller stands for: text that begins
/// with `base64:` is base64 after the prefix, any other text is its own
/// bytes. Fails with `BadBase64`.
pub open spec fn payload_of_text(text: Seq<u8>) -> Result<Seq<u8>, StegError> {
    if starts_with(text, base64_prefix()) {
        match base64_data(without_prefixes(text)) {
            Some(data) => Ok(data),
            None => Err(StegError::BadBase64),
        }
    } else {
        Ok(text)
    }
}

/// Calls `STANDARD.encode` of the `base64` crate. Trusted: the result is
/// the text named `base64_text`.
#[verifier::external_body]
fn base64_encode(data: &[u8]) -> (text: String)
    ensures
        text@ == base64_text(data@),
{
    base64::engine::general_purpose::STANDARD.encode(data)
}

/// Calls `STANDARD.decode` of the `base64` crate. Trusted: the result is
/// the one named `base64_data`, an error standing for `None`.
#[verifier::external_body]
fn base64_decode(text: &[u8]) -> (res: Result<Vec<u8>, base64::DecodeError>)
    ensures
        match res {
            Ok(data) => base64_data(text@) == Some(data@),
            Err(_) => base64_data(text@) is None,
        },
{
    base64::engine::general_purpose::STANDARD.decode(text)
}

/// Calls `str::trim_start`. Trusted: leading Unicode white space is
/// removed and nothing else.
#[verifier::external_body]
fn trim_start(text: &str) -> (rest: &str)
    ensures
        rest@ == without_leading_space(text@),
{
    text.trim_start()
}

/// Calls `str::trim`. Trusted: leading and trailing Unicode white space is
/// removed and nothing else.
#[verifier::external_body]
fn trim(text: &str) -> (rest: &str)
    ensures
        rest@ == trimmed(text@),
{
    text.trim()
}

/// Whether a text begins, after optional white space, with `{`.
pub fn starts_with_brace(text: &str) -> (yes: bool)
    ensures
        yes == opens_object(text@),
{
    let rest = trim_start(text);
    if rest.unicode_len() == 0 {
        return false;
    }
    rest.get_char(0) == '{'
}

/// Puts `base64:` before base64 text.
pub fn prefixed_base64(encoded: &str) -> (out: String)
    ensures
        out@ == "base64:"@ + encoded@,
{
    let mut out = "base64:".to_owned();
    out.append(encoded);
    out
}

/// Shows a payload as `base64:` followed by its base64 text.
pub fn render_base64(payload: &[u8]) -> (out: String)
    ensures
        out@ == "base64:"@ + base64_text(payload@),
{
    let encoded = base64_encode(payload);
    prefixed_base64(encoded.as_str())
}

/// Shows a recovered payload as text: itself where it is UTF-8 that begins
/// with `{`, its base64 text behind `base64:` otherwise.
pub fn render_payload(payload: &[u8]) -> (out: String)
    ensures
        out@ == rendered(payload@),
{
    match string_from_utf8(vstd::slice::slice_to_vec(payload)) {
        Ok(text) => {
            if starts_with_brace(text.as_str()) {
                return text;
            }
        },
        Err(_) => {},
    }
    render_base64(payload)
}

/// What decoding writes for a recovered payload.
pub fn decode_output(payload: &[u8], decrypt: bool) -> (res: Result<String, StegError>)
    ensures
        text_result(res) == decode_shown(payload@, decrypt),
{
    if decrypt {
        if is_encrypted_payload(payload) {
            decrypt_app(payload)
        } else {
            Err(StegError::BadMagic)
        }
    } else {
        Ok(render_payload(payload))
    }
}

/// What detection writes for a recovered payload: the plaintext of the
/// envelope. A payload that is no envelope fails with `BadMagic`.
pub fn detect_output(payload: &[u8]) -> (res: Result<String, StegError>)
    ensures
        text_result(res) == decode_shown(payload@, true),
{
    decode_output(payload, true)
}

/// Decodes base64 text given on a command line, white space around it
/// ignored. Fails with `BadBase64`.
pub fn payload_from_base64(text: &str) -> (res: Result<Vec<u8>, StegError>)
    ensures
        bytes_result(res) == match base64_data(encode_utf8(trimmed(text@))) {
            Some(data) => Ok::<Seq<u8>, StegError>(data),
            None => Err::<Seq<u8>, StegError>(StegError::BadBase64),
        },
{
    match base64_decode(trim(text).as_bytes()) {
        Ok(data) => Ok(data),
        Err(_) => Err(StegError::BadBase64),
    }
}

/// Wraps a payload in an envelope if asked to. Encryption needs the payload
/// to be UTF-8 and fails with `NotUtf8` otherwise, or with `TooLarge` over
/// 2^36 bytes. Whatever nonce was drawn, an encrypted payload is an
/// envelope that decrypts to the text of the payload.
pub fn prepare_payload(payload: Vec<u8>, encrypt: bool) -> (res: Result<Vec<u8>, StegError>)
    ensures
        !encrypt ==> bytes_result(res) == Ok::<Seq<u8>, StegError>(payload@),
        encrypt ==> match res {
            Ok(out) => valid_utf8(payload@) && payload@.len() <= MAX_PLAINTEXT && is_envelope(out@)
                && decrypted(out@) == text_of(payload@),
            Err(e) => if valid_utf8(payload@) {
                e == StegError::TooLarge && payload@.len() > MAX_PLAINTEXT
            } else {
                e == StegError::NotUtf8
            },
        },
{
    if !encrypt {
        return Ok(payload);
    }
    broadcast use vstd::utf8::decode_utf8_encode_utf8;

    let text = match string_from_utf8(payload) {
        Ok(text) => text,
        Err(_) => {
            return Err(StegError::NotUtf8);
        },
    };
    encrypt_app(text.as_str())
}

fn has_prefix(text: &[u8], from: usize) -> (yes: bool)
    requires
        from <= text.len(),
    ensures
        yes == starts_with(text@.skip(from as int), base64_prefix()),
{
    if text.len() - from < 7 {
        return false;
    }
    let mut i: usize = 0;
    while i < 7
        invariant
            from + 7 <= text.len(),
            i <= 7,
            BASE64_PREFIX@ == base64_prefix(),
            forall|t: int| 0 <= t < i ==> text@[from + t] == base64_prefix()[t],
        decreases 7 - i,
    {
        if text[from + i] != BASE64_PREFIX[i] {
            proof {
                let head = text@.skip(from as int).subrange(0, 7);
                assert(head[i as int] == text@[from + i]);
            }
            return false;
        }
        i = i + 1;
    }
    proof {
        assert(text@.skip(from as int).subrange(0, 7) =~= base64_prefix());
    }
    true
}

/// Turns text given by a caller into the payload it stands for: text that
/// begins with `base64:` is decoded as base64 after the prefix, any other
/// text is its own bytes. Fails with `BadBase64`.
pub fn payload_from_text(text: &str) -> (res: Result<Vec<u8>, StegError>)
    ensures
        bytes_result(res) == payload_of_text(encode_utf8(text@)),
{
    proof {
        assert(BASE64_PREFIX@ =~= base64_prefix());
    }
    let bytes = text.as_bytes();
    proof {
        assert(bytes@.skip(0) =~= bytes@);
    }
    if !has_prefix(bytes, 0) {
        return Ok(vstd::slice::slice_to_vec(bytes));
    }
    let total = bytes.len();
    let mut from: usize = 0;
    while has_prefix(bytes, from)
        invariant
            total == bytes@.len(),
            from <= bytes@.len(),
            without_prefixes(bytes@) == without_prefixes(bytes@.skip(from as int)),
        decreases bytes@.len() - from,
    {
        proof {
            assert(bytes@.skip(from as int).skip(7) =~= bytes@.skip(from + 7));
        }
        from = from + 7;
    }
    let rest = vstd::slice::slice_subrange(bytes, from, bytes.len());
    proof {
        assert(rest@ =~= bytes@.skip(from as int));
    }
    match base64_decode(rest) {
        Ok(data) => Ok(data),
        Err(_) => Err(StegError::BadBase64),
    }
}

} // verus!
