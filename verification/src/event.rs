//! Signed text notes. A message gets the Stegstr suffix, its canonical
//! pre-image is hashed into the event id, and the id is signed.

use vstd::prelude::*;
use vstd::utf8::{decode_utf8, encode_utf8, valid_utf8};
use crate::digest::{
    hex_bytes, hex_chars, hex_encode, is_hex, lemma_hex_round_trip, sha256, sha256_digest,
};
use crate::error::StegError;
use crate::keys::{
    schnorr_signature, schnorr_verifies, signature_verifies, xonly_pubkey, SecretKey,
};
use crate::stego_crypto::{string_from_utf8, text_result};

verus! {

/// The ASCII bytes of ` Sent by Stegstr.`, the suffix every note ends with.
pub const STEGSTR_SUFFIX: [u8; 17] = [
    0x20,
    0x53,
    0x65,
    0x6e,
    0x74,
    0x20,
    0x62,
    0x79,
    0x20,
    0x53,
    0x74,
    0x65,
    0x67,
    0x73,
    0x74,
    0x72,
    0x2e,
];

/// The longest note, in bytes.
pub const MAX_NOTE_LENGTH: usize = 5000;

/// The suffix as a sequence.
pub open spec fn suffix() -> Seq<u8> {
    seq![
        0x20u8, 0x53u8, 0x65u8, 0x6eu8, 0x74u8, 0x20u8, 0x62u8, 0x79u8, 0x20u8, 0x53u8, 0x74u8,
        0x65u8, 0x67u8, 0x73u8, 0x74u8, 0x72u8, 0x2eu8,
    ]
}

/// Whether `s` ends with `tail`.
pub open spec fn ends_with(s: Seq<u8>, tail: Seq<u8>) -> bool {
    s.len() >= tail.len() && s.subrange(s.len() - tail.len(), s.len() as int) == tail
}

/// `s` cut after its first `n` bytes, if it has more.
pub open spec fn truncated(s: Seq<u8>, n: int) -> Seq<u8> {
    if s.len() > n {
        s.subrange(0, n)
    } else {
        s
    }
}

/// `s` with the suffix appended unless it already ends with it.
pub open spec fn with_suffix(s: Seq<u8>) -> Seq<u8> {
    if ends_with(s, suffix()) {
        s
    } else {
        s + suffix()
    }
}

/// The bytes of a note: the message with the suffix, cut to 5000 bytes.
pub open spec fn note_bytes(content: Seq<u8>) -> Seq<u8> {
    truncated(with_suffix(content), 5000)
}

/// The text of a note, or `NotUtf8` where the cut splits a character.
pub open spec fn note_text(content: Seq<char>) -> Result<Seq<char>, StegError> {
    let bytes = note_bytes(encode_utf8(content));
    if valid_utf8(bytes) {
        Ok(decode_utf8(bytes))
    } else {
        Err(StegError::NotUtf8)
    }
}

fn has_suffix(content: &[u8]) -> (yes: bool)
    ensures
        yes == ends_with(content@, suffix()),
{
    let n = content.len();
    if n < 17 {
        return false;
    }
    let base: usize = n - 17;
    let mut i: usize = 0;
    while i < 17
        invariant
            n == content@.len(),
            n >= 17,
            base == n - 17,
            i <= 17,
            STEGSTR_SUFFIX@ == suffix(),
            forall|t: int| 0 <= t < i ==> content@[base + t] == suffix()[t],
        decreases 17 - i,
    {
        if content[base + i] != STEGSTR_SUFFIX[i] {
            proof {
                let tail = content@.subrange(n - 17, n as int);
                assert(tail[i as int] == content@[base + i]);
            }
            return false;
        }
        i = i + 1;
    }
    proof {
        assert(content@.subrange(n - 17, n as int) =~= suffix());
    }
    true
}

/// Appends the suffix to a message unless it is there already, and cuts
/// the result to 5000 bytes.
pub fn suffixed_bytes(content: &[u8]) -> (out: Vec<u8>)
    ensures
        out@ == note_bytes(content@),
        out@.len() <= 5000,
{
    proof {
        assert(STEGSTR_SUFFIX@ =~= suffix());
    }
    let mut out: Vec<u8> = vstd::slice::slice_to_vec(content);
    if !has_suffix(content) {
        out.extend_from_slice(&STEGSTR_SUFFIX);
    }
    if out.len() > MAX_NOTE_LENGTH {
        out.truncate(MAX_NOTE_LENGTH);
    }
    out
}

/// Appends the suffix to a message unless it is there already, and cuts
/// the result to 5000 bytes. Fails with `NotUtf8` where the cut splits a
/// character.
pub fn ensure_stegstr_suffix(content: &str) -> (res: Result<String, StegError>)
    ensures
        text_result(res) == note_text(content@),
{
    let out = suffixed_bytes(content.as_bytes());
    match string_from_utf8(out) {
        Ok(text) => Ok(text),
        Err(_) => Err(StegError::NotUtf8),
    }
}

/// The suffix is appended at most once: making a note of a note changes
/// nothing.
pub proof fn lemma_suffix_idempotent(content: Seq<u8>)
    ensures
        note_bytes(note_bytes(content)) == note_bytes(content),
        with_suffix(with_suffix(content)) == with_suffix(content),
{
    let once = with_suffix(content);
    assert(ends_with(once, suffix())) by {
        if !ends_with(content, suffix()) {
            assert(once.subrange(once.len() - 17, once.len() as int) =~= suffix());
        }
    }
    let note = note_bytes(content);
    if once.len() > 5000 {
        assert(note.len() == 5000);
        if !ends_with(note, suffix()) {
            assert((note + suffix()).subrange(0, 5000) =~= note);
        }
    }
}

/// Making a note of a note's text gives the same text.
pub proof fn lemma_note_text_idempotent(content: Seq<char>)
    requires
        note_text(content) is Ok,
    ensures
        note_text(note_text(content)->Ok_0) == note_text(content),
{
    let bytes = note_bytes(encode_utf8(content));
    vstd::utf8::decode_utf8_encode_utf8(bytes);
    lemma_suffix_idempotent(encode_utf8(content));
}

/// The character of a decimal digit.
pub open spec fn digit_char(d: int) -> char {
    (48 + d) as char
}

/// The decimal text of a number.
pub open spec fn decimal(n: nat) -> Seq<char>
    decreases n,
{
    if n < 10 {
        seq![digit_char(n as int)]
    } else {
        decimal(n / 10).push(digit_char((n % 10) as int))
    }
}

/// The lower-case hexadecimal digit of a value from 0 to 15.
pub open spec fn lower_hex(v: int) -> char {
    if v < 10 {
        (48 + v) as char
    } else {
        (87 + v) as char
    }
}

/// How a character stands inside a JSON string: the quote and the
/// backslash behind a backslash, control characters by their short escape
/// or as `\u00XX`, and every other character as itself.
pub open spec fn escape_char(c: char) -> Seq<char> {
    if c == '"' {
        seq!['\\', '"']
    } else if c == '\\' {
        seq!['\\', '\\']
    } else if c == '\u{8}' {
        seq!['\\', 'b']
    } else if c == '\u{c}' {
        seq!['\\', 'f']
    } else if c == '\n' {
        seq!['\\', 'n']
    } else if c == '\r' {
        seq!['\\', 'r']
    } else if c == '\t' {
        seq!['\\', 't']
    } else if (c as u32) < 0x20 {
        seq!['\\', 'u', '0', '0', lower_hex((c as u32 / 16) as int), lower_hex((c as u32 % 16) as int)]
    } else {
        seq![c]
    }
}

/// A text with every character escaped.
pub open spec fn json_escaped(s: Seq<char>) -> Seq<char>
    decreases s.len(),
{
    if s.len() == 0 {
        Seq::<char>::empty()
    } else {
        json_escaped(s.drop_last()) + escape_char(s.last())
    }
}

/// A text as a JSON string.
pub open spec fn json_string(s: Seq<char>) -> Seq<char> {
    seq!['"'] + json_escaped(s) + seq!['"']
}

/// The canonical pre-image of a text note: the JSON array of 0, the public
/// key, the time, the kind 1, no tags, and the content, with no whitespace.
pub open spec fn preimage(pubkey_hex: Seq<char>, created_at: u64, content: Seq<char>) -> Seq<char> {
    seq!['[', '0', ','] + json_string(pubkey_hex) + seq![','] + decimal(created_at as nat) + seq![
        ',',
        '1',
        ',',
        '[',
        ']',
        ',',
    ] + json_string(content) + seq![']']
}

/// Calls `String::push`. Trusted: the character is appended.
#[verifier::external_body]
pub(crate) fn push_char(out: &mut String, c: char)
    ensures
        final(out)@ == old(out)@.push(c),
{
    out.push(c);
}

pub(crate) fn write_decimal(out: &mut String, n: u64)
    ensures
        final(out)@ == old(out)@ + decimal(n as nat),
    decreases n,
{
    if n >= 10 {
        write_decimal(out, n / 10);
    }
    push_char(out, (48 + (n % 10) as u8) as char);
    proof {
        assert(out@ =~= old(out)@ + decimal(n as nat));
    }
}

fn hex_digit_char(v: u8) -> (c: char)
    requires
        v < 16,
    ensures
        c == lower_hex(v as int),
{
    if v < 10 {
        (48 + v) as char
    } else {
        (87 + v) as char
    }
}

fn write_escaped_char(out: &mut String, c: char)
    ensures
        final(out)@ == old(out)@ + escape_char(c),
{
    if c == '"' {
        push_char(out, '\\');
        push_char(out, '"');
    } else if c == '\\' {
        push_char(out, '\\');
        push_char(out, '\\');
    } else if c == '\u{8}' {
        push_char(out, '\\');
        push_char(out, 'b');
    } else if c == '\u{c}' {
        push_char(out, '\\');
        push_char(out, 'f');
    } else if c == '\n' {
        push_char(out, '\\');
        push_char(out, 'n');
    } else if c == '\r' {
        push_char(out, '\\');
        push_char(out, 'r');
    } else if c == '\t' {
        push_char(out, '\\');
        push_char(out, 't');
    } else if (c as u32) < 0x20 {
        let v = c as u32;
        push_char(out, '\\');
        push_char(out, 'u');
        push_char(out, '0');
        push_char(out, '0');
        push_char(out, hex_digit_char((v / 16) as u8));
        push_char(out, hex_digit_char((v % 16) as u8));
    } else {
        push_char(out, c);
    }
    proof {
        assert(out@ =~= old(out)@ + escape_char(c));
    }
}

/// Appends a text as a JSON string.
pub fn write_json_string(out: &mut String, text: &str)
    ensures
        final(out)@ == old(out)@ + json_string(text@),
{
    push_char(out, '"');
    let ghost start = out@;
    for c in it: text.chars()
        invariant
            it.seq() == text@,
            start == old(out)@.push('"'),
            out@ == start + json_escaped(text@.subrange(0, it.index() as int)),
    {
        let ghost before = text@.subrange(0, it.index() as int);
        let ghost after = text@.subrange(0, it.index() + 1);
        write_escaped_char(out, c);
        proof {
            assert(after.drop_last() =~= before);
            assert(after.last() == c);
            assert(out@ =~= start + json_escaped(after));
        }
    }
    proof {
        assert(text@.subrange(0, text@.len() as int) =~= text@);
    }
    push_char(out, '"');
    proof {
        assert(out@ =~= old(out)@ + json_string(text@));
    }
}

/// Writes the canonical pre-image of a text note.
pub fn preimage_text(pubkey_hex: &str, created_at: u64, content: &str) -> (out: String)
    ensures
        out@ == preimage(pubkey_hex@, created_at, content@),
{
    let mut out = String::new();
    push_char(&mut out, '[');
    push_char(&mut out, '0');
    push_char(&mut out, ',');
    write_json_string(&mut out, pubkey_hex);
    push_char(&mut out, ',');
    write_decimal(&mut out, created_at);
    push_char(&mut out, ',');
    push_char(&mut out, '1');
    push_char(&mut out, ',');
    push_char(&mut out, '[');
    push_char(&mut out, ']');
    push_char(&mut out, ',');
    write_json_string(&mut out, content);
    push_char(&mut out, ']');
    proof {
        assert(out@ =~= preimage(pubkey_hex@, created_at, content@));
    }
    out
}

/// A signed event.
#[derive(Clone, Debug, PartialEq, Eq)]
pub struct Event {
    /// Lower-case hexadecimal SHA-256 of the canonical pre-image.
    pub id: String,
    /// Lower-case hexadecimal x-only public key of the author.
    pub pubkey: String,
    /// Seconds since the Unix epoch.
    pub created_at: u64,
    /// The kind of event; 1 is a text note.
    pub kind: u32,
    /// Tags, each a list of strings.
    pub tags: Vec<Vec<String>>,
    /// The text of the note.
    pub content: String,
    /// Lower-case hexadecimal Schnorr signature over the id.
    pub sig: String,
}

/// The 32-byte id of a text note: the SHA-256 digest of the UTF-8 encoding
/// of its canonical pre-image.
pub open spec fn note_id(secret: Seq<u8>, created_at: u64, content: Seq<char>) -> Seq<u8> {
    sha256_digest(encode_utf8(preimage(hex_chars(xonly_pubkey(secret)), created_at, content)))
}

/// The 64-byte signature of a text note: the signature of its id.
pub open spec fn note_signature(secret: Seq<u8>, created_at: u64, content: Seq<char>) -> Seq<u8> {
    schnorr_signature(secret, note_id(secret, created_at, content))
}

/// Whether the signature of a text note verifies for its id under the
/// public key of the key that signed.
pub open spec fn note_verifies(secret: Seq<u8>, created_at: u64, content: Seq<char>) -> bool {
    schnorr_verifies(
        xonly_pubkey(secret),
        note_id(secret, created_at, content),
        note_signature(secret, created_at, content),
    )
}

/// Whether `event` is the text note that the key signs for the content and
/// time: kind 1, no tags, the id of its pre-image, and the signature of the
/// id.
pub open spec fn is_signed_note(event: Event, secret: Seq<u8>, created_at: u64, content: Seq<char>) -> bool {
    &&& event.pubkey@ == hex_chars(xonly_pubkey(secret))
    &&& event.created_at == created_at
    &&& event.kind == 1
    &&& event.tags@.len() == 0
    &&& event.content@ == content
    &&& event.id@ == hex_chars(note_id(secret, created_at, content))
    &&& event.sig@ == hex_chars(note_signature(secret, created_at, content))
}

/// Whether the signature that an event holds verifies for the id it holds
/// under the public key it holds, all three read from their hexadecimal
/// text.
pub open spec fn signature_holds(event: Event) -> bool {
    &&& is_hex(event.pubkey@)
    &&& is_hex(event.id@)
    &&& is_hex(event.sig@)
    &&& schnorr_verifies(hex_bytes(event.pubkey@), hex_bytes(event.id@), hex_bytes(event.sig@))
}

/// The signature of a signed note holds exactly where the note verifies.
pub proof fn lemma_signed_note_holds(event: Event, secret: Seq<u8>, created_at: u64, content: Seq<char>)
    requires
        is_signed_note(event, secret, created_at, content),
    ensures
        signature_holds(event) == note_verifies(secret, created_at, content),
{
    lemma_hex_round_trip(xonly_pubkey(secret));
    lemma_hex_round_trip(note_id(secret, created_at, content));
    lemma_hex_round_trip(note_signature(secret, created_at, content));
}

/// Hands on an event whose signature was checked: the event where the
/// check passed, `BadSignature` where it did not.
pub fn checked_event(event: Event, verified: bool) -> (res: Result<Event, StegError>)
    ensures
        res == (if verified {
            Ok::<Event, StegError>(event)
        } else {
            Err::<Event, StegError>(StegError::BadSignature)
        }),
{
    if verified {
        Ok(event)
    } else {
        Err(StegError::BadSignature)
    }
}

/// Builds and signs a text note, and verifies the signature before handing
/// the note on, as BIP-340 asks of a signer. For the same key, content and
/// time the event is the same. Fails with `BadSignature` where the
/// signature does not verify.
pub fn create_kind1_event(content: &str, sk: &SecretKey, created_at: u64) -> (res: Result<
    Event,
    StegError,
>)
    ensures
        res is Ok <==> note_verifies(sk@, created_at, content@),
        res matches Ok(event) ==> is_signed_note(event, sk@, created_at, content@)
            && signature_holds(event),
        res matches Err(e) ==> e == StegError::BadSignature,
{
    let key = sk.x_only_public_key();
    let pubkey = hex_encode(key.as_slice());
    let serialized = preimage_text(pubkey.as_str(), created_at, content);
    let digest = sha256(serialized.as_str().as_bytes());
    let id = hex_encode(digest.as_slice());
    let signature = sk.sign(&digest);
    let sig = hex_encode(signature.as_slice());
    let verified = signature_verifies(key.as_slice(), digest.as_slice(), signature.as_slice());
    let event = Event {
        id,
        pubkey,
        created_at,
        kind: 1,
        tags: Vec::new(),
        content: content.to_owned(),
        sig,
    };
    proof {
        lemma_signed_note_holds(event, sk@, created_at, content@);
    }
    checked_event(event, verified)
}

} // verus!
