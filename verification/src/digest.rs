//! SHA-256 and hexadecimal text. The hash is computed by the `sha2` crate
//! and the text by the `hex` crate; their results are stated here, not
//! proved.

use vstd::prelude::*;
use sha2::Digest;

verus! {

/// The error type of the `hex` crate.
#[verifier::external_type_specification]
#[verifier::external_body]
pub struct ExFromHexError(hex::FromHexError);

/// The SHA-256 digest of a byte string, as the `sha2` crate computes it.
pub uninterp spec fn sha256_digest(data: Seq<u8>) -> Seq<u8>;

/// The lower-case hexadecimal digit of a value from 0 to 15.
pub open spec fn hex_digit(v: int) -> char {
    "0123456789abcdef"@[v]
}

/// The lower-case hexadecimal text of a byte string: two digits per byte,
/// the high half first.
pub open spec fn hex_chars(data: Seq<u8>) -> Seq<char> {
    Seq::new(
        2 * data.len(),
        |i: int|
            hex_digit(
                if i % 2 == 0 {
                    data[i / 2] as int / 16
                } else {
                    data[i / 2] as int % 16
                },
            ),
    )
}

/// The value of a hexadecimal digit of either case, or nothing for any
/// other character.
pub open spec fn hex_digit_value(c: char) -> Option<int> {
    if '0' <= c <= '9' {
        Some(c as int - '0' as int)
    } else if 'a' <= c <= 'f' {
        Some(c as int - 'a' as int + 10)
    } else if 'A' <= c <= 'F' {
        Some(c as int - 'A' as int + 10)
    } else {
        None
    }
}

/// Whether a text is hexadecimal: an even number of hexadecimal digits.
pub open spec fn is_hex(text: Seq<char>) -> bool {
    text.len() % 2 == 0 && forall|i: int| 0 <= i < text.len() ==> hex_digit_value(#[trigger] text[i]) is Some
}

/// The bytes that a hexadecimal text stands for.
pub open spec fn hex_bytes(text: Seq<char>) -> Seq<u8> {
    Seq::new(
        text.len() / 2,
        |j: int| (16 * hex_digit_value(text[2 * j])->Some_0 + hex_digit_value(text[2 * j + 1])->Some_0) as u8,
    )
}

/// Calls `Sha256::digest` of the `sha2` crate. Trusted: the result is the
/// digest named `sha256_digest`, and it has 32 bytes.
#[verifier::external_body]
pub(crate) fn sha256(data: &[u8]) -> (digest: [u8; 32])
    ensures
        digest@ == sha256_digest(data@),
{
    sha2::Sha256::digest(data).into()
}

/// Calls `hex::encode`. Trusted: the result is the lower-case hexadecimal
/// text of the bytes.
#[verifier::external_body]
pub(crate) fn hex_encode(data: &[u8]) -> (text: String)
    ensures
        text@ == hex_chars(data@),
{
    hex::encode(data)
}

/// Calls `hex::decode`. Trusted: it succeeds exactly on an even number of
/// hexadecimal digits of either case, and then gives the bytes they stand
/// for.
#[verifier::external_body]
pub(crate) fn hex_decode(text: &str) -> (res: Result<Vec<u8>, hex::FromHexError>)
    ensures
        match res {
            Ok(bytes) => is_hex(text@) && bytes@ == hex_bytes(text@),
            Err(_) => !is_hex(text@),
        },
{
    hex::decode(text)
}

/// Each lower-case hexadecimal digit stands for the value it was written
/// for.
pub proof fn lemma_hex_digit_value(v: int)
    requires
        0 <= v < 16,
    ensures
        hex_digit_value(hex_digit(v)) == Some(v),
{
    reveal_strlit("0123456789abcdef");
    let digits = "0123456789abcdef"@;
    assert(digits.len() == 16);
    assert(digits[0] == '0' && digits[1] == '1' && digits[2] == '2' && digits[3] == '3');
    assert(digits[4] == '4' && digits[5] == '5' && digits[6] == '6' && digits[7] == '7');
    assert(digits[8] == '8' && digits[9] == '9' && digits[10] == 'a' && digits[11] == 'b');
    assert(digits[12] == 'c' && digits[13] == 'd' && digits[14] == 'e' && digits[15] == 'f');
}

/// Hexadecimal text reads back as the bytes it was written for.
pub proof fn lemma_hex_round_trip(data: Seq<u8>)
    ensures
        is_hex(hex_chars(data)),
        hex_bytes(hex_chars(data)) == data,
{
    let text = hex_chars(data);
    assert forall|i: int| 0 <= i < text.len() implies hex_digit_value(#[trigger] text[i]) is Some by {
        lemma_hex_digit_value(data[i / 2] as int / 16);
        lemma_hex_digit_value(data[i / 2] as int % 16);
    }
    assert forall|j: int| 0 <= j < data.len() implies hex_bytes(text)[j] == data[j] by {
        lemma_hex_digit_value(data[j] as int / 16);
        lemma_hex_digit_value(data[j] as int % 16);
        assert((2 * j) / 2 == j && (2 * j + 1) / 2 == j);
    }
    assert(hex_bytes(text) =~= data);
}

} // verus!
