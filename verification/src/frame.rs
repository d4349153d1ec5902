//! The framing every codec shares: a seven-byte magic, a big-endian 32-bit
//! body length, then the body. Also the search that recovers a frame from a
//! bit string whose start may have shifted.

use vstd::prelude::*;
use crate::bits::{bits_of_bytes, bits_to_bytes, bytes_of_bits, lemma_bits_of_subrange, lemma_bytes_of_bits_of_bytes};
use crate::error::{bytes_result, StegError};

verus! {

/// The ASCII bytes of `STEGSTR`.
pub const MAGIC: [u8; 7] = [0x53, 0x54, 0x45, 0x47, 0x53, 0x54, 0x52];

/// Bytes taken by the magic.
pub const MAGIC_LEN: usize = 7;

/// Bytes taken by the length field.
pub const LENGTH_BYTES: usize = 4;

/// Bytes taken by magic and length field together.
pub const HEADER_LEN: usize = MAGIC_LEN + LENGTH_BYTES;

/// Bits taken by magic and length field together.
pub const HEADER_BITS: usize = 88;

/// The magic as a sequence.
pub open spec fn magic() -> Seq<u8> {
    seq![0x53u8, 0x54u8, 0x45u8, 0x47u8, 0x53u8, 0x54u8, 0x52u8]
}

/// The four bytes of `n` in big-endian order.
pub open spec fn be32(n: int) -> Seq<u8> {
    seq![
        ((n / 0x100_0000) % 256) as u8,
        ((n / 0x1_0000) % 256) as u8,
        ((n / 0x100) % 256) as u8,
        (n % 256) as u8,
    ]
}

/// The number whose big-endian bytes are the first four of `s`.
pub open spec fn be32_value(s: Seq<u8>) -> int {
    s[0] as int * 0x100_0000 + s[1] as int * 0x1_0000 + s[2] as int * 0x100 + s[3] as int
}

/// A body inside its frame.
pub open spec fn wrap(body: Seq<u8>) -> Seq<u8> {
    magic() + be32(body.len() as int) + body
}

/// The body of a frame, or why the bytes are no frame. Bytes after the body
/// are ignored.
pub open spec fn unwrap(raw: Seq<u8>) -> Result<Seq<u8>, StegError> {
    if raw.len() < 11 {
        Err(StegError::TooShort)
    } else if raw.subrange(0, 7) != magic() {
        Err(StegError::BadMagic)
    } else if 11 + be32_value(raw.subrange(7, 11)) > raw.len() {
        Err(StegError::LenMismatch)
    } else {
        Ok(raw.subrange(11, 11 + be32_value(raw.subrange(7, 11))))
    }
}

/// Whether the 56 bits from `start` spell the magic.
pub open spec fn magic_at(bits: Seq<bool>, start: int) -> bool {
    bytes_of_bits(bits.subrange(start, start + 56)) == magic()
}

/// The length field read from the 32 bits after a magic at `start`.
pub open spec fn length_at(bits: Seq<bool>, start: int) -> int {
    be32_value(bytes_of_bits(bits.subrange(start + 56, start + 88)))
}

/// Whether a whole frame sits at bit offset `start`: the magic matches and
/// the declared body ends within the bit string.
pub open spec fn frame_at(bits: Seq<bool>, start: int) -> bool {
    magic_at(bits, start) && start + 88 + 8 * length_at(bits, start) <= bits.len()
}

/// The body of the frame at bit offset `start`.
pub open spec fn body_at(bits: Seq<bool>, start: int) -> Seq<u8> {
    bytes_of_bits(bits.subrange(start + 88, start + 88 + 8 * length_at(bits, start)))
}

/// The body of the first frame at or after bit offset `start`. Offsets are
/// tried in increasing order for as long as the 88 bits of a header remain.
pub open spec fn scan_from(bits: Seq<bool>, start: int) -> Option<Seq<u8>>
    decreases bits.len() - start,
{
    if start < 0 || start + 88 > bits.len() {
        None
    } else if frame_at(bits, start) {
        Some(body_at(bits, start))
    } else {
        scan_from(bits, start + 1)
    }
}

/// The body of the first frame found by sliding over every bit offset.
pub open spec fn find_frame(bits: Seq<bool>) -> Option<Seq<u8>> {
    scan_from(bits, 0)
}

/// The constant and the sequence agree.
pub proof fn lemma_magic_view()
    ensures
        MAGIC@ == magic(),
{
    assert(MAGIC@ =~= magic());
}

/// Reading a big-endian length back gives the number that was written.
pub proof fn lemma_be32_value(n: int)
    requires
        0 <= n <= u32::MAX,
    ensures
        be32(n).len() == 4,
        be32_value(be32(n)) == n,
{
}

fn push_be32(out: &mut Vec<u8>, n: u32)
    ensures
        final(out)@ == old(out)@ + be32(n as int),
{
    out.push(((n / 0x100_0000) % 256) as u8);
    out.push(((n / 0x1_0000) % 256) as u8);
    out.push(((n / 0x100) % 256) as u8);
    out.push((n % 256) as u8);
    proof {
        assert(out@ =~= old(out)@ + be32(n as int));
    }
}

fn read_be32(bytes: &[u8], at: usize) -> (n: u32)
    requires
        at + 4 <= bytes.len(),
    ensures
        n as int == be32_value(bytes@.subrange(at as int, at + 4)),
{
    let b0 = bytes[at] as u32;
    let b1 = bytes[at + 1] as u32;
    let b2 = bytes[at + 2] as u32;
    let b3 = bytes[at + 3] as u32;
    b0 * 0x100_0000 + b1 * 0x1_0000 + b2 * 0x100 + b3
}

fn starts_with_magic(bytes: &[u8]) -> (yes: bool)
    requires
        bytes.len() >= 7,
    ensures
        yes == (bytes@.subrange(0, 7) == magic()),
{
    let yes = bytes[0] == MAGIC[0] && bytes[1] == MAGIC[1] && bytes[2] == MAGIC[2] && bytes[3]
        == MAGIC[3] && bytes[4] == MAGIC[4] && bytes[5] == MAGIC[5] && bytes[6] == MAGIC[6];
    proof {
        let head = bytes@.subrange(0, 7);
        if yes {
            assert(head =~= magic());
        } else {
            assert(head[0] == bytes@[0] && head[1] == bytes@[1] && head[2] == bytes@[2] && head[3]
                == bytes@[3] && head[4] == bytes@[4] && head[5] == bytes@[5] && head[6]
                == bytes@[6]);
        }
    }
    yes
}

/// Frames a payload: magic, big-endian length, payload.
pub fn wrap_payload(payload: &[u8]) -> (out: Vec<u8>)
    requires
        payload.len() <= u32::MAX,
    ensures
        out@ == wrap(payload@),
{
    let mut out: Vec<u8> = Vec::new();
    out.extend_from_slice(&MAGIC);
    proof {
        lemma_magic_view();
    }
    push_be32(&mut out, payload.len() as u32);
    out.extend_from_slice(payload);
    proof {
        assert(out@ =~= wrap(payload@));
    }
    out
}

/// Parses a frame and returns its body. Fails with `TooShort` below eleven
/// bytes, `BadMagic` when the prefix differs, and `LenMismatch` when the
/// declared length runs past the end.
pub fn unwrap_payload(raw: &[u8]) -> (res: Result<Vec<u8>, StegError>)
    ensures
        bytes_result(res) == unwrap(raw@),
{
    if raw.len() < HEADER_LEN {
        return Err(StegError::TooShort);
    }
    if !starts_with_magic(raw) {
        return Err(StegError::BadMagic);
    }
    let len = read_be32(raw, MAGIC_LEN) as usize;
    if len > raw.len() - HEADER_LEN {
        return Err(StegError::LenMismatch);
    }
    let body = vstd::slice::slice_to_vec(vstd::slice::slice_subrange(raw, HEADER_LEN, HEADER_LEN + len));
    Ok(body)
}

/// Recovers the first frame from a bit string by trying every bit offset in
/// turn. Fails with `NotFound` when no offset holds a whole frame.
pub fn search_frame(bits: &[bool]) -> (res: Result<Vec<u8>, StegError>)
    ensures
        bytes_result(res) == match find_frame(bits@) {
            Some(body) => Ok::<Seq<u8>, StegError>(body),
            None => Err::<Seq<u8>, StegError>(StegError::NotFound),
        },
{
    let n = bits.len();
    if n < HEADER_BITS {
        return Err(StegError::NotFound);
    }
    let last: usize = n - HEADER_BITS;
    let mut start: usize = 0;
    while start <= last
        invariant
            n == bits.len(),
            n >= 88,
            last == n - 88,
            start <= last + 1,
            find_frame(bits@) == scan_from(bits@, start as int),
        decreases last + 1 - start,
    {
        let head = bits_to_bytes(vstd::slice::slice_subrange(bits, start, start + 56));
        proof {
            lemma_magic_view();
            assert(head@.subrange(0, 7) =~= head@);
        }
        if starts_with_magic(head.as_slice()) {
            let field = bits_to_bytes(vstd::slice::slice_subrange(bits, start + 56, start + 88));
            proof {
                assert(field@.subrange(0, 4) =~= field@);
            }
            let len = read_be32(field.as_slice(), 0) as u64;
            let room = (n - start - HEADER_BITS) as u64;
            if 8 * len <= room {
                let end: usize = start + HEADER_BITS + 8 * (len as usize);
                let body = bits_to_bytes(vstd::slice::slice_subrange(bits, start + HEADER_BITS, end));
                return Ok(body);
            }
        }
        start = start + 1;
    }
    Err(StegError::NotFound)
}

/// Unwrapping a wrapped body gives the body back.
pub proof fn lemma_unwrap_wrap(body: Seq<u8>)
    requires
        body.len() <= u32::MAX,
    ensures
        unwrap(wrap(body)) == Ok::<Seq<u8>, StegError>(body),
{
    let raw = wrap(body);
    lemma_be32_value(body.len() as int);
    assert(raw.subrange(0, 7) =~= magic());
    assert(raw.subrange(7, 11) =~= be32(body.len() as int));
    assert(raw.subrange(11, 11 + body.len() as int) =~= body);
}

/// A frame written from the first bit on is the frame the search returns,
/// whatever bits follow it.
pub proof fn lemma_find_frame_at_start(bits: Seq<bool>, body: Seq<u8>)
    requires
        body.len() <= u32::MAX,
        8 * wrap(body).len() <= bits.len(),
        bits.subrange(0, 8 * wrap(body).len() as int) == bits_of_bytes(wrap(body)),
    ensures
        find_frame(bits) == Some(body),
{
    let raw = wrap(body);
    let n = body.len() as int;
    let raw_bits = bits_of_bytes(raw);
    lemma_be32_value(n);
    assert(raw.subrange(0, 7) =~= magic());
    assert(raw.subrange(7, 11) =~= be32(n));
    assert(raw.subrange(11, 11 + n) =~= body);
    lemma_bits_of_subrange(raw, 0, 7);
    lemma_bits_of_subrange(raw, 7, 11);
    lemma_bits_of_subrange(raw, 11, 11 + n);
    assert(bits.subrange(0, 56) =~= raw_bits.subrange(0, 56));
    assert(bits.subrange(56, 88) =~= raw_bits.subrange(56, 88));
    assert(bits.subrange(88, 88 + 8 * n) =~= raw_bits.subrange(88, 88 + 8 * n));
    lemma_bytes_of_bits_of_bytes(magic());
    lemma_bytes_of_bits_of_bytes(be32(n));
    lemma_bytes_of_bits_of_bytes(body);
    assert(magic_at(bits, 0));
    assert(length_at(bits, 0) == n);
    assert(frame_at(bits, 0));
    assert(body_at(bits, 0) == body);
}

} // verus!
