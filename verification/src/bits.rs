//! Bytes as bit strings, most significant bit first.

use vstd::prelude::*;

verus! {

/// The value that bit position `i` of a byte contributes, position 0 being
/// the most significant bit.
pub open spec fn bit_weight(i: int) -> int {
    if i == 0 {
        128
    } else if i == 1 {
        64
    } else if i == 2 {
        32
    } else if i == 3 {
        16
    } else if i == 4 {
        8
    } else if i == 5 {
        4
    } else if i == 6 {
        2
    } else {
        1
    }
}

/// Bit `i` of `byte`, counted from the most significant bit.
#[verifier::opaque]
pub open spec fn bit_of(byte: u8, i: int) -> bool {
    (byte as int / bit_weight(i)) % 2 == 1
}

/// Bit `k` of a byte string read as one long bit string.
pub open spec fn bit_at(bytes: Seq<u8>, k: int) -> bool {
    bit_of(bytes[k / 8], k % 8)
}

/// The bit string of a byte string: eight bits per byte, most significant
/// first.
pub open spec fn bits_of_bytes(bytes: Seq<u8>) -> Seq<bool> {
    Seq::new(8 * bytes.len(), |k: int| bit_at(bytes, k))
}

/// What the bit at `start + i` adds to the byte that begins at `start`.
/// Positions past the end of the bit string add nothing.
pub open spec fn bit_value(bits: Seq<bool>, start: int, i: int) -> int {
    if start + i < bits.len() && bits[start + i] {
        bit_weight(i)
    } else {
        0
    }
}

/// The byte formed by the (up to) eight bits that begin at `start`.
#[verifier::opaque]
pub open spec fn packed_byte(bits: Seq<bool>, start: int) -> int {
    bit_value(bits, start, 0) + bit_value(bits, start, 1) + bit_value(bits, start, 2)
        + bit_value(bits, start, 3) + bit_value(bits, start, 4) + bit_value(bits, start, 5)
        + bit_value(bits, start, 6) + bit_value(bits, start, 7)
}

/// The byte string of a bit string: each group of eight bits becomes one
/// byte, and a shorter last group is padded with zero bits on the right.
pub open spec fn bytes_of_bits(bits: Seq<bool>) -> Seq<u8> {
    Seq::new((bits.len() + 7) / 8, |j: int| packed_byte(bits, 8 * j) as u8)
}

proof fn lemma_shifted_bit(b: u8, i: u8, shift: u8)
    by (bit_vector)
    requires
        i < 8,
        shift == 7u8 - i,
    ensures
        ((b >> shift) & 1u8 == 1u8) == ((b / (128u8 >> i)) % 2u8 == 1u8),
        i == 0 ==> 128u8 >> i == 128u8,
        i == 1 ==> 128u8 >> i == 64u8,
        i == 2 ==> 128u8 >> i == 32u8,
        i == 3 ==> 128u8 >> i == 16u8,
        i == 4 ==> 128u8 >> i == 8u8,
        i == 5 ==> 128u8 >> i == 4u8,
        i == 6 ==> 128u8 >> i == 2u8,
        i == 7 ==> 128u8 >> i == 1u8,
{
}

proof fn lemma_byte_bit_sum(b: u8)
    by (bit_vector)
    ensures
        b == (if (b / 128u8) % 2u8 == 1u8 { 128u8 } else { 0u8 }) + (if (b / 64u8) % 2u8 == 1u8 { 64u8 } else { 0u8 })
            + (if (b / 32u8) % 2u8 == 1u8 { 32u8 } else { 0u8 }) + (if (b / 16u8) % 2u8 == 1u8 { 16u8 } else { 0u8 })
            + (if (b / 8u8) % 2u8 == 1u8 { 8u8 } else { 0u8 }) + (if (b / 4u8) % 2u8 == 1u8 { 4u8 } else { 0u8 })
            + (if (b / 2u8) % 2u8 == 1u8 { 2u8 } else { 0u8 }) + (if (b / 1u8) % 2u8 == 1u8 { 1u8 } else { 0u8 }),
{
}

/// A byte is the sum of the weights of its set bits.
pub proof fn lemma_byte_is_sum_of_bits(b: u8)
    ensures
        b as int == (if bit_of(b, 0) { 128int } else { 0 }) + (if bit_of(b, 1) { 64int } else { 0 })
            + (if bit_of(b, 2) { 32int } else { 0 }) + (if bit_of(b, 3) { 16int } else { 0 })
            + (if bit_of(b, 4) { 8int } else { 0 }) + (if bit_of(b, 5) { 4int } else { 0 })
            + (if bit_of(b, 6) { 2int } else { 0 }) + (if bit_of(b, 7) { 1int } else { 0 }),
{
    reveal(bit_of);
    lemma_byte_bit_sum(b);
}

/// Reads bit `i` of `byte`, position 0 being the most significant bit.
pub fn get_bit(byte: u8, i: usize) -> (bit: bool)
    requires
        i < 8,
    ensures
        bit == bit_of(byte, i as int),
{
    let shift: u8 = 7 - (i as u8);
    proof {
        reveal(bit_of);
        lemma_shifted_bit(byte, i as u8, shift);
    }
    (byte >> shift) & 1 == 1
}

/// Expands bytes into bits, eight per byte, most significant bit first.
pub fn bytes_to_bits(data: &[u8]) -> (out: Vec<bool>)
    ensures
        out@ == bits_of_bytes(data@),
{
    let mut out: Vec<bool> = Vec::new();
    let mut j: usize = 0;
    while j < data.len()
        invariant
            j <= data.len(),
            out@ == bits_of_bytes(data@.subrange(0, j as int)),
        decreases data.len() - j,
    {
        let byte = data[j];
        let ghost before = out@;
        let mut i: usize = 0;
        while i < 8
            invariant
                i <= 8,
                j < data.len(),
                byte == data@[j as int],
                out@.len() == before.len() + i,
                before.len() == 8 * j,
                forall|k: int| 0 <= k < before.len() ==> out@[k] == before[k],
                forall|t: int| 0 <= t < i ==> out@[before.len() + t] == bit_of(byte, t),
            decreases 8 - i,
        {
            out.push(get_bit(byte, i));
            i = i + 1;
        }
        proof {
            let next = bits_of_bytes(data@.subrange(0, j + 1));
            assert forall|k: int| 0 <= k < next.len() implies out@[k] == next[k] by {
                if k < before.len() {
                    assert(before[k] == bit_at(data@.subrange(0, j as int), k));
                } else {
                    assert(out@[before.len() + (k - before.len())] == bit_of(byte, k - before.len()));
                }
            }
            assert(out@ =~= next);
        }
        j = j + 1;
    }
    proof {
        assert(data@.subrange(0, j as int) =~= data@);
    }
    out
}

fn bit_term(bits: &[bool], start: usize, i: usize, weight: u8) -> (term: u8)
    requires
        start < bits.len(),
        i < 8,
        weight == bit_weight(i as int),
    ensures
        term == bit_value(bits@, start as int, i as int),
{
    if i < bits.len() - start && bits[start + i] {
        weight
    } else {
        0
    }
}

/// Packs bits into bytes, eight per byte, most significant bit first. A
/// shorter last group is padded with zero bits on the right.
pub fn bits_to_bytes(bits: &[bool]) -> (out: Vec<u8>)
    ensures
        out@ == bytes_of_bits(bits@),
{
    let n = bits.len();
    let count: usize = n / 8 + (if n % 8 != 0 { 1 } else { 0 });
    let mut out: Vec<u8> = Vec::new();
    let mut j: usize = 0;
    while j < count
        invariant
            n == bits.len(),
            count == (n + 7) / 8,
            j <= count,
            out@.len() == j,
            forall|t: int| 0 <= t < j ==> out@[t] == packed_byte(bits@, 8 * t) as u8,
        decreases count - j,
    {
        let start: usize = 8 * j;
        proof {
            reveal(packed_byte);
        }
        let byte: u8 = bit_term(bits, start, 0, 128) + bit_term(bits, start, 1, 64) + bit_term(
            bits,
            start,
            2,
            32,
        ) + bit_term(bits, start, 3, 16) + bit_term(bits, start, 4, 8) + bit_term(bits, start, 5, 4)
            + bit_term(bits, start, 6, 2) + bit_term(bits, start, 7, 1);
        out.push(byte);
        j = j + 1;
    }
    proof {
        assert(out@ =~= bytes_of_bits(bits@));
    }
    out
}

/// The bits of a slice of bytes are the matching slice of the bits.
pub proof fn lemma_bits_of_subrange(bytes: Seq<u8>, from: int, to: int)
    requires
        0 <= from <= to <= bytes.len(),
    ensures
        bits_of_bytes(bytes.subrange(from, to)) == bits_of_bytes(bytes).subrange(8 * from, 8 * to),
{
    let left = bits_of_bytes(bytes.subrange(from, to));
    let right = bits_of_bytes(bytes).subrange(8 * from, 8 * to);
    assert forall|k: int| 0 <= k < left.len() implies left[k] == right[k] by {
        assert(bytes.subrange(from, to)[k / 8] == bytes[from + k / 8]);
        assert((8 * from + k) / 8 == from + k / 8);
        assert((8 * from + k) % 8 == k % 8);
    }
    assert(left =~= right);
}

/// Packing the bits of a byte string gives the byte string back.
pub proof fn lemma_bytes_of_bits_of_bytes(bytes: Seq<u8>)
    ensures
        bytes_of_bits(bits_of_bytes(bytes)) == bytes,
{
    let bits = bits_of_bytes(bytes);
    let back = bytes_of_bits(bits);
    assert forall|j: int| 0 <= j < bytes.len() implies back[j] == bytes[j] by {
        reveal(packed_byte);
        lemma_byte_is_sum_of_bits(bytes[j]);
        assert forall|i: int| 0 <= i < 8 implies bits[8 * j + i] == bit_of(bytes[j], i) by {
            assert((8 * j + i) / 8 == j);
            assert((8 * j + i) % 8 == i);
        }
        assert(bits[8 * j + 0] == bit_of(bytes[j], 0));
        assert(bits[8 * j + 1] == bit_of(bytes[j], 1));
        assert(bits[8 * j + 2] == bit_of(bytes[j], 2));
        assert(bits[8 * j + 3] == bit_of(bytes[j], 3));
        assert(bits[8 * j + 4] == bit_of(bytes[j], 4));
        assert(bits[8 * j + 5] == bit_of(bytes[j], 5));
        assert(bits[8 * j + 6] == bit_of(bytes[j], 6));
        assert(bits[8 * j + 7] == bit_of(bytes[j], 7));
    }
    assert(back =~= bytes);
}

} // verus!
