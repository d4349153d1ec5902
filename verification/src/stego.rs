//! The wavelet codec. A single-level 2-D Haar transform is taken of each
//! colour channel, and payload bits replace the lowest bit of the `LH`
//! detail coefficients. The whole frame is repeated in every 256x256 tile
//! that can hold it, so that a cropped image still carries it.

use vstd::prelude::*;
use vstd::arithmetic::div_mod::{
    lemma_fundamental_div_mod, lemma_fundamental_div_mod_converse, lemma_multiply_divide_lt,
};
use crate::bits::{bit_at, get_bit};
use crate::error::{bytes_result, StegError};
use crate::frame::{find_frame, search_frame, wrap, wrap_payload};
use crate::raster::{
    column_of, ensure_even_dimensions, even_size, lemma_row_bound, lemma_sample_bound,
    lemma_sample_coords, lemma_sample_decompose, raster_result, row_of, sample_index,
    sample_offset, with_pixels, Image, Raster,
};
use crate::image_io::{is_png, load_rgba, loaded_rgba, png_file, save_png};

verus! {

/// Side of the square tiles that each carry the whole frame.
pub const TILE_SIZE: u32 = 256;

/// Distance between the windows tried when decoding a cropped image.
pub const DECODE_STEP: u32 = 128;

/// The four samples of a 2x2 block: `a b` on the upper row, `c d` below.
pub struct Block {
    pub a: int,
    pub b: int,
    pub c: int,
    pub d: int,
}

/// The four Haar coefficients of a block.
pub struct Coeffs {
    pub ll: int,
    pub lh: int,
    pub hl: int,
    pub hh: int,
}

/// A quarter of `v`, rounded toward zero.
pub open spec fn trunc_quarter(v: int) -> int {
    if v >= 0 {
        v / 4
    } else {
        -((-v) / 4)
    }
}

/// The forward transform of one block.
#[verifier::opaque]
pub open spec fn forward(k: Block) -> Coeffs {
    Coeffs {
        ll: trunc_quarter(k.a + k.b + k.c + k.d),
        lh: trunc_quarter(k.b + k.d - k.a - k.c),
        hl: trunc_quarter(k.c + k.d - k.a - k.b),
        hh: trunc_quarter(k.b + k.c - k.a - k.d),
    }
}

/// `v` limited to the range of a sample.
pub open spec fn clamp_sample(v: int) -> int {
    if v < 0 {
        0
    } else if v > 255 {
        255
    } else {
        v
    }
}

/// The inverse transform of one block, each sample limited to `0..=255`.
#[verifier::opaque]
pub open spec fn inverse(q: Coeffs) -> Block {
    Block {
        a: clamp_sample(q.ll - q.lh - q.hl - q.hh),
        b: clamp_sample(q.ll + q.lh - q.hl + q.hh),
        c: clamp_sample(q.ll - q.lh + q.hl + q.hh),
        d: clamp_sample(q.ll + q.lh + q.hl - q.hh),
    }
}

/// Whether `v` is odd.
pub open spec fn parity(v: int) -> bool {
    v % 2 == 1
}

/// `v` with its lowest bit replaced by `bit`.
pub open spec fn with_parity(v: int, bit: bool) -> int {
    2 * (v / 2) + if bit {
        1int
    } else {
        0int
    }
}

/// Number of 2x2 blocks in one channel of a `w` by `h` tile.
pub open spec fn blocks_per_channel(w: int, h: int) -> int {
    (w / 2) * (h / 2)
}

/// Number of bits a `w` by `h` tile can carry: one per block and colour
/// channel.
pub open spec fn tile_capacity(w: int, h: int) -> int {
    3 * blocks_per_channel(w, h)
}

/// Block `k` of channel `ch`, blocks counted row by row.
pub open spec fn block_at(raw: Seq<u8>, w: int, ch: int, k: int) -> Block {
    let i = k / (w / 2);
    let j = k % (w / 2);
    Block {
        a: raw[sample_index(w, 4, 2 * j, 2 * i, ch)] as int,
        b: raw[sample_index(w, 4, 2 * j + 1, 2 * i, ch)] as int,
        c: raw[sample_index(w, 4, 2 * j, 2 * i + 1, ch)] as int,
        d: raw[sample_index(w, 4, 2 * j + 1, 2 * i + 1, ch)] as int,
    }
}

/// The number of the block that holds buffer position `p`.
pub open spec fn block_index(w: int, p: int) -> int {
    (row_of(w, 4, p) / 2) * (w / 2) + column_of(w, 4, p) / 2
}

/// Whether position `p` lies in a complete 2x2 block.
pub open spec fn in_blocks(w: int, h: int, p: int) -> bool {
    column_of(w, 4, p) < 2 * (w / 2) && row_of(w, 4, p) < 2 * (h / 2)
}

/// The sample of a block that belongs to pixel `(x, y)`.
pub open spec fn corner(k: Block, x: int, y: int) -> int {
    if y % 2 == 0 {
        if x % 2 == 0 {
            k.a
        } else {
            k.b
        }
    } else {
        if x % 2 == 0 {
            k.c
        } else {
            k.d
        }
    }
}

/// The coefficients held at index `k` of four coefficient planes.
pub open spec fn coeffs_at(ll: Seq<i32>, lh: Seq<i32>, hl: Seq<i32>, hh: Seq<i32>, k: int) -> Coeffs {
    Coeffs { ll: ll[k] as int, lh: lh[k] as int, hl: hl[k] as int, hh: hh[k] as int }
}

/// What the inverse transform leaves at position `p`: the rebuilt sample
/// where `p` belongs to channel `ch` and to a complete block, and the
/// previous sample elsewhere.
pub open spec fn rebuilt_sample(
    prev: u8,
    w: int,
    h: int,
    ch: int,
    ll: Seq<i32>,
    lh: Seq<i32>,
    hl: Seq<i32>,
    hh: Seq<i32>,
    p: int,
) -> u8 {
    if p % 4 == ch && in_blocks(w, h, p) {
        corner(
            inverse(coeffs_at(ll, lh, hl, hh, block_index(w, p))),
            column_of(w, 4, p),
            row_of(w, 4, p),
        ) as u8
    } else {
        prev
    }
}

/// The coefficients of block `k` of channel `ch` once the frame is in:
/// bit `ch * blocks + k` of the frame, if the frame has such a bit, replaces
/// the lowest bit of `LH`.
pub open spec fn embedded_coeffs(raw: Seq<u8>, w: int, h: int, frame: Seq<u8>, ch: int, k: int) -> Coeffs {
    let q = forward(block_at(raw, w, ch, k));
    let g = ch * blocks_per_channel(w, h) + k;
    if g < 8 * frame.len() {
        Coeffs { ll: q.ll, lh: with_parity(q.lh, bit_at(frame, g)), hl: q.hl, hh: q.hh }
    } else {
        q
    }
}

/// The sample at position `p` of a tile once the frame is in. Alpha and
/// samples outside complete blocks keep their value.
pub open spec fn embedded_sample(raw: Seq<u8>, w: int, h: int, frame: Seq<u8>, p: int) -> u8 {
    if p % 4 < 3 && in_blocks(w, h, p) {
        corner(
            inverse(embedded_coeffs(raw, w, h, frame, p % 4, block_index(w, p))),
            column_of(w, 4, p),
            row_of(w, 4, p),
        ) as u8
    } else {
        raw[p]
    }
}

/// A tile with the frame embedded.
pub open spec fn embed_tile(raw: Seq<u8>, w: int, h: int, frame: Seq<u8>) -> Seq<u8> {
    Seq::new(raw.len(), |p: int| embedded_sample(raw, w, h, frame, p))
}

/// The bits a tile carries: the lowest bit of `LH` of every block, all of
/// the red channel first, then green, then blue.
pub open spec fn tile_bits(raw: Seq<u8>, w: int, h: int) -> Seq<bool> {
    Seq::new(
        tile_capacity(w, h) as nat,
        |g: int|
            parity(
                forward(
                    block_at(raw, w, g / blocks_per_channel(w, h), g % blocks_per_channel(w, h)),
                ).lh,
            ),
    )
}

/// What decoding one tile gives: `TooSmall` when the tile cannot even hold a
/// frame header, otherwise the first frame among its bits, or `NotFound`.
pub open spec fn decode_tile(raw: Seq<u8>, w: int, h: int) -> Result<Seq<u8>, StegError> {
    if w < 2 || h < 2 || tile_capacity(w, h) < 88 {
        Err(StegError::TooSmall)
    } else {
        match find_frame(tile_bits(raw, w, h)) {
            Some(body) => Ok(body),
            None => Err(StegError::NotFound),
        }
    }
}

/// Block `k` of a `w` by `h` tile lies inside the tile, and its four
/// positions decompose into the block's row and column.
pub proof fn lemma_block_positions(w: int, h: int, ch: int, k: int)
    requires
        0 <= w,
        0 <= h,
        0 <= ch < 4,
        0 <= k < blocks_per_channel(w, h),
    ensures
        0 < w / 2,
        0 <= k / (w / 2) < h / 2,
        0 <= k % (w / 2) < w / 2,
        k == (k / (w / 2)) * (w / 2) + k % (w / 2),
        forall|dx: int, dy: int|
            0 <= dx < 2 && 0 <= dy < 2 ==> {
                let p = #[trigger] sample_index(
                    w,
                    4,
                    2 * (k % (w / 2)) + dx,
                    2 * (k / (w / 2)) + dy,
                    ch,
                );
                &&& 0 <= p < w * h * 4
                &&& p % 4 == ch
                &&& column_of(w, 4, p) == 2 * (k % (w / 2)) + dx
                &&& row_of(w, 4, p) == 2 * (k / (w / 2)) + dy
                &&& in_blocks(w, h, p)
                &&& block_index(w, p) == k
            },
{
    let hw = w / 2;
    let hh = h / 2;
    assert(hw > 0) by (nonlinear_arith)
        requires
            0 <= k < hw * hh,
            0 <= hw,
    ;
    lemma_fundamental_div_mod(k, hw);
    lemma_multiply_divide_lt(k, hw, hh);
    let i = k / hw;
    let j = k % hw;
    assert(i >= 0) by (nonlinear_arith)
        requires
            k >= 0,
            hw > 0,
            i == k / hw,
    ;
    assert(hw * i == i * hw) by (nonlinear_arith);
    assert forall|dx: int, dy: int| 0 <= dx < 2 && 0 <= dy < 2 implies {
        let p = #[trigger] sample_index(w, 4, 2 * j + dx, 2 * i + dy, ch);
        &&& 0 <= p < w * h * 4
        &&& p % 4 == ch
        &&& column_of(w, 4, p) == 2 * j + dx
        &&& row_of(w, 4, p) == 2 * i + dy
        &&& in_blocks(w, h, p)
        &&& block_index(w, p) == k
    } by {
        lemma_sample_bound(w, h, 4, 2 * j + dx, 2 * i + dy, ch);
        lemma_sample_coords(w, 4, 2 * j + dx, 2 * i + dy, ch);
        assert((2 * j + dx) / 2 == j);
        assert((2 * i + dy) / 2 == i);
    }
}

/// A position in a complete block belongs to a block of the tile, at the
/// corner its row and column say.
pub proof fn lemma_position_block(w: int, h: int, p: int)
    requires
        0 < w,
        0 <= h,
        0 <= p < w * h * 4,
        in_blocks(w, h, p),
    ensures
        0 <= block_index(w, p) < blocks_per_channel(w, h),
        block_index(w, p) / (w / 2) == row_of(w, 4, p) / 2,
        block_index(w, p) % (w / 2) == column_of(w, 4, p) / 2,
        p == sample_index(
            w,
            4,
            2 * (block_index(w, p) % (w / 2)) + column_of(w, 4, p) % 2,
            2 * (block_index(w, p) / (w / 2)) + row_of(w, 4, p) % 2,
            p % 4,
        ),
{
    lemma_sample_decompose(w, 4, p);
    let x = column_of(w, 4, p);
    let y = row_of(w, 4, p);
    let hw = w / 2;
    let hh = h / 2;
    let i = y / 2;
    let j = x / 2;
    assert(0 <= j < hw);
    assert(0 <= i < hh);
    lemma_fundamental_div_mod_converse(i * hw + j, hw, i, j);
    assert(0 <= i * hw + j < hw * hh) by (nonlinear_arith)
        requires
            0 <= j < hw,
            0 <= i < hh,
    ;
}

/// A buffer with a position in it has a positive width and height, and the
/// position's block number is not negative.
pub proof fn lemma_position_in_tile(w: int, h: int, p: int)
    requires
        0 <= w,
        0 <= h,
        0 <= p < w * h * 4,
    ensures
        0 < w,
        0 < h,
        0 <= block_index(w, p),
        0 <= column_of(w, 4, p) < w,
        0 <= row_of(w, 4, p) < h,
{
    assert(0 < w && 0 < h) by (nonlinear_arith)
        requires
            0 <= w,
            0 <= h,
            0 <= p < w * h * 4,
    ;
    lemma_sample_decompose(w, 4, p);
    lemma_row_bound(w, h, 4, p);
    let i = row_of(w, 4, p) / 2;
    let j = column_of(w, 4, p) / 2;
    assert(0 <= i * (w / 2) + j) by (nonlinear_arith)
        requires
            0 <= i,
            0 <= j,
            0 <= w / 2,
    ;
}

proof fn lemma_low_bit(v: i32, b: i32)
    by (bit_vector)
    requires
        b == 0 || b == 1,
    ensures
        ((v & !1i32) | b) & 1i32 == b,
        ((v & !1i32) | b) - b == v - (v & 1i32),
        (v & 1i32) == 0 || (v & 1i32) == 1,
{
}

proof fn lemma_low_bit_is_parity(v: i32)
    by (bit_vector)
    ensures
        ((v & 1i32) != 0) == ((v as int) % 2 == 1),
        (v & 1i32) == (v as int) % 2,
{
}

fn set_low_bit(v: i32, bit: bool) -> (r: i32)
    ensures
        r as int == with_parity(v as int, bit),
{
    let b: i32 = if bit {
        1
    } else {
        0
    };
    proof {
        lemma_low_bit(v, b);
        lemma_low_bit_is_parity(v);
    }
    (v & !1) | b
}

fn low_bit(v: i32) -> (bit: bool)
    ensures
        bit == parity(v as int),
{
    proof {
        lemma_low_bit_is_parity(v);
    }
    (v & 1) != 0
}

fn clamp_to_sample(v: i64) -> (r: u8)
    ensures
        r as int == clamp_sample(v as int),
{
    if v < 0 {
        0
    } else if v > 255 {
        255
    } else {
        v as u8
    }
}

/// The forward Haar transform of channel `ch`: four planes of
/// half-resolution coefficients, blocks counted row by row.
pub fn haar2d_forward(img: &[u8], w: u32, h: u32, ch: usize) -> (out: (
    Vec<i32>,
    Vec<i32>,
    Vec<i32>,
    Vec<i32>,
))
    requires
        img.len() == w * h * 4,
        ch < 4,
    ensures
        out.0@.len() == blocks_per_channel(w as int, h as int),
        out.1@.len() == blocks_per_channel(w as int, h as int),
        out.2@.len() == blocks_per_channel(w as int, h as int),
        out.3@.len() == blocks_per_channel(w as int, h as int),
        forall|k: int|
            0 <= k < blocks_per_channel(w as int, h as int) ==> #[trigger] coeffs_at(
                out.0@,
                out.1@,
                out.2@,
                out.3@,
                k,
            ) == forward(block_at(img@, w as int, ch as int, k)),
{
    let half_w: usize = (w / 2) as usize;
    let half_h: usize = (h / 2) as usize;
    proof {
        assert(0 <= (w / 2) * (h / 2) <= w * h * 4) by (nonlinear_arith)
            requires
                0 <= w / 2 <= w,
                0 <= h / 2 <= h,
        ;
    }
    let count: usize = half_w * half_h;
    let mut ll: Vec<i32> = Vec::new();
    let mut lh: Vec<i32> = Vec::new();
    let mut hl: Vec<i32> = Vec::new();
    let mut hh: Vec<i32> = Vec::new();
    let mut k: usize = 0;
    while k < count
        invariant
            img.len() == w * h * 4,
            ch < 4,
            half_w == w / 2,
            half_h == h / 2,
            count == blocks_per_channel(w as int, h as int),
            k <= count,
            ll@.len() == k,
            lh@.len() == k,
            hl@.len() == k,
            hh@.len() == k,
            forall|t: int|
                0 <= t < k ==> #[trigger] coeffs_at(ll@, lh@, hl@, hh@, t) == forward(
                    block_at(img@, w as int, ch as int, t),
                ),
        decreases count - k,
    {
        proof {
            lemma_block_positions(w as int, h as int, ch as int, k as int);
        }
        let i: u32 = (k / half_w) as u32;
        let j: u32 = (k % half_w) as u32;
        let c8: u8 = ch as u8;
        proof {
            let j0 = (k as int) % ((w as int) / 2);
            let i0 = (k as int) / ((w as int) / 2);
            assert(sample_index(w as int, 4, 2 * j0 + 0, 2 * i0 + 0, ch as int) < w * h * 4);
            assert(sample_index(w as int, 4, 2 * j0 + 1, 2 * i0 + 0, ch as int) < w * h * 4);
            assert(sample_index(w as int, 4, 2 * j0 + 0, 2 * i0 + 1, ch as int) < w * h * 4);
            assert(sample_index(w as int, 4, 2 * j0 + 1, 2 * i0 + 1, ch as int) < w * h * 4);
        }
        let a = img[sample_offset(w, h, 4, 2 * j, 2 * i, c8)] as i32;
        let b = img[sample_offset(w, h, 4, 2 * j + 1, 2 * i, c8)] as i32;
        let c = img[sample_offset(w, h, 4, 2 * j, 2 * i + 1, c8)] as i32;
        let d = img[sample_offset(w, h, 4, 2 * j + 1, 2 * i + 1, c8)] as i32;
        let ghost old_ll = ll@;
        let ghost old_lh = lh@;
        let ghost old_hl = hl@;
        let ghost old_hh = hh@;
        ll.push((a + b + c + d) / 4);
        lh.push((b + d - a - c) / 4);
        hl.push((c + d - a - b) / 4);
        hh.push((b + c - a - d) / 4);
        proof {
            reveal(forward);
            assert forall|t: int| 0 <= t < k + 1 implies #[trigger] coeffs_at(
                ll@,
                lh@,
                hl@,
                hh@,
                t,
            ) == forward(block_at(img@, w as int, ch as int, t)) by {
                if t < k {
                    assert(coeffs_at(ll@, lh@, hl@, hh@, t) == coeffs_at(
                        old_ll,
                        old_lh,
                        old_hl,
                        old_hh,
                        t,
                    ));
                }
            }
        }
        k = k + 1;
    }
    (ll, lh, hl, hh)
}

/// The inverse Haar transform of channel `ch`, written over the samples of
/// that channel in `out`. Each rebuilt sample is limited to `0..=255`.
#[verifier::rlimit(50)]
pub fn haar2d_inverse(
    out: &mut Vec<u8>,
    w: u32,
    h: u32,
    ch: usize,
    ll: &[i32],
    lh: &[i32],
    hl: &[i32],
    hh: &[i32],
)
    requires
        old(out).len() == w * h * 4,
        ch < 4,
        ll.len() == blocks_per_channel(w as int, h as int),
        lh.len() == blocks_per_channel(w as int, h as int),
        hl.len() == blocks_per_channel(w as int, h as int),
        hh.len() == blocks_per_channel(w as int, h as int),
    ensures
        final(out)@.len() == old(out)@.len(),
        forall|p: int|
            0 <= p < old(out)@.len() ==> #[trigger] final(out)@[p] == rebuilt_sample(
                old(out)@[p],
                w as int,
                h as int,
                ch as int,
                ll@,
                lh@,
                hl@,
                hh@,
                p,
            ),
{
    let half_w: usize = (w / 2) as usize;
    let count: usize = ll.len();
    let total: usize = out.len();
    let c8: u8 = ch as u8;
    let mut k: usize = 0;
    proof {
        assert forall|p: int| 0 <= p < out@.len() implies 0 <= block_index(w as int, p) by {
            lemma_position_in_tile(w as int, h as int, p);
        }
    }
    while k < count
        invariant
            out@.len() == w * h * 4,
            old(out)@.len() == w * h * 4,
            total == w * h * 4,
            ch < 4,
            c8 == ch,
            half_w == w / 2,
            count == blocks_per_channel(w as int, h as int),
            ll.len() == count,
            lh.len() == count,
            hl.len() == count,
            hh.len() == count,
            k <= count,
            forall|p: int|
                0 <= p < out@.len() ==> #[trigger] out@[p] == (if block_index(w as int, p) < k {
                    rebuilt_sample(
                        old(out)@[p],
                        w as int,
                        h as int,
                        ch as int,
                        ll@,
                        lh@,
                        hl@,
                        hh@,
                        p,
                    )
                } else {
                    old(out)@[p]
                }),
        decreases count - k,
    {
        proof {
            lemma_block_positions(w as int, h as int, ch as int, k as int);
        }
        let i: u32 = (k / half_w) as u32;
        let j: u32 = (k % half_w) as u32;
        let ghost j0 = (k as int) % ((w as int) / 2);
        let ghost i0 = (k as int) / ((w as int) / 2);
        let ghost pa = sample_index(w as int, 4, 2 * j0 + 0, 2 * i0 + 0, ch as int);
        let ghost pb = sample_index(w as int, 4, 2 * j0 + 1, 2 * i0 + 0, ch as int);
        let ghost pc = sample_index(w as int, 4, 2 * j0 + 0, 2 * i0 + 1, ch as int);
        let ghost pd = sample_index(w as int, 4, 2 * j0 + 1, 2 * i0 + 1, ch as int);
        proof {
            assert(0 <= pa < w * h * 4 && 0 <= pb < w * h * 4 && 0 <= pc < w * h * 4 && 0 <= pd < w
                * h * 4);
        }
        let ll_k = ll[k] as i64;
        let lh_k = lh[k] as i64;
        let hl_k = hl[k] as i64;
        let hh_k = hh[k] as i64;
        let a = clamp_to_sample(ll_k - lh_k - hl_k - hh_k);
        let b = clamp_to_sample(ll_k + lh_k - hl_k + hh_k);
        let c = clamp_to_sample(ll_k - lh_k + hl_k + hh_k);
        let d = clamp_to_sample(ll_k + lh_k + hl_k - hh_k);
        let at_a = sample_offset(w, h, 4, 2 * j, 2 * i, c8);
        let at_b = sample_offset(w, h, 4, 2 * j + 1, 2 * i, c8);
        let at_c = sample_offset(w, h, 4, 2 * j, 2 * i + 1, c8);
        let at_d = sample_offset(w, h, 4, 2 * j + 1, 2 * i + 1, c8);
        let ghost before = out@;
        out[at_a] = a;
        out[at_b] = b;
        out[at_c] = c;
        out[at_d] = d;
        proof {
            reveal(inverse);
            assert forall|p: int| 0 <= p < out@.len() implies #[trigger] out@[p] == (if block_index(
                w as int,
                p,
            ) < k + 1 {
                rebuilt_sample(
                    old(out)@[p],
                    w as int,
                    h as int,
                    ch as int,
                    ll@,
                    lh@,
                    hl@,
                    hh@,
                    p,
                )
            } else {
                old(out)@[p]
            }) by {
                if p == pa || p == pb || p == pc || p == pd {
                } else {
                    assert(out@[p] == before[p]);
                    if block_index(w as int, p) == k && p % 4 == ch && in_blocks(
                        w as int,
                        h as int,
                        p,
                    ) {
                        lemma_position_in_tile(w as int, h as int, p);
                        lemma_position_block(w as int, h as int, p);
                        assert(false);
                    }
                }
            }
        }
        k = k + 1;
    }
    proof {
        assert forall|p: int| 0 <= p < old(out)@.len() implies #[trigger] out@[p] == rebuilt_sample(
            old(out)@[p],
            w as int,
            h as int,
            ch as int,
            ll@,
            lh@,
            hl@,
            hh@,
            p,
        ) by {
            lemma_position_in_tile(w as int, h as int, p);
            if p % 4 == ch && in_blocks(w as int, h as int, p) {
                lemma_position_block(w as int, h as int, p);
            }
        }
    }
}

/// Embeds a frame into one tile of RGBA samples and returns the new
/// samples. Fails with `TooLarge` when the frame has more bits than the tile
/// has blocks in its three colour channels.
#[verifier::rlimit(50)]
pub fn embed_in_tile(raw: &[u8], tw: u32, th: u32, to_embed: &[u8]) -> (res: Result<Vec<u8>, StegError>)
    requires
        raw.len() == tw * th * 4,
    ensures
        bytes_result(res) == (if 8 * to_embed.len() > tile_capacity(tw as int, th as int) {
            Err::<Seq<u8>, StegError>(StegError::TooLarge)
        } else {
            Ok::<Seq<u8>, StegError>(embed_tile(raw@, tw as int, th as int, to_embed@))
        }),
{
    let half_w: usize = (tw / 2) as usize;
    let half_h: usize = (th / 2) as usize;
    proof {
        assert(0 <= 3 * ((tw / 2) * (th / 2)) <= tw * th * 4) by (nonlinear_arith)
            requires
                0 <= tw / 2,
                0 <= th / 2,
                2 * (tw / 2) <= tw,
                2 * (th / 2) <= th,
        ;
    }
    let blocks: usize = half_w * half_h;
    let capacity: usize = blocks * 3;
    if to_embed.len() > capacity / 8 {
        return Err(StegError::TooLarge);
    }
    let bits_needed: usize = to_embed.len() * 8;
    let mut out: Vec<u8> = vstd::slice::slice_to_vec(raw);
    let mut ch: usize = 0;
    while ch < 3
        invariant
            raw.len() == tw * th * 4,
            out@.len() == raw@.len(),
            blocks == blocks_per_channel(tw as int, th as int),
            bits_needed == 8 * to_embed.len(),
            bits_needed <= 3 * blocks,
            3 * blocks <= usize::MAX,
            ch <= 3,
            forall|p: int|
                0 <= p < out@.len() ==> #[trigger] out@[p] == (if p % 4 < ch {
                    embedded_sample(raw@, tw as int, th as int, to_embed@, p)
                } else {
                    raw@[p]
                }),
        decreases 3 - ch,
    {
        let (ll, lh, hl, hh) = haar2d_forward(out.as_slice(), tw, th, ch);
        proof {
            assert forall|k: int| 0 <= k < blocks implies #[trigger] block_at(
                out@,
                tw as int,
                ch as int,
                k,
            ) == block_at(raw@, tw as int, ch as int, k) by {
                lemma_block_positions(tw as int, th as int, ch as int, k);
                let j0 = k % ((tw as int) / 2);
                let i0 = k / ((tw as int) / 2);
                let pa = sample_index(tw as int, 4, 2 * j0 + 0, 2 * i0 + 0, ch as int);
                let pb = sample_index(tw as int, 4, 2 * j0 + 1, 2 * i0 + 0, ch as int);
                let pc = sample_index(tw as int, 4, 2 * j0 + 0, 2 * i0 + 1, ch as int);
                let pd = sample_index(tw as int, 4, 2 * j0 + 1, 2 * i0 + 1, ch as int);
                assert(out@[pa] == raw@[pa]);
                assert(out@[pb] == raw@[pb]);
                assert(out@[pc] == raw@[pc]);
                assert(out@[pd] == raw@[pd]);
            }
            assert forall|t: int| 0 <= t < blocks implies #[trigger] lh@[t] as int == forward(
                block_at(raw@, tw as int, ch as int, t),
            ).lh by {
                assert(coeffs_at(ll@, lh@, hl@, hh@, t) == forward(
                    block_at(out@, tw as int, ch as int, t),
                ));
                assert(block_at(out@, tw as int, ch as int, t) == block_at(
                    raw@,
                    tw as int,
                    ch as int,
                    t,
                ));
            }
        }
        let mut lh_mod: Vec<i32> = Vec::new();
        let mut k: usize = 0;
        while k < blocks
            invariant
                blocks == blocks_per_channel(tw as int, th as int),
                bits_needed == 8 * to_embed.len(),
                bits_needed <= 3 * blocks,
                3 * blocks <= usize::MAX,
                ch < 3,
                k <= blocks,
                lh@.len() == blocks,
                lh_mod@.len() == k,
                forall|t: int|
                    0 <= t < blocks ==> #[trigger] lh@[t] as int == forward(
                        block_at(raw@, tw as int, ch as int, t),
                    ).lh,
                forall|t: int|
                    0 <= t < k ==> #[trigger] lh_mod@[t] as int == embedded_coeffs(
                        raw@,
                        tw as int,
                        th as int,
                        to_embed@,
                        ch as int,
                        t,
                    ).lh,
            decreases blocks - k,
        {
            proof {
                assert(ch * blocks + k < 3 * blocks) by (nonlinear_arith)
                    requires
                        ch < 3,
                        k < blocks,
                ;
                assert(ch * blocks >= 0) by (nonlinear_arith)
                    requires
                        ch >= 0,
                        blocks >= 0,
                ;
            }
            let g: usize = ch * blocks + k;
            let v = if g < bits_needed {
                set_low_bit(lh[k], get_bit(to_embed[g / 8], g % 8))
            } else {
                lh[k]
            };
            lh_mod.push(v);
            k = k + 1;
        }
        let ghost before = out@;
        haar2d_inverse(&mut out, tw, th, ch, ll.as_slice(), lh_mod.as_slice(), hl.as_slice(), hh.as_slice());
        proof {
            assert forall|p: int| 0 <= p < out@.len() implies #[trigger] out@[p] == (if p % 4 < ch
                + 1 {
                embedded_sample(raw@, tw as int, th as int, to_embed@, p)
            } else {
                raw@[p]
            }) by {
                lemma_position_in_tile(tw as int, th as int, p);
                if p % 4 == ch && in_blocks(tw as int, th as int, p) {
                    lemma_position_block(tw as int, th as int, p);
                    let t = block_index(tw as int, p);
                    assert(coeffs_at(ll@, lh@, hl@, hh@, t) == forward(
                        block_at(before, tw as int, ch as int, t),
                    ));
                    assert(block_at(before, tw as int, ch as int, t) == block_at(
                        raw@,
                        tw as int,
                        ch as int,
                        t,
                    ));
                    assert(lh_mod@[t] as int == embedded_coeffs(
                        raw@,
                        tw as int,
                        th as int,
                        to_embed@,
                        ch as int,
                        t,
                    ).lh);
                    assert(coeffs_at(ll@, lh_mod@, hl@, hh@, t) == embedded_coeffs(
                        raw@,
                        tw as int,
                        th as int,
                        to_embed@,
                        ch as int,
                        t,
                    ));
                }
            }
        }
        ch = ch + 1;
    }
    proof {
        assert(out@ =~= embed_tile(raw@, tw as int, th as int, to_embed@));
    }
    Ok(out)
}

/// Recovers a frame from one tile of RGBA samples. Fails with `TooSmall`
/// when the tile is under 2x2 or carries fewer than 88 bits, and with
/// `NotFound` when no bit offset holds a whole frame.
pub fn decode_from_tile(raw: &[u8], tw: u32, th: u32) -> (res: Result<Vec<u8>, StegError>)
    requires
        raw.len() == tw * th * 4,
    ensures
        bytes_result(res) == decode_tile(raw@, tw as int, th as int),
{
    if tw < 2 || th < 2 {
        return Err(StegError::TooSmall);
    }
    let half_w: usize = (tw / 2) as usize;
    let half_h: usize = (th / 2) as usize;
    proof {
        assert(0 <= 3 * ((tw / 2) * (th / 2)) <= tw * th * 4) by (nonlinear_arith)
            requires
                0 <= tw / 2,
                0 <= th / 2,
                2 * (tw / 2) <= tw,
                2 * (th / 2) <= th,
        ;
    }
    let blocks: usize = half_w * half_h;
    let total_bits: usize = blocks * 3;
    if total_bits < 88 {
        return Err(StegError::TooSmall);
    }
    let ghost want = tile_bits(raw@, tw as int, th as int);
    let mut bits: Vec<bool> = Vec::new();
    let mut ch: usize = 0;
    while ch < 3
        invariant
            raw.len() == tw * th * 4,
            blocks == blocks_per_channel(tw as int, th as int),
            0 < blocks,
            ch <= 3,
            want == tile_bits(raw@, tw as int, th as int),
            bits@.len() == ch * blocks,
            forall|g: int| 0 <= g < bits@.len() ==> bits@[g] == want[g],
        decreases 3 - ch,
    {
        let (_ll, lh, _hl, _hh) = haar2d_forward(raw, tw, th, ch);
        let mut k: usize = 0;
        while k < blocks
            invariant
                blocks == blocks_per_channel(tw as int, th as int),
                0 < blocks,
                ch < 3,
                k <= blocks,
                want == tile_bits(raw@, tw as int, th as int),
                lh@.len() == blocks,
                forall|t: int|
                    0 <= t < blocks ==> #[trigger] coeffs_at(_ll@, lh@, _hl@, _hh@, t) == forward(
                        block_at(raw@, tw as int, ch as int, t),
                    ),
                bits@.len() == ch * blocks + k,
                forall|g: int| 0 <= g < bits@.len() ==> bits@[g] == want[g],
            decreases blocks - k,
        {
            let ghost g = ch * blocks + k;
            proof {
                assert(0 <= ch * blocks && ch * blocks + k < 3 * blocks) by (nonlinear_arith)
                    requires
                        0 <= ch < 3,
                        0 <= k < blocks,
                ;
                lemma_fundamental_div_mod_converse(g, blocks as int, ch as int, k as int);
                assert(coeffs_at(_ll@, lh@, _hl@, _hh@, k as int) == forward(
                    block_at(raw@, tw as int, ch as int, k as int),
                ));
            }
            bits.push(low_bit(lh[k]));
            k = k + 1;
        }
        proof {
            assert((ch + 1) * blocks == ch * blocks + blocks) by (nonlinear_arith);
        }
        ch = ch + 1;
    }
    proof {
        assert(bits@ =~= want);
    }
    search_frame(bits.as_slice())
}

/// The left or top edge of the tile that holds coordinate `v`.
pub open spec fn tile_origin(v: int) -> int {
    v - v % 256
}

/// The width or height of the tile that starts at `t` in an image of size
/// `n`: 256, or what is left of the image.
pub open spec fn tile_extent(n: int, t: int) -> int {
    if n - t < 256 {
        n - t
    } else {
        256
    }
}

/// Whether the tile grid can carry `nbits` bits. The first tile is the
/// largest, so the grid has a tile with room exactly when the first has.
pub open spec fn tiles_fit(w: int, h: int, nbits: int) -> bool {
    tile_capacity(tile_extent(w, 0), tile_extent(h, 0)) >= nbits
}

/// The sample at position `p` after the frame went into every tile of the
/// grid that can hold it.
pub open spec fn tiled_sample(img: Image, frame: Seq<u8>, p: int) -> u8 {
    let x = column_of(img.width, 4, p);
    let y = row_of(img.width, 4, p);
    let tx = tile_origin(x);
    let ty = tile_origin(y);
    let tw = tile_extent(img.width, tx);
    let th = tile_extent(img.height, ty);
    if tile_capacity(tw, th) >= 8 * frame.len() {
        embed_tile(img.cropped(tx, ty, tw, th).pixels, tw, th, frame)[sample_index(
            tw,
            4,
            x - tx,
            y - ty,
            p % 4,
        )]
    } else {
        img.pixels[p]
    }
}

/// The samples of an image after the frame went into every tile that can
/// hold it.
pub open spec fn embed_tiled(img: Image, frame: Seq<u8>) -> Seq<u8> {
    Seq::new(img.pixels.len(), |p: int| tiled_sample(img, frame, p))
}

/// Embedding a payload in an image of even size. The framed payload goes
/// into every tile of the 256x256 grid that can hold it; when no tile can,
/// the whole image serves as one tile. Fails with `TooSmall` under 2x2 and
/// with `TooLarge` when the payload exceeds the length field or the image.
pub open spec fn embed_image(img: Image, payload: Seq<u8>) -> Result<Image, StegError> {
    let nbits = 8 * wrap(payload).len();
    if img.width < 2 || img.height < 2 {
        Err(StegError::TooSmall)
    } else if payload.len() > u32::MAX {
        Err(StegError::TooLarge)
    } else if tiles_fit(img.width, img.height, nbits as int) {
        Ok(with_pixels(img, embed_tiled(img, wrap(payload))))
    } else if tile_capacity(img.width, img.height) >= nbits {
        Ok(with_pixels(img, embed_tile(img.pixels, img.width, img.height, wrap(payload))))
    } else {
        Err(StegError::TooLarge)
    }
}

/// `img` cropped to even width and height.
pub open spec fn even_cropped(img: Image) -> Image {
    img.cropped(0, 0, even_size(img.width), even_size(img.height))
}

/// Encoding a payload into a cover: the cover is cropped to even size and
/// the payload embedded.
pub open spec fn encode_image(cover: Image, payload: Seq<u8>) -> Result<Image, StegError> {
    embed_image(even_cropped(cover), payload)
}

/// Number of window positions along a side of length `n`, windows being 256
/// wide and 128 apart.
pub open spec fn window_count(n: int) -> int {
    (n - 256) / 128 + 1
}

/// The first frame found in the windows numbered `t` and up, windows taken
/// row by row.
pub open spec fn scan_windows(img: Image, t: int) -> Option<Seq<u8>>
    decreases window_count(img.width) * window_count(img.height) - t,
{
    let cols = window_count(img.width);
    let rows = window_count(img.height);
    if t < 0 || cols <= 0 || t >= cols * rows {
        None
    } else {
        match decode_tile(img.cropped(128 * (t % cols), 128 * (t / cols), 256, 256).pixels, 256, 256) {
            Ok(body) => Some(body),
            Err(_) => scan_windows(img, t + 1),
        }
    }
}

/// Extracting a payload from an image of even size: the whole image is read
/// as one tile first; failing that, and if the image is at least 256x256,
/// each window in turn.
pub open spec fn extract_image(img: Image) -> Result<Seq<u8>, StegError> {
    if img.width < 2 || img.height < 2 {
        Err(StegError::TooSmall)
    } else {
        match decode_tile(img.pixels, img.width, img.height) {
            Ok(body) => Ok(body),
            Err(_) => if img.width >= 256 && img.height >= 256 {
                match scan_windows(img, 0) {
                    Some(body) => Ok(body),
                    None => Err(StegError::NotFound),
                }
            } else {
                Err(StegError::NotFound)
            },
        }
    }
}

/// Decoding an image: crop to even size, then extract.
pub open spec fn decode_image(img: Image) -> Result<Seq<u8>, StegError> {
    extract_image(even_cropped(img))
}

/// No tile of the grid carries more than the first.
pub proof fn lemma_first_tile_is_largest(w: int, h: int, tx: int, ty: int)
    requires
        0 <= tx < w,
        0 <= ty < h,
    ensures
        tile_capacity(tile_extent(w, tx), tile_extent(h, ty)) <= tile_capacity(
            tile_extent(w, 0),
            tile_extent(h, 0),
        ),
{
    let a = tile_extent(w, tx) / 2;
    let b = tile_extent(h, ty) / 2;
    let c = tile_extent(w, 0) / 2;
    let d = tile_extent(h, 0) / 2;
    assert(a * b <= c * d) by (nonlinear_arith)
        requires
            0 <= a <= c,
            0 <= b <= d,
    ;
}

#[verifier::rlimit(50)]
fn embed_grid(img: &Raster, frame: &[u8]) -> (out: Raster)
    requires
        img.wf(),
        img.channels == 4,
        img.width >= 1,
        img.height >= 1,
    ensures
        out@ == with_pixels(img@, embed_tiled(img@, frame@)),
{
    let w = img.width;
    let h = img.height;
    let mut out = Raster {
        width: w,
        height: h,
        channels: 4,
        pixels: vstd::slice::slice_to_vec(img.pixels.as_slice()),
    };
    let rows: u32 = (h - 1) / 256 + 1;
    let cols: u32 = (w - 1) / 256 + 1;
    let mut r: u32 = 0;
    while r < rows
        invariant
            img.wf(),
            img.channels == 4,
            w == img.width,
            h == img.height,
            w >= 1,
            h >= 1,
            rows == (h - 1) / 256 + 1,
            cols == (w - 1) / 256 + 1,
            r <= rows,
            out.wf(),
            out.width == w,
            out.height == h,
            out.channels == 4,
            forall|p: int|
                0 <= p < out.pixels@.len() ==> #[trigger] out.pixels@[p] == (if row_of(w as int, 4, p)
                    / 256 < r {
                    tiled_sample(img@, frame@, p)
                } else {
                    img.pixels@[p]
                }),
        decreases rows - r,
    {
        let ty: u32 = r * 256;
        let th: u32 = if h - ty < 256 {
            h - ty
        } else {
            256
        };
        let mut c: u32 = 0;
        while c < cols
            invariant
                img.wf(),
                img.channels == 4,
                w == img.width,
                h == img.height,
                w >= 1,
                h >= 1,
                rows == (h - 1) / 256 + 1,
                cols == (w - 1) / 256 + 1,
                r < rows,
                c <= cols,
                ty == r * 256,
                th == tile_extent(h as int, ty as int),
                out.wf(),
                out.width == w,
                out.height == h,
                out.channels == 4,
                forall|p: int|
                    0 <= p < out.pixels@.len() ==> #[trigger] out.pixels@[p] == (if row_of(
                        w as int,
                        4,
                        p,
                    ) / 256 < r || (row_of(w as int, 4, p) / 256 == r && column_of(w as int, 4, p)
                        / 256 < c) {
                        tiled_sample(img@, frame@, p)
                    } else {
                        img.pixels@[p]
                    }),
            decreases cols - c,
        {
            let tx: u32 = c * 256;
            let tw: u32 = if w - tx < 256 {
                w - tx
            } else {
                256
            };
            proof {
                assert((tw / 2) * (th / 2) <= 128 * 128) by (nonlinear_arith)
                    requires
                        0 <= tw / 2 <= 128,
                        0 <= th / 2 <= 128,
                ;
            }
            let capacity: usize = ((tw / 2) as usize) * ((th / 2) as usize) * 3;
            let ghost before = out.pixels@;
            if frame.len() <= capacity / 8 {
                let tile = img.crop(tx, ty, tw, th);
                proof {
                    assert(tile.pixels@.len() == tw * th * 4);
                }
                match embed_in_tile(tile.pixels.as_slice(), tw, th, frame) {
                    Ok(modified) => {
                        let patch = Raster { width: tw, height: th, channels: 4, pixels: modified };
                        out.paste(tx, ty, &patch);
                    },
                    Err(_) => {},
                }
            }
            proof {
                assert forall|p: int| 0 <= p < out.pixels@.len() implies #[trigger] out.pixels@[p]
                    == (if row_of(w as int, 4, p) / 256 < r || (row_of(w as int, 4, p) / 256 == r
                    && column_of(w as int, 4, p) / 256 < c + 1) {
                    tiled_sample(img@, frame@, p)
                } else {
                    img.pixels@[p]
                }) by {
                    lemma_position_in_tile(w as int, h as int, p);
                    let x = column_of(w as int, 4, p);
                    let y = row_of(w as int, 4, p);
                    assert(tile_origin(x) == 256 * (x / 256));
                    assert(tile_origin(y) == 256 * (y / 256));
                    if y / 256 == r && x / 256 == c {
                        assert(tx <= x < tx + tw && ty <= y < ty + th);
                    } else {
                        assert(!(tx <= x < tx + tw && ty <= y < ty + th));
                        assert(out.pixels@[p] == before[p]);
                    }
                }
            }
            c = c + 1;
        }
        proof {
            assert forall|p: int| 0 <= p < out.pixels@.len() implies #[trigger] out.pixels@[p] == (if row_of(
                w as int,
                4,
                p,
            ) / 256 < r + 1 {
                tiled_sample(img@, frame@, p)
            } else {
                img.pixels@[p]
            }) by {
                lemma_position_in_tile(w as int, h as int, p);
            }
        }
        r = r + 1;
    }
    proof {
        assert forall|p: int| 0 <= p < out.pixels@.len() implies out.pixels@[p] == tiled_sample(
            img@,
            frame@,
            p,
        ) by {
            lemma_position_in_tile(w as int, h as int, p);
        }
        assert(out.pixels@ =~= embed_tiled(img@, frame@));
    }
    out
}

/// Encodes a payload into an RGBA cover and returns the stego raster,
/// cropped to even size.
pub fn encode_raster(cover: &Raster, payload: &[u8]) -> (res: Result<Raster, StegError>)
    requires
        cover.wf(),
        cover.channels == 4,
    ensures
        raster_result(res) == encode_image(cover@, payload@),
        res is Ok ==> res->Ok_0.wf(),
{
    let img = ensure_even_dimensions(cover);
    let w = img.width;
    let h = img.height;
    if w < 2 || h < 2 {
        return Err(StegError::TooSmall);
    }
    if payload.len() > 0xffff_ffff {
        return Err(StegError::TooLarge);
    }
    let frame = wrap_payload(payload);
    let first_w: u32 = if w < 256 {
        w
    } else {
        256
    };
    let first_h: u32 = if h < 256 {
        h
    } else {
        256
    };
    proof {
        assert((first_w / 2) * (first_h / 2) <= 128 * 128) by (nonlinear_arith)
            requires
                0 <= first_w / 2 <= 128,
                0 <= first_h / 2 <= 128,
        ;
    }
    let first: usize = ((first_w / 2) as usize) * ((first_h / 2) as usize) * 3;
    if frame.len() <= first / 8 {
        return Ok(embed_grid(&img, frame.as_slice()));
    }
    match embed_in_tile(img.pixels.as_slice(), w, h, frame.as_slice()) {
        Ok(pixels) => Ok(Raster { width: w, height: h, channels: 4, pixels }),
        Err(e) => Err(e),
    }
}

/// Decodes the payload of an RGBA stego raster. The whole image is tried
/// first; a cropped image is then searched window by window.
pub fn decode_raster(image: &Raster) -> (res: Result<Vec<u8>, StegError>)
    requires
        image.wf(),
        image.channels == 4,
    ensures
        bytes_result(res) == decode_image(image@),
{
    let img = ensure_even_dimensions(image);
    let w = img.width;
    let h = img.height;
    if w < 2 || h < 2 {
        return Err(StegError::TooSmall);
    }
    match decode_from_tile(img.pixels.as_slice(), w, h) {
        Ok(body) => {
            return Ok(body);
        },
        Err(_) => {},
    }
    if w < TILE_SIZE || h < TILE_SIZE {
        return Err(StegError::NotFound);
    }
    let cols: u64 = ((w - TILE_SIZE) / DECODE_STEP + 1) as u64;
    let rows: u64 = ((h - TILE_SIZE) / DECODE_STEP + 1) as u64;
    proof {
        assert(cols * rows <= 0x200_0000 * 0x200_0000) by (nonlinear_arith)
            requires
                0 <= cols <= 0x200_0000,
                0 <= rows <= 0x200_0000,
        ;
    }
    let count: u64 = cols * rows;
    let mut t: u64 = 0;
    while t < count
        invariant
            img.wf(),
            img.channels == 4,
            w == img.width,
            h == img.height,
            w >= 256,
            h >= 256,
            cols == window_count(w as int),
            rows == window_count(h as int),
            count == cols * rows,
            t <= count,
            img@ == even_cropped(image@),
            decode_tile(img.pixels@, w as int, h as int) is Err,
            scan_windows(img@, 0) == scan_windows(img@, t as int),
        decreases count - t,
    {
        proof {
            lemma_multiply_divide_lt(t as int, cols as int, rows as int);
        }
        let ox: u32 = DECODE_STEP * ((t % cols) as u32);
        let oy: u32 = DECODE_STEP * ((t / cols) as u32);
        let tile = img.crop(ox, oy, TILE_SIZE, TILE_SIZE);
        match decode_from_tile(tile.pixels.as_slice(), TILE_SIZE, TILE_SIZE) {
            Ok(body) => {
                return Ok(body);
            },
            Err(_) => {},
        }
        t = t + 1;
    }
    Err(StegError::NotFound)
}

/// What encoding an image file gives: the cover is decoded, the payload
/// embedded, and the result written as PNG.
pub open spec fn encode_file(image: Seq<u8>, payload: Seq<u8>) -> Result<Seq<u8>, StegError> {
    match loaded_rgba(image) {
        Err(e) => Err(e),
        Ok(cover) => match encode_image(cover, payload) {
            Err(e) => Err(e),
            Ok(out) => png_file(out),
        },
    }
}

/// What decoding an image file gives.
pub open spec fn decode_file(image: Seq<u8>) -> Result<Seq<u8>, StegError> {
    match loaded_rgba(image) {
        Err(e) => Err(e),
        Ok(img) => decode_image(img),
    }
}

/// Encodes a payload into the image held in `image`, the bytes of an image
/// file, and returns the bytes of a PNG file.
pub fn encode(image: &[u8], payload: &[u8]) -> (res: Result<Vec<u8>, StegError>)
    ensures
        bytes_result(res) == encode_file(image@, payload@),
        res matches Ok(file) ==> is_png(file@),
{
    let cover = match load_rgba(image) {
        Ok(cover) => cover,
        Err(e) => {
            return Err(e);
        },
    };
    let out = match encode_raster(&cover, payload) {
        Ok(out) => out,
        Err(e) => {
            return Err(e);
        },
    };
    save_png(&out)
}

/// Decodes the payload of the image held in `image`, the bytes of an image
/// file.
pub fn decode(image: &[u8]) -> (res: Result<Vec<u8>, StegError>)
    ensures
        bytes_result(res) == decode_file(image@),
{
    match load_rgba(image) {
        Ok(img) => decode_raster(&img),
        Err(e) => Err(e),
    }
}

} // verus!
