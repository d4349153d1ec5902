//! What holds of the wavelet codec: when an embedded frame is read back,
//! from a tile, from a whole image, and from a crop.

use vstd::prelude::*;
use crate::bits::{bit_at, bits_of_bytes};
use crate::error::StegError;
use crate::frame::{lemma_find_frame_at_start, wrap};
use crate::raster::{
    column_of, even_size, lemma_row_bound, lemma_sample_bound, lemma_sample_coords,
    lemma_sample_decompose, row_of, sample_index, with_pixels, Image,
};
use crate::stego::{
    block_at, blocks_per_channel, corner, decode_image, decode_tile, embed_image,
    embed_tile, embed_tiled, embedded_coeffs, embedded_sample, encode_image, even_cropped,
    forward, inverse, lemma_block_positions, lemma_position_in_tile,
    parity, tile_bits, tile_capacity, tile_extent, tile_origin, tiled_sample, tiles_fit,
    with_parity, Block, Coeffs,
};

verus! {

/// Whether the bit written to block `k` of channel `ch` can be read back:
/// the rebuilt samples, transformed again, give an `LH` whose lowest bit is
/// the frame's bit. Limiting rebuilt samples to `0..=255` can break this in
/// blocks near black or white.
pub open spec fn block_keeps_bit(raw: Seq<u8>, w: int, h: int, frame: Seq<u8>, ch: int, k: int) -> bool {
    parity(forward(inverse(embedded_coeffs(raw, w, h, frame, ch, k))).lh) == bit_at(
        frame,
        ch * blocks_per_channel(w, h) + k,
    )
}

/// Whether every bit of the frame can be read back from the tile.
pub open spec fn frame_survives(raw: Seq<u8>, w: int, h: int, frame: Seq<u8>) -> bool {
    forall|ch: int, k: int|
        0 <= ch < 3 && 0 <= k < blocks_per_channel(w, h) && ch * blocks_per_channel(w, h) + k < 8
            * frame.len() ==> #[trigger] block_keeps_bit(raw, w, h, frame, ch, k)
}

/// Whether every colour sample lies in `4..=251`.
pub open spec fn unsaturated(raw: Seq<u8>) -> bool {
    forall|p: int| 0 <= p < raw.len() && p % 4 < 3 ==> 4 <= #[trigger] raw[p] <= 251
}

/// Setting the lowest bit sets the parity.
pub proof fn lemma_parity_of_with_parity(v: int, bit: bool)
    ensures
        parity(with_parity(v, bit)) == bit,
        v - 1 <= with_parity(v, bit) <= v + 1,
{
}

/// In a block whose samples lie in `4..=251` no rebuilt sample is limited,
/// so transforming the rebuilt block gives the written `LH` exactly.
pub proof fn lemma_unsaturated_block(k: Block, bit: bool)
    requires
        4 <= k.a <= 251,
        4 <= k.b <= 251,
        4 <= k.c <= 251,
        4 <= k.d <= 251,
    ensures
        ({
            let q = forward(k);
            let m = Coeffs { ll: q.ll, lh: with_parity(q.lh, bit), hl: q.hl, hh: q.hh };
            forward(inverse(m)).lh == m.lh
        }),
{
    reveal(forward);
    reveal(inverse);
    let q = forward(k);
    let lh = with_parity(q.lh, bit);
    lemma_parity_of_with_parity(q.lh, bit);
    let a = q.ll - lh - q.hl - q.hh;
    let b = q.ll + lh - q.hl + q.hh;
    let c = q.ll - lh + q.hl + q.hh;
    let d = q.ll + lh + q.hl - q.hh;
    assert(k.a - 4 <= a <= k.a + 4);
    assert(k.b - 4 <= b <= k.b + 4);
    assert(k.c - 4 <= c <= k.c + 4);
    assert(k.d - 4 <= d <= k.d + 4);
    assert(b + d - a - c == 4 * lh);
}

/// A tile whose colour samples all lie in `4..=251` keeps every bit of any
/// frame.
pub proof fn lemma_unsaturated_tile_survives(raw: Seq<u8>, w: int, h: int, frame: Seq<u8>)
    requires
        0 <= w,
        0 <= h,
        raw.len() == w * h * 4,
        unsaturated(raw),
    ensures
        frame_survives(raw, w, h, frame),
{
    assert forall|ch: int, k: int|
        0 <= ch < 3 && 0 <= k < blocks_per_channel(w, h) && ch * blocks_per_channel(w, h) + k < 8
            * frame.len() implies #[trigger] block_keeps_bit(raw, w, h, frame, ch, k) by {
        lemma_block_positions(w, h, ch, k);
        let j = k % (w / 2);
        let i = k / (w / 2);
        let pa = sample_index(w, 4, 2 * j + 0, 2 * i + 0, ch);
        let pb = sample_index(w, 4, 2 * j + 1, 2 * i + 0, ch);
        let pc = sample_index(w, 4, 2 * j + 0, 2 * i + 1, ch);
        let pd = sample_index(w, 4, 2 * j + 1, 2 * i + 1, ch);
        assert(4 <= raw[pa] <= 251);
        assert(4 <= raw[pb] <= 251);
        assert(4 <= raw[pc] <= 251);
        assert(4 <= raw[pd] <= 251);
        let g = ch * blocks_per_channel(w, h) + k;
        lemma_unsaturated_block(block_at(raw, w, ch, k), bit_at(frame, g));
        lemma_parity_of_with_parity(forward(block_at(raw, w, ch, k)).lh, bit_at(frame, g));
    }
}

/// The blocks of a tile with a frame embedded are the inverse transforms of
/// the coefficients that carry the frame.
pub proof fn lemma_embedded_block(raw: Seq<u8>, w: int, h: int, frame: Seq<u8>, ch: int, k: int)
    requires
        0 <= w,
        0 <= h,
        raw.len() == w * h * 4,
        0 <= ch < 3,
        0 <= k < blocks_per_channel(w, h),
    ensures
        block_at(embed_tile(raw, w, h, frame), w, ch, k) == inverse(
            embedded_coeffs(raw, w, h, frame, ch, k),
        ),
{
    lemma_block_positions(w, h, ch, k);
    let j = k % (w / 2);
    let i = k / (w / 2);
    let pa = sample_index(w, 4, 2 * j + 0, 2 * i + 0, ch);
    let pb = sample_index(w, 4, 2 * j + 1, 2 * i + 0, ch);
    let pc = sample_index(w, 4, 2 * j + 0, 2 * i + 1, ch);
    let pd = sample_index(w, 4, 2 * j + 1, 2 * i + 1, ch);
    reveal(inverse);
    let out = embed_tile(raw, w, h, frame);
    let blk = inverse(embedded_coeffs(raw, w, h, frame, ch, k));
    assert(out[pa] == embedded_sample(raw, w, h, frame, pa));
    assert(out[pb] == embedded_sample(raw, w, h, frame, pb));
    assert(out[pc] == embedded_sample(raw, w, h, frame, pc));
    assert(out[pd] == embedded_sample(raw, w, h, frame, pd));
    assert(corner(blk, 2 * j + 0, 2 * i + 0) == blk.a);
    assert(corner(blk, 2 * j + 1, 2 * i + 0) == blk.b);
    assert(corner(blk, 2 * j + 0, 2 * i + 1) == blk.c);
    assert(corner(blk, 2 * j + 1, 2 * i + 1) == blk.d);
}

/// A frame embedded in a tile is read back from it, if the tile has room
/// for the frame and keeps every bit of it.
#[verifier::rlimit(50)]
pub proof fn lemma_tile_round_trip(raw: Seq<u8>, w: int, h: int, payload: Seq<u8>)
    requires
        0 <= w,
        0 <= h,
        raw.len() == w * h * 4,
        payload.len() <= u32::MAX,
        8 * wrap(payload).len() <= tile_capacity(w, h),
        frame_survives(raw, w, h, wrap(payload)),
    ensures
        decode_tile(embed_tile(raw, w, h, wrap(payload)), w, h) == Ok::<Seq<u8>, StegError>(payload),
{
    let frame = wrap(payload);
    let out = embed_tile(raw, w, h, frame);
    let bits = tile_bits(out, w, h);
    let n = blocks_per_channel(w, h);
    assert(frame.len() == 11 + payload.len());
    assert(n > 0);
    assert(w >= 2 && h >= 2) by (nonlinear_arith)
        requires
            (w / 2) * (h / 2) > 0,
            0 <= w,
            0 <= h,
    ;
    let head = bits.subrange(0, 8 * frame.len() as int);
    assert forall|g: int| 0 <= g < 8 * frame.len() implies head[g] == bits_of_bytes(frame)[g] by {
        let ch = g / n;
        let k = g % n;
        vstd::arithmetic::div_mod::lemma_fundamental_div_mod(g, n);
        vstd::arithmetic::div_mod::lemma_multiply_divide_lt(g, n, 3);
        assert(ch >= 0) by (nonlinear_arith)
            requires
                g >= 0,
                n > 0,
                ch == g / n,
        ;
        assert(n * ch == ch * n) by (nonlinear_arith);
        lemma_embedded_block(raw, w, h, frame, ch, k);
        assert(block_keeps_bit(raw, w, h, frame, ch, k));
    }
    assert(head =~= bits_of_bytes(frame));
    lemma_find_frame_at_start(bits, payload);
}

/// Cropping an image to its own size changes nothing.
pub proof fn lemma_crop_whole(img: Image)
    requires
        img.wf(),
    ensures
        img.cropped(0, 0, img.width, img.height) == img,
{
    let c = img.cropped(0, 0, img.width, img.height);
    assert forall|q: int| 0 <= q < img.pixels.len() implies c.pixels[q] == img.pixels[q] by {
        assert(0 < img.width) by (nonlinear_arith)
            requires
                0 <= q < img.width * img.height * img.channels,
                0 <= img.width,
                0 <= img.height,
                0 <= img.channels,
        ;
        lemma_sample_decompose(img.width, img.channels, q);
    }
    assert(c.pixels =~= img.pixels);
}

/// Cropping a well-formed image to even size gives a well-formed image of
/// that size.
pub proof fn lemma_even_cropped(cover: Image)
    requires
        cover.wf(),
    ensures
        even_cropped(cover).wf(),
        even_cropped(cover).width == even_size(cover.width),
        even_cropped(cover).height == even_size(cover.height),
        even_cropped(cover).channels == cover.channels,
        even_size(even_size(cover.width)) == even_size(cover.width),
        even_size(even_size(cover.height)) == even_size(cover.height),
{
    let w = even_size(cover.width);
    let h = even_size(cover.height);
    assert(w * h * cover.channels >= 0) by (nonlinear_arith)
        requires
            0 <= w,
            0 <= h,
            0 <= cover.channels,
    ;
}

/// In an image of at most one tile, embedding into the grid is embedding
/// into the whole image.
pub proof fn lemma_single_tile_grid(img: Image, frame: Seq<u8>)
    requires
        img.wf(),
        img.channels == 4,
        img.width <= 256,
        img.height <= 256,
        8 * frame.len() <= tile_capacity(img.width, img.height),
    ensures
        embed_tiled(img, frame) == embed_tile(img.pixels, img.width, img.height, frame),
{
    let w = img.width;
    let h = img.height;
    lemma_crop_whole(img);
    assert forall|p: int| 0 <= p < img.pixels.len() implies tiled_sample(img, frame, p)
        == embed_tile(img.pixels, w, h, frame)[p] by {
        lemma_position_in_tile(w, h, p);
        lemma_sample_decompose(w, 4, p);
        let x = column_of(w, 4, p);
        let y = row_of(w, 4, p);
        assert(tile_origin(x) == 0);
        assert(tile_origin(y) == 0);
        assert(tile_extent(w, 0) == w);
        assert(tile_extent(h, 0) == h);
        assert(sample_index(w, 4, x - 0, y - 0, p % 4) == p);
    }
    assert(embed_tiled(img, frame) =~= embed_tile(img.pixels, w, h, frame));
}

/// A sample of a full tile of the grid, after embedding tile by tile, is
/// the sample of that tile of the cover with the frame embedded.
pub proof fn lemma_cut_sample(img: Image, frame: Seq<u8>, tx: int, ty: int, cx: int, cy: int, ch: int)
    requires
        img.wf(),
        img.channels == 4,
        0 <= tx,
        0 <= ty,
        tx % 256 == 0,
        ty % 256 == 0,
        tx + 256 <= img.width,
        ty + 256 <= img.height,
        8 * frame.len() <= tile_capacity(256, 256),
        0 <= cx < 256,
        0 <= cy < 256,
        0 <= ch < 4,
    ensures
        tiled_sample(img, frame, sample_index(img.width, 4, tx + cx, ty + cy, ch)) == embed_tile(
            img.cropped(tx, ty, 256, 256).pixels,
            256,
            256,
            frame,
        )[sample_index(256, 4, cx, cy, ch)],
{
    let w = img.width;
    let h = img.height;
    let x = tx + cx;
    let y = ty + cy;
    let p = sample_index(w, 4, x, y, ch);
    lemma_sample_coords(w, 4, x, y, ch);
    assert(tile_origin(x) == tx);
    assert(tile_origin(y) == ty);
    assert(tile_extent(w, tx) == 256);
    assert(tile_extent(h, ty) == 256);
}

/// A full tile cut out of an image embedded tile by tile is that tile of
/// the cover with the frame embedded.
#[verifier::rlimit(50)]
pub proof fn lemma_cut_tile(img: Image, frame: Seq<u8>, tx: int, ty: int)
    requires
        img.wf(),
        img.channels == 4,
        0 <= tx,
        0 <= ty,
        tx % 256 == 0,
        ty % 256 == 0,
        tx + 256 <= img.width,
        ty + 256 <= img.height,
        8 * frame.len() <= tile_capacity(256, 256),
    ensures
        with_pixels(img, embed_tiled(img, frame)).cropped(tx, ty, 256, 256).pixels == embed_tile(
            img.cropped(tx, ty, 256, 256).pixels,
            256,
            256,
            frame,
        ),
{
    let w = img.width;
    let h = img.height;
    let out = with_pixels(img, embed_tiled(img, frame));
    let cut = out.cropped(tx, ty, 256, 256).pixels;
    let want = embed_tile(img.cropped(tx, ty, 256, 256).pixels, 256, 256, frame);
    assert(cut.len() == 256 * 256 * 4);
    assert(want.len() == 256 * 256 * 4);
    assert forall|q: int| 0 <= q < 256 * 256 * 4 implies cut[q] == want[q] by {
        lemma_sample_decompose(256, 4, q);
        lemma_row_bound(256, 256, 4, q);
        let cx = column_of(256, 4, q);
        let cy = row_of(256, 4, q);
        let p = sample_index(w, 4, tx + cx, ty + cy, q % 4);
        lemma_sample_bound(w, h, 4, tx + cx, ty + cy, q % 4);
        assert(cut[q] == out.pixels[p]);
        assert(out.pixels[p] == tiled_sample(img, frame, p));
        lemma_cut_sample(img, frame, tx, ty, cx, cy, q % 4);
    }
    assert(cut =~= want);
}

/// What embedding gives for an image with room in its first tile.
pub proof fn lemma_embed_in_grid(img: Image, payload: Seq<u8>)
    requires
        img.wf(),
        img.channels == 4,
        payload.len() <= u32::MAX,
        8 * wrap(payload).len() <= tile_capacity(tile_extent(img.width, 0), tile_extent(img.height, 0)),
    ensures
        embed_image(img, payload) == Ok::<Image, StegError>(
            with_pixels(img, embed_tiled(img, wrap(payload))),
        ),
{
    let a = tile_extent(img.width, 0);
    let b = tile_extent(img.height, 0);
    assert(wrap(payload).len() == 11 + payload.len());
    assert((a / 2) * (b / 2) > 0);
    assert(a >= 2 && b >= 2) by (nonlinear_arith)
        requires
            (a / 2) * (b / 2) > 0,
            0 <= a,
            0 <= b,
    ;
}

/// Extracting from a well-formed even-sized image whose whole-image read
/// succeeds gives what that read gives.
pub proof fn lemma_extract_whole(img: Image, body: Seq<u8>)
    requires
        img.wf(),
        img.width % 2 == 0,
        img.height % 2 == 0,
        decode_tile(img.pixels, img.width, img.height) == Ok::<Seq<u8>, StegError>(body),
    ensures
        decode_image(img) == Ok::<Seq<u8>, StegError>(body),
{
    lemma_crop_whole(img);
    assert(even_size(img.width) == img.width);
    assert(even_size(img.height) == img.height);
    assert(even_cropped(img) == img);
}

/// Round trip through a cover of at most one tile. If the cover, cropped to
/// even size, is no larger than 256x256, has room for the framed payload and
/// keeps every bit of it, then decoding the encoded image gives the payload.
#[verifier::rlimit(50)]
pub proof fn lemma_round_trip_single_tile(cover: Image, payload: Seq<u8>)
    requires
        cover.wf(),
        cover.channels == 4,
        payload.len() <= u32::MAX,
        even_size(cover.width) <= 256,
        even_size(cover.height) <= 256,
        8 * wrap(payload).len() <= tile_capacity(even_size(cover.width), even_size(cover.height)),
        frame_survives(
            even_cropped(cover).pixels,
            even_size(cover.width),
            even_size(cover.height),
            wrap(payload),
        ),
    ensures
        encode_image(cover, payload) is Ok,
        decode_image(encode_image(cover, payload)->Ok_0) == Ok::<Seq<u8>, StegError>(payload),
{
    let img = even_cropped(cover);
    let w = even_size(cover.width);
    let h = even_size(cover.height);
    let frame = wrap(payload);
    lemma_even_cropped(cover);
    assert(tile_extent(w, 0) == w && tile_extent(h, 0) == h);
    lemma_embed_in_grid(img, payload);
    lemma_single_tile_grid(img, frame);
    let out = with_pixels(img, embed_tile(img.pixels, w, h, frame));
    assert(encode_image(cover, payload) == Ok::<Image, StegError>(out));
    lemma_tile_round_trip(img.pixels, w, h, payload);
    assert(w % 2 == 0 && h % 2 == 0) by {
        assert(blocks_per_channel(w, h) > 0);
        assert(w >= 2 && h >= 2) by (nonlinear_arith)
            requires
                (w / 2) * (h / 2) > 0,
                0 <= w,
                0 <= h,
        ;
    }
    lemma_extract_whole(out, payload);
}

/// Crop survival. Take any cover whose tiles have room for the framed
/// payload, encode, and cut out a full 256x256 tile of the grid. If that
/// tile of the cover keeps every bit of the frame, decoding the cut-out
/// gives the payload.
#[verifier::rlimit(50)]
pub proof fn lemma_crop_survival(cover: Image, payload: Seq<u8>, tx: int, ty: int)
    requires
        cover.wf(),
        cover.channels == 4,
        payload.len() <= u32::MAX,
        0 <= tx,
        0 <= ty,
        tx % 256 == 0,
        ty % 256 == 0,
        tx + 256 <= even_size(cover.width),
        ty + 256 <= even_size(cover.height),
        8 * wrap(payload).len() <= tile_capacity(256, 256),
        frame_survives(even_cropped(cover).cropped(tx, ty, 256, 256).pixels, 256, 256, wrap(payload)),
    ensures
        encode_image(cover, payload) is Ok,
        decode_image(encode_image(cover, payload)->Ok_0.cropped(tx, ty, 256, 256)) == Ok::<
            Seq<u8>,
            StegError,
        >(payload),
{
    let img = even_cropped(cover);
    let frame = wrap(payload);
    lemma_even_cropped(cover);
    assert(tile_extent(img.width, 0) == 256 && tile_extent(img.height, 0) == 256);
    lemma_embed_in_grid(img, payload);
    let out = with_pixels(img, embed_tiled(img, frame));
    assert(encode_image(cover, payload) == Ok::<Image, StegError>(out));
    lemma_cut_tile(img, frame, tx, ty);
    let cut = out.cropped(tx, ty, 256, 256);
    let tile = img.cropped(tx, ty, 256, 256);
    assert(cut.wf());
    lemma_tile_round_trip(tile.pixels, 256, 256, payload);
    lemma_extract_whole(cut, payload);
}

/// Round trip through the whole image as one tile. If no tile of the grid
/// has room for the framed payload but the image as a whole has, and the
/// image keeps every bit of the frame, then decoding the encoded image
/// gives the payload.
#[verifier::rlimit(50)]
pub proof fn lemma_round_trip_whole_image(cover: Image, payload: Seq<u8>)
    requires
        cover.wf(),
        cover.channels == 4,
        payload.len() <= u32::MAX,
        !tiles_fit(even_size(cover.width), even_size(cover.height), 8 * wrap(payload).len() as int),
        8 * wrap(payload).len() <= tile_capacity(even_size(cover.width), even_size(cover.height)),
        frame_survives(
            even_cropped(cover).pixels,
            even_size(cover.width),
            even_size(cover.height),
            wrap(payload),
        ),
    ensures
        encode_image(cover, payload) is Ok,
        decode_image(encode_image(cover, payload)->Ok_0) == Ok::<Seq<u8>, StegError>(payload),
{
    let img = even_cropped(cover);
    let w = even_size(cover.width);
    let h = even_size(cover.height);
    let frame = wrap(payload);
    lemma_even_cropped(cover);
    assert(frame.len() == 11 + payload.len());
    assert(w >= 2 && h >= 2 && w % 2 == 0 && h % 2 == 0) by {
        assert(blocks_per_channel(w, h) > 0);
        assert(w >= 2 && h >= 2) by (nonlinear_arith)
            requires
                (w / 2) * (h / 2) > 0,
                0 <= w,
                0 <= h,
        ;
    }
    let out = with_pixels(img, embed_tile(img.pixels, w, h, frame));
    assert(encode_image(cover, payload) == Ok::<Image, StegError>(out));
    lemma_tile_round_trip(img.pixels, w, h, payload);
    lemma_extract_whole(out, payload);
}

/// How many bits of the first tile the read of the whole image sees in one
/// run: all blocks of the tile's first channel where the image is one tile
/// wide, the first row of blocks where it is wider.
pub open spec fn first_run(w: int, h: int) -> int {
    if w <= 256 {
        blocks_per_channel(tile_extent(w, 0), tile_extent(h, 0))
    } else {
        128
    }
}

/// A red sample of the first tile, after embedding tile by tile, is the
/// sample of the first tile with the frame embedded.
pub proof fn lemma_first_tile_sample(img: Image, frame: Seq<u8>, x: int, y: int)
    requires
        img.wf(),
        img.channels == 4,
        8 * frame.len() <= tile_capacity(tile_extent(img.width, 0), tile_extent(img.height, 0)),
        0 <= x < tile_extent(img.width, 0),
        0 <= y < tile_extent(img.height, 0),
    ensures
        embed_tiled(img, frame)[sample_index(img.width, 4, x, y, 0)] == embed_tile(
            img.cropped(0, 0, tile_extent(img.width, 0), tile_extent(img.height, 0)).pixels,
            tile_extent(img.width, 0),
            tile_extent(img.height, 0),
            frame,
        )[sample_index(tile_extent(img.width, 0), 4, x, y, 0)],
{
    let w = img.width;
    let h = img.height;
    let p = sample_index(w, 4, x, y, 0);
    lemma_sample_bound(w, h, 4, x, y, 0);
    lemma_sample_coords(w, 4, x, y, 0);
    assert(embed_tiled(img, frame)[p] == tiled_sample(img, frame, p));
    assert(tile_origin(x) == 0);
    assert(tile_origin(y) == 0);
}

/// Within the first run, a block of the image embedded tile by tile is the
/// block of the first tile with the frame embedded.
pub proof fn lemma_first_run_block(img: Image, frame: Seq<u8>, k: int)
    requires
        img.wf(),
        img.channels == 4,
        img.width % 2 == 0,
        img.height % 2 == 0,
        img.width >= 2,
        img.height >= 2,
        8 * frame.len() <= tile_capacity(tile_extent(img.width, 0), tile_extent(img.height, 0)),
        0 <= k < first_run(img.width, img.height),
    ensures
        0 <= k < blocks_per_channel(img.width, img.height),
        0 <= k < blocks_per_channel(tile_extent(img.width, 0), tile_extent(img.height, 0)),
        block_at(embed_tiled(img, frame), img.width, 0, k) == block_at(
            embed_tile(
                img.cropped(0, 0, tile_extent(img.width, 0), tile_extent(img.height, 0)).pixels,
                tile_extent(img.width, 0),
                tile_extent(img.height, 0),
                frame,
            ),
            tile_extent(img.width, 0),
            0,
            k,
        ),
{
    let w = img.width;
    let h = img.height;
    let tw = tile_extent(w, 0);
    let th = tile_extent(h, 0);
    let out = embed_tiled(img, frame);
    let tile = embed_tile(img.cropped(0, 0, tw, th).pixels, tw, th, frame);
    assert(tw >= 2 && th >= 2);
    assert((tw / 2) * (th / 2) <= (w / 2) * (h / 2)) by (nonlinear_arith)
        requires
            0 <= tw / 2 <= w / 2,
            0 <= th / 2 <= h / 2,
    ;
    assert(k < blocks_per_channel(tw, th)) by {
        if w > 256 {
            assert(128 * 1 <= (tw / 2) * (th / 2)) by (nonlinear_arith)
                requires
                    tw / 2 == 128,
                    th / 2 >= 1,
            ;
        }
    }
    lemma_block_positions(w, h, 0, k);
    lemma_block_positions(tw, th, 0, k);
    let i = k / (w / 2);
    let j = k % (w / 2);
    assert(i == k / (tw / 2) && j == k % (tw / 2)) by {
        if w > 256 {
            vstd::arithmetic::div_mod::lemma_fundamental_div_mod_converse(k, w / 2, 0, k);
            vstd::arithmetic::div_mod::lemma_fundamental_div_mod_converse(k, tw / 2, 0, k);
        }
    }
    lemma_first_tile_sample(img, frame, 2 * j + 0, 2 * i + 0);
    lemma_first_tile_sample(img, frame, 2 * j + 1, 2 * i + 0);
    lemma_first_tile_sample(img, frame, 2 * j + 0, 2 * i + 1);
    lemma_first_tile_sample(img, frame, 2 * j + 1, 2 * i + 1);
}

/// Round trip through a cover of more than one tile. The image as a whole
/// is read first, and it shows the start of the first tile's frame in one
/// run only as far as `first_run` says. If the framed payload is no longer
/// than that, has room in the first tile, and the first tile keeps every
/// bit of it, then decoding the encoded image gives the payload.
#[verifier::rlimit(50)]
pub proof fn lemma_round_trip_short_frame(cover: Image, payload: Seq<u8>)
    requires
        cover.wf(),
        cover.channels == 4,
        payload.len() <= u32::MAX,
        8 * wrap(payload).len() <= first_run(even_size(cover.width), even_size(cover.height)),
        8 * wrap(payload).len() <= tile_capacity(
            tile_extent(even_size(cover.width), 0),
            tile_extent(even_size(cover.height), 0),
        ),
        frame_survives(
            even_cropped(cover).cropped(
                0,
                0,
                tile_extent(even_size(cover.width), 0),
                tile_extent(even_size(cover.height), 0),
            ).pixels,
            tile_extent(even_size(cover.width), 0),
            tile_extent(even_size(cover.height), 0),
            wrap(payload),
        ),
    ensures
        encode_image(cover, payload) is Ok,
        decode_image(encode_image(cover, payload)->Ok_0) == Ok::<Seq<u8>, StegError>(payload),
{
    let img = even_cropped(cover);
    let w = even_size(cover.width);
    let h = even_size(cover.height);
    let tw = tile_extent(w, 0);
    let th = tile_extent(h, 0);
    let frame = wrap(payload);
    let n = 8 * frame.len();
    lemma_even_cropped(cover);
    assert(frame.len() == 11 + payload.len());
    lemma_embed_in_grid(img, payload);
    let out = with_pixels(img, embed_tiled(img, frame));
    assert(encode_image(cover, payload) == Ok::<Image, StegError>(out));
    assert(w % 2 == 0 && h % 2 == 0 && w >= 2 && h >= 2) by {
        assert((tw / 2) * (th / 2) > 0);
        assert(tw >= 2 && th >= 2) by (nonlinear_arith)
            requires
                (tw / 2) * (th / 2) > 0,
                0 <= tw,
                0 <= th,
        ;
    }
    lemma_first_run_block(img, frame, n - 1);
    let tile = img.cropped(0, 0, tw, th).pixels;
    let bits = tile_bits(out.pixels, w, h);
    let blocks = blocks_per_channel(w, h);
    let head = bits.subrange(0, n as int);
    assert forall|g: int| 0 <= g < n implies head[g] == bits_of_bytes(frame)[g] by {
        lemma_first_run_block(img, frame, g);
        vstd::arithmetic::div_mod::lemma_fundamental_div_mod_converse(g, blocks, 0, g);
        assert(tile.len() == tw * th * 4);
        lemma_embedded_block(tile, tw, th, frame, 0, g);
        assert(block_keeps_bit(tile, tw, th, frame, 0, g));
        assert(0 * blocks_per_channel(tw, th) + g == g);
    }
    assert(head =~= bits_of_bytes(frame));
    assert(bits.len() == 3 * blocks);
    lemma_find_frame_at_start(bits, payload);
    assert(tile_capacity(w, h) >= 88);
    lemma_extract_whole(out, payload);
}

} // verus!
