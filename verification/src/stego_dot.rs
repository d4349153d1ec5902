//! The dot codec. The image is overlaid with a grid of 2x2 cells; two
//! payload bits choose which pixel of a cell is painted black while the
//! other three are painted white. Every symbol is written three times, in
//! cells taken in a fixed pseudo-random order, and read back by vote.

use vstd::prelude::*;
use vstd::arithmetic::div_mod::{lemma_fundamental_div_mod, lemma_multiply_divide_lt};
use crate::bits::{bits_of_bytes, bits_to_bytes, bytes_of_bits, bytes_to_bits};
use crate::error::{bytes_result, StegError};
use crate::frame::{unwrap, unwrap_payload, wrap, wrap_payload};
use crate::raster::{
    column_of, lemma_sample_bound, lemma_sample_coords, lemma_sample_decompose,
    raster_result, row_of, sample_offset, with_pixels, Image, Raster,
};
use crate::image_io::{is_png, load_rgb, loaded_rgb, png_file, save_png};
use crate::stego_dot_proofs::lemma_shuffled_cells;

verus! {

/// Distance between neighbouring cells.
pub const STEP: u32 = 6;

/// Distance of the first cell from the left and the top edge.
pub const OFFSET: u32 = 2;

/// How many cells carry each symbol.
pub const REPEAT: usize = 3;

/// Seed of the generator that orders the cells.
pub const SHUFFLE_SEED: u32 = 42;

/// Bytes the framing adds to a payload: two for the outer length, eleven
/// for the frame header.
pub const OVERHEAD_BYTES: usize = 13;

/// Number of cells along a side of length `n`: anchors 2, 8, 14, ... up to
/// `n - 2`.
pub open spec fn cells_along(n: int) -> int {
    if n < 4 {
        0
    } else {
        (n - 4) / 6 + 1
    }
}

/// Number of cells in a `w` by `h` image.
pub open spec fn cell_count(w: int, h: int) -> int {
    cells_along(w) * cells_along(h)
}

/// The anchor of cell `k`, cells counted row by row.
pub open spec fn cell_anchor(w: int, k: int) -> (u32, u32) {
    ((2 + 6 * (k % cells_along(w))) as u32, (2 + 6 * (k / cells_along(w))) as u32)
}

/// The cell anchors of a `w` by `h` image, row by row.
pub open spec fn cell_grid(w: int, h: int) -> Seq<(u32, u32)> {
    Seq::new(cell_count(w, h) as nat, |k: int| cell_anchor(w, k))
}

/// The next state of the linear congruential generator.
pub open spec fn lcg_next(seed: u32) -> u32 {
    ((seed as int * 1664525 + 1013904223) % 0x1_0000_0000) as u32
}

/// `s` with the items at `i` and `j` exchanged.
pub open spec fn swapped<T>(s: Seq<T>, i: int, j: int) -> Seq<T> {
    s.update(i, s[j]).update(j, s[i])
}

/// The Fisher-Yates shuffle from index `i` down to 1: at each step the
/// generator advances and the item at `i` is exchanged with the one at the
/// generator's state modulo `i + 1`.
pub open spec fn shuffle_from<T>(s: Seq<T>, i: int, seed: u32) -> Seq<T>
    decreases i,
{
    if i <= 0 {
        s
    } else {
        let next = lcg_next(seed);
        shuffle_from(swapped(s, i, (next as int) % (i + 1)), i - 1, next)
    }
}

/// The items in the order in which they are used: the shuffle seeded with
/// 42.
pub open spec fn shuffled<T>(s: Seq<T>) -> Seq<T> {
    shuffle_from(s, s.len() - 1, 42)
}

/// The order in which `n` items are used: at each position the index of the
/// item that goes there.
pub open spec fn use_order(n: nat) -> Seq<int> {
    shuffled(Seq::new(n, |i: int| i))
}

/// The items of `s` at the indices `order`.
pub open spec fn picked<T>(s: Seq<T>, order: Seq<int>) -> Seq<T> {
    Seq::new(order.len(), |k: int| s[order[k]])
}

/// Number of two-bit symbols needed for `nbits` bits.
pub open spec fn symbol_count(nbits: int) -> int {
    (nbits + 1) / 2
}

/// Symbol `s` of a bit string: twice the first bit plus the second, a
/// missing second bit counting as zero.
pub open spec fn symbol_of(bits: Seq<bool>, s: int) -> int {
    (if bits[2 * s] {
        2int
    } else {
        0int
    }) + (if 2 * s + 1 < bits.len() && bits[2 * s + 1] {
        1int
    } else {
        0int
    })
}

/// Column offset inside a cell of the pixel that symbol `idx` selects.
pub open spec fn offset_x(idx: int) -> int {
    idx / 2
}

/// Row offset inside a cell of the pixel that symbol `idx` selects.
pub open spec fn offset_y(idx: int) -> int {
    idx % 2
}

/// The samples with every sample of pixel `(x, y)` set to `v`.
pub open spec fn with_pixel(pixels: Seq<u8>, w: int, x: int, y: int, v: u8) -> Seq<u8> {
    Seq::new(
        pixels.len(),
        |p: int|
            if column_of(w, 3, p) == x && row_of(w, 3, p) == y {
                v
            } else {
                pixels[p]
            },
    )
}

/// The samples with one cell painted: the pixel that `idx` selects black,
/// the other three white.
pub open spec fn paint_cell(pixels: Seq<u8>, w: int, cell: (u32, u32), idx: int) -> Seq<u8> {
    Seq::new(
        pixels.len(),
        |p: int|
            {
                let dx = column_of(w, 3, p) - cell.0;
                let dy = row_of(w, 3, p) - cell.1;
                if 0 <= dx < 2 && 0 <= dy < 2 {
                    if dx == offset_x(idx) && dy == offset_y(idx) {
                        0u8
                    } else {
                        255u8
                    }
                } else {
                    pixels[p]
                }
            },
    )
}

/// The samples after the first `n` cells were painted, cell `m` carrying
/// symbol `m / 3`.
pub open spec fn paint_cells(pixels: Seq<u8>, w: int, cells: Seq<(u32, u32)>, bits: Seq<bool>, n: int) -> Seq<u8>
    decreases n,
{
    if n <= 0 {
        pixels
    } else {
        paint_cell(paint_cells(pixels, w, cells, bits, n - 1), w, cells[n - 1], symbol_of(bits, (n - 1) / 3))
    }
}

/// Writing a bit string into an image. Fails with `TooLarge` when three
/// cells per symbol are more than the image has.
pub open spec fn embed_bits(img: Image, bits: Seq<bool>) -> Result<Image, StegError> {
    let cells = shuffled(cell_grid(img.width, img.height));
    if 3 * symbol_count(bits.len() as int) > cells.len() {
        Err(StegError::TooLarge)
    } else {
        Ok(
            with_pixels(
                img,
                paint_cells(img.pixels, img.width, cells, bits, 3 * symbol_count(bits.len() as int)),
            ),
        )
    }
}

/// The two bytes of `n` in big-endian order.
pub open spec fn be16(n: int) -> Seq<u8> {
    seq![((n / 256) % 256) as u8, (n % 256) as u8]
}

/// The number whose big-endian bytes are the first two of `s`.
pub open spec fn be16_value(s: Seq<u8>) -> int {
    s[0] as int * 256 + s[1] as int
}

/// What is written for a payload: the length of its frame in two bytes,
/// then the frame.
pub open spec fn codeword(payload: Seq<u8>) -> Seq<u8> {
    be16(wrap(payload).len() as int) + wrap(payload)
}

/// Encoding a payload into a cover. Fails with `TooLarge` when the frame is
/// longer than 65535 bytes or needs more cells than the cover has.
pub open spec fn encode_image(cover: Image, payload: Seq<u8>) -> Result<Image, StegError> {
    if 11 + payload.len() > 0xffff {
        Err(StegError::TooLarge)
    } else {
        embed_bits(cover, bits_of_bytes(codeword(payload)))
    }
}

/// The sum of the three samples of pixel `(x, y)`.
pub open spec fn pixel_sum(img: Image, x: int, y: int) -> int {
    img.sample(x, y, 0) as int + img.sample(x, y, 1) as int + img.sample(x, y, 2) as int
}

/// The sum at the pixel of a cell that symbol `idx` selects.
pub open spec fn offset_sum(img: Image, cell: (u32, u32), idx: int) -> int {
    pixel_sum(img, cell.0 + offset_x(idx), cell.1 + offset_y(idx))
}

/// The symbol read from a cell: the first of the four pixels whose sum is
/// the smallest.
pub open spec fn darkest(img: Image, cell: (u32, u32)) -> int {
    let s0 = offset_sum(img, cell, 0);
    let s1 = offset_sum(img, cell, 1);
    let s2 = offset_sum(img, cell, 2);
    let s3 = offset_sum(img, cell, 3);
    let i1 = if s1 < s0 {
        1int
    } else {
        0int
    };
    let v1 = if s1 < s0 {
        s1
    } else {
        s0
    };
    let i2 = if s2 < v1 {
        2int
    } else {
        i1
    };
    let v2 = if s2 < v1 {
        s2
    } else {
        v1
    };
    if s3 < v2 {
        3int
    } else {
        i2
    }
}

/// The symbols read from the cells, one per cell.
pub open spec fn read_symbols(img: Image, cells: Seq<(u32, u32)>) -> Seq<int> {
    Seq::new(cells.len(), |n: int| darkest(img, cells[n]))
}

/// How many of the three symbols of group `g` are `v`.
pub open spec fn votes(symbols: Seq<int>, g: int, v: int) -> int {
    (if symbols[3 * g] == v {
        1int
    } else {
        0int
    }) + (if symbols[3 * g + 1] == v {
        1int
    } else {
        0int
    }) + (if symbols[3 * g + 2] == v {
        1int
    } else {
        0int
    })
}

/// The symbol of group `g`: the one that most of its three cells read as,
/// the lowest such symbol on a tie.
pub open spec fn elected(symbols: Seq<int>, g: int) -> int {
    let n0 = votes(symbols, g, 0);
    let n1 = votes(symbols, g, 1);
    let n2 = votes(symbols, g, 2);
    let n3 = votes(symbols, g, 3);
    let i1 = if n1 > n0 {
        1int
    } else {
        0int
    };
    let c1 = if n1 > n0 {
        n1
    } else {
        n0
    };
    let i2 = if n2 > c1 {
        2int
    } else {
        i1
    };
    let c2 = if n2 > c1 {
        n2
    } else {
        c1
    };
    if n3 > c2 {
        3int
    } else {
        i2
    }
}

/// The bits that the symbols vote for: two per group of three symbols, the
/// high bit of the elected symbol first.
pub open spec fn voted_bits(symbols: Seq<int>) -> Seq<bool> {
    Seq::new(
        (2 * (symbols.len() / 3)) as nat,
        |t: int|
            if t % 2 == 0 {
                elected(symbols, t / 2) / 2 == 1
            } else {
                elected(symbols, t / 2) % 2 == 1
            },
    )
}

/// The bits read from an image.
pub open spec fn decoded_bits(img: Image, cells: Seq<(u32, u32)>) -> Seq<bool> {
    voted_bits(read_symbols(img, cells))
}

/// Parsing the bits read from an image: the first 16 bits give the length
/// of the frame that follows. Fails with `TooSmall` under 16 bits, with
/// `LenMismatch` when the length runs past the bits, and as unwrapping the
/// frame fails.
pub open spec fn parse_bits(bits: Seq<bool>) -> Result<Seq<u8>, StegError> {
    if bits.len() < 16 {
        Err(StegError::TooSmall)
    } else {
        let c = be16_value(bytes_of_bits(bits.subrange(0, 16)));
        if bits.len() < 8 * (2 + c) {
            Err(StegError::LenMismatch)
        } else {
            unwrap(bytes_of_bits(bits.subrange(0, 8 * (2 + c))).subrange(2, 2 + c))
        }
    }
}

/// Reading a payload from an image. Fails with `TooSmall` when the image
/// has no cells, and as parsing the bits read fails.
pub open spec fn decode_image(img: Image) -> Result<Seq<u8>, StegError> {
    let cells = shuffled(cell_grid(img.width, img.height));
    if cells.len() == 0 {
        Err(StegError::TooSmall)
    } else {
        parse_bits(decoded_bits(img, cells))
    }
}

/// The largest payload, in bytes, that an image can carry: two bits per
/// three cells, less the framing, and zero when even the framing does not
/// fit.
pub open spec fn capacity_bytes(w: int, h: int) -> int {
    let whole = ((2 * cell_count(w, h)) / 3) / 8;
    if whole < 13 {
        0
    } else {
        whole - 13
    }
}

/// The grid has no more cells than the image has pixels, and each cell
/// lies inside the image.
pub proof fn lemma_grid_bounds(w: int, h: int)
    requires
        0 <= w <= u32::MAX,
        0 <= h <= u32::MAX,
    ensures
        0 <= cell_count(w, h) <= w * h,
        cell_grid(w, h).len() == cell_count(w, h),
        forall|k: int|
            0 <= k < cell_count(w, h) ==> {
                let cell = #[trigger] cell_grid(w, h)[k];
                &&& cell.0 as int == 2 + 6 * (k % cells_along(w))
                &&& cell.1 as int == 2 + 6 * (k / cells_along(w))
                &&& 2 <= cell.0 && cell.0 + 2 <= w
                &&& 2 <= cell.1 && cell.1 + 2 <= h
                &&& cell.0 % 6 == 2
                &&& cell.1 % 6 == 2
            },
{
    let nx = cells_along(w);
    let ny = cells_along(h);
    assert(0 <= nx * ny <= w * h) by (nonlinear_arith)
        requires
            0 <= nx <= w,
            0 <= ny <= h,
    ;
    assert forall|k: int| 0 <= k < cell_count(w, h) implies {
        let cell = #[trigger] cell_grid(w, h)[k];
        &&& cell.0 as int == 2 + 6 * (k % nx)
        &&& cell.1 as int == 2 + 6 * (k / nx)
        &&& 2 <= cell.0 && cell.0 + 2 <= w
        &&& 2 <= cell.1 && cell.1 + 2 <= h
        &&& cell.0 % 6 == 2
        &&& cell.1 % 6 == 2
    } by {
        assert(nx > 0) by (nonlinear_arith)
            requires
                0 <= k < nx * ny,
                0 <= nx,
        ;
        lemma_fundamental_div_mod(k, nx);
        lemma_multiply_divide_lt(k, nx, ny);
        assert(k / nx >= 0) by (nonlinear_arith)
            requires
                k >= 0,
                nx > 0,
        ;
    }
}

/// Lists the cell anchors of an image, row by row.
pub fn cell_positions(width: u32, height: u32) -> (out: Vec<(u32, u32)>)
    requires
        cell_count(width as int, height as int) <= usize::MAX,
    ensures
        out@ == cell_grid(width as int, height as int),
{
    let mut out: Vec<(u32, u32)> = Vec::new();
    if width < OFFSET + 2 || height < OFFSET + 2 {
        proof {
            assert(cell_count(width as int, height as int) == 0) by (nonlinear_arith)
                requires
                    cells_along(width as int) == 0 || cells_along(height as int) == 0,
                    cell_count(width as int, height as int) == cells_along(width as int)
                        * cells_along(height as int),
            ;
            assert(out@ =~= cell_grid(width as int, height as int));
        }
        return out;
    }
    let nx: usize = ((width - OFFSET - 2) / STEP + 1) as usize;
    let ny: usize = ((height - OFFSET - 2) / STEP + 1) as usize;
    let count: usize = nx * ny;
    proof {
        lemma_grid_bounds(width as int, height as int);
    }
    let mut k: usize = 0;
    while k < count
        invariant
            nx == cells_along(width as int),
            ny == cells_along(height as int),
            count == nx * ny,
            count == cell_count(width as int, height as int),
            k <= count,
            out@.len() == k,
            forall|t: int| 0 <= t < k ==> out@[t] == cell_grid(width as int, height as int)[t],
            forall|t: int|
                0 <= t < count ==> {
                    let cell = #[trigger] cell_grid(width as int, height as int)[t];
                    &&& cell.0 as int == 2 + 6 * (t % (nx as int))
                    &&& cell.1 as int == 2 + 6 * (t / (nx as int))
                    &&& cell.0 + 2 <= width
                    &&& cell.1 + 2 <= height
                },
        decreases count - k,
    {
        proof {
            let cell = cell_grid(width as int, height as int)[k as int];
            assert(cell.0 + 2 <= width);
        }
        let x: u32 = OFFSET + STEP * ((k % nx) as u32);
        let y: u32 = OFFSET + STEP * ((k / nx) as u32);
        out.push((x, y));
        k = k + 1;
    }
    proof {
        assert(out@ =~= cell_grid(width as int, height as int));
    }
    out
}

fn lcg_step(seed: u32) -> (next: u32)
    ensures
        next == lcg_next(seed),
{
    seed.wrapping_mul(1_664_525).wrapping_add(1_013_904_223)
}

/// Puts the cells into the order in which they are used. Encoder and
/// decoder get the same order for the same number of cells.
pub fn shuffle_positions(positions: Vec<(u32, u32)>) -> (out: Vec<(u32, u32)>)
    ensures
        out@ == shuffled(positions@),
{
    let mut positions = positions;
    if positions.len() <= 1 {
        return positions;
    }
    let ghost start = positions@;
    let mut seed: u32 = SHUFFLE_SEED;
    let count: usize = positions.len();
    let mut i: usize = count - 1;
    while i > 0
        invariant
            i < count,
            positions@.len() == count,
            shuffled(start) == shuffle_from(positions@, i as int, seed),
        decreases i,
    {
        let ghost before = positions@;
        let ghost old_seed = seed;
        seed = lcg_step(seed);
        let j: usize = (seed as usize) % (i + 1);
        let a = positions[i];
        let b = positions[j];
        positions[i] = b;
        positions[j] = a;
        proof {
            assert(positions@ =~= swapped(before, i as int, j as int));
            assert(shuffle_from(before, i as int, old_seed) == shuffle_from(
                swapped(before, i as int, (lcg_next(old_seed) as int) % (i + 1)),
                i - 1,
                lcg_next(old_seed),
            ));
        }
        i = i - 1;
    }
    positions
}

/// The largest payload, in bytes, that the image can carry.
pub fn max_payload_bytes_for_image(img: &Raster) -> (n: usize)
    requires
        img.wf(),
    ensures
        n == capacity_bytes(img.width as int, img.height as int),
{
    let nx: u64 = if img.width < 4 {
        0
    } else {
        ((img.width - 4) / 6 + 1) as u64
    };
    let ny: u64 = if img.height < 4 {
        0
    } else {
        ((img.height - 4) / 6 + 1) as u64
    };
    proof {
        lemma_grid_bounds(img.width as int, img.height as int);
        assert(nx * ny <= 0x4000_0000 * 0x4000_0000) by (nonlinear_arith)
            requires
                0 <= nx <= 0x4000_0000,
                0 <= ny <= 0x4000_0000,
        ;
        assert(img.width * img.height <= img.width * img.height * img.channels)
            by (nonlinear_arith)
            requires
                0 <= img.width * img.height,
                1 <= img.channels,
        ;
        assert(0 <= img.width * img.height) by (nonlinear_arith)
            requires
                0 <= img.width,
                0 <= img.height,
        ;
    }
    let total = img.pixels.len();
    let cells: u64 = nx * ny;
    let whole: u64 = ((cells * 2) / 3) / 8;
    if whole < OVERHEAD_BYTES as u64 {
        0
    } else {
        (whole - OVERHEAD_BYTES as u64) as usize
    }
}

fn fill_pixel(img: &mut Raster, x: u32, y: u32, v: u8)
    requires
        old(img).wf(),
        old(img).channels == 3,
        x < old(img).width,
        y < old(img).height,
    ensures
        final(img).wf(),
        final(img).width == old(img).width,
        final(img).height == old(img).height,
        final(img).channels == 3,
        final(img).pixels@ == with_pixel(old(img).pixels@, old(img).width as int, x as int, y as int, v),
{
    let w = img.width;
    let h = img.height;
    let total = img.pixels.len();
    let at = sample_offset(w, h, 3, x, y, 0);
    proof {
        lemma_sample_bound(w as int, h as int, 3, x as int, y as int, 2);
        lemma_sample_coords(w as int, 3, x as int, y as int, 0);
        lemma_sample_coords(w as int, 3, x as int, y as int, 1);
        lemma_sample_coords(w as int, 3, x as int, y as int, 2);
    }
    img.pixels[at] = v;
    img.pixels[at + 1] = v;
    img.pixels[at + 2] = v;
    proof {
        let want = with_pixel(old(img).pixels@, w as int, x as int, y as int, v);
        assert forall|p: int| 0 <= p < total implies img.pixels@[p] == want[p] by {
            lemma_sample_decompose(w as int, 3, p);
        }
        assert(img.pixels@ =~= want);
    }
}

fn paint(img: &mut Raster, cell: (u32, u32), idx: u8)
    requires
        old(img).wf(),
        old(img).channels == 3,
        cell.0 + 2 <= old(img).width,
        cell.1 + 2 <= old(img).height,
        idx < 4,
    ensures
        final(img).wf(),
        final(img).width == old(img).width,
        final(img).height == old(img).height,
        final(img).channels == 3,
        final(img).pixels@ == paint_cell(old(img).pixels@, old(img).width as int, cell, idx as int),
{
    let x = cell.0;
    let y = cell.1;
    fill_pixel(img, x, y, 255);
    fill_pixel(img, x, y + 1, 255);
    fill_pixel(img, x + 1, y, 255);
    fill_pixel(img, x + 1, y + 1, 255);
    fill_pixel(img, x + (idx / 2) as u32, y + (idx % 2) as u32, 0);
    proof {
        assert(img.pixels@ =~= paint_cell(old(img).pixels@, old(img).width as int, cell, idx as int));
    }
}

fn symbol_at(bits: &[bool], s: usize) -> (idx: u8)
    requires
        2 * s < bits.len(),
    ensures
        idx == symbol_of(bits@, s as int),
        idx < 4,
{
    let high: u8 = if bits[2 * s] {
        2
    } else {
        0
    };
    let low: u8 = if bits.len() - 2 * s > 1 && bits[2 * s + 1] {
        1
    } else {
        0
    };
    high + low
}

/// The cells of a raster in the order of use.
fn ordered_cells(img: &Raster) -> (cells: Vec<(u32, u32)>)
    requires
        img.wf(),
    ensures
        cells@ == shuffled(cell_grid(img.width as int, img.height as int)),
        cells@.len() == cell_count(img.width as int, img.height as int),
        3 * cells@.len() <= usize::MAX,
        forall|n: int|
            0 <= n < cells@.len() ==> (#[trigger] cells@[n]).0 + 2 <= img.width && cells@[n].1 + 2
                <= img.height,
{
    let total = img.pixels.len();
    proof {
        lemma_shuffled_cells(img.width as int, img.height as int);
        assert(img.width * img.height * 3 <= img.width * img.height * img.channels)
            by (nonlinear_arith)
            requires
                0 <= img.width * img.height,
                3 <= img.channels,
        ;
    }
    shuffle_positions(cell_positions(img.width, img.height))
}

/// Writes a bit string into an RGB raster, two bits per symbol and three
/// cells per symbol. Fails with `TooLarge`, leaving the raster as it was,
/// when the image has too few cells.
pub fn encode_offset(img: &mut Raster, bits: &[bool]) -> (res: Result<(), StegError>)
    requires
        old(img).wf(),
        old(img).channels == 3,
    ensures
        final(img).wf(),
        match res {
            Ok(_) => embed_bits(old(img)@, bits@) == Ok::<Image, StegError>(final(img)@),
            Err(e) => embed_bits(old(img)@, bits@) == Err::<Image, StegError>(e) && final(img)@ == old(
                img,
            )@,
        },
{
    let positions = ordered_cells(img);
    let capacity_bits: usize = (positions.len() * 2) / REPEAT;
    if bits.len() > capacity_bits {
        return Err(StegError::TooLarge);
    }
    let symbols: usize = (bits.len() + 1) / 2;
    let needed: usize = symbols * REPEAT;
    if positions.len() < needed {
        return Err(StegError::TooLarge);
    }
    let w = img.width;
    let h = img.height;
    let mut n: usize = 0;
    while n < needed
        invariant
            img.wf(),
            img.channels == 3,
            img.width == w,
            img.height == h,
            w == old(img).width,
            h == old(img).height,
            symbols == symbol_count(bits@.len() as int),
            needed == 3 * symbols,
            needed <= positions@.len(),
            n <= needed,
            forall|m: int|
                0 <= m < positions@.len() ==> (#[trigger] positions@[m]).0 + 2 <= w
                    && positions@[m].1 + 2 <= h,
            img.pixels@ == paint_cells(old(img).pixels@, w as int, positions@, bits@, n as int),
        decreases needed - n,
    {
        let idx = symbol_at(bits, n / 3);
        paint(img, positions[n], idx);
        n = n + 1;
    }
    Ok(())
}

fn pixel_sum_at(img: &Raster, x: u32, y: u32) -> (sum: u32)
    requires
        img.wf(),
        img.channels == 3,
        x < img.width,
        y < img.height,
    ensures
        sum == pixel_sum(img@, x as int, y as int),
{
    let total = img.pixels.len();
    let at = sample_offset(img.width, img.height, 3, x, y, 0);
    proof {
        lemma_sample_bound(img.width as int, img.height as int, 3, x as int, y as int, 2);
    }
    img.pixels[at] as u32 + img.pixels[at + 1] as u32 + img.pixels[at + 2] as u32
}

fn read_cell(img: &Raster, cell: (u32, u32)) -> (idx: u8)
    requires
        img.wf(),
        img.channels == 3,
        cell.0 + 2 <= img.width,
        cell.1 + 2 <= img.height,
    ensures
        idx == darkest(img@, cell),
        idx < 4,
{
    let x = cell.0;
    let y = cell.1;
    let s0 = pixel_sum_at(img, x, y);
    let s1 = pixel_sum_at(img, x, y + 1);
    let s2 = pixel_sum_at(img, x + 1, y);
    let s3 = pixel_sum_at(img, x + 1, y + 1);
    let mut best: u8 = 0;
    let mut least: u32 = s0;
    if s1 < least {
        best = 1;
        least = s1;
    }
    if s2 < least {
        best = 2;
        least = s2;
    }
    if s3 < least {
        best = 3;
    }
    best
}

fn count_votes(symbols: &[u8], g: usize, v: u8) -> (n: u8)
    requires
        3 * g + 2 < symbols.len(),
    ensures
        n == votes(symbols@.map_values(|s: u8| s as int), g as int, v as int),
        n <= 3,
{
    let a: u8 = if symbols[3 * g] == v {
        1
    } else {
        0
    };
    let b: u8 = if symbols[3 * g + 1] == v {
        1
    } else {
        0
    };
    let c: u8 = if symbols[3 * g + 2] == v {
        1
    } else {
        0
    };
    a + b + c
}

fn elect(symbols: &[u8], g: usize) -> (idx: u8)
    requires
        3 * g + 2 < symbols.len(),
    ensures
        idx == elected(symbols@.map_values(|s: u8| s as int), g as int),
        idx < 4,
{
    let n0 = count_votes(symbols, g, 0);
    let n1 = count_votes(symbols, g, 1);
    let n2 = count_votes(symbols, g, 2);
    let n3 = count_votes(symbols, g, 3);
    let mut best: u8 = 0;
    let mut most: u8 = n0;
    if n1 > most {
        best = 1;
        most = n1;
    }
    if n2 > most {
        best = 2;
        most = n2;
    }
    if n3 > most {
        best = 3;
    }
    best
}

fn read_be16(bytes: &[u8]) -> (n: usize)
    requires
        bytes.len() >= 2,
    ensures
        n == be16_value(bytes@),
        n <= 0xffff,
{
    (bytes[0] as usize) * 256 + (bytes[1] as usize)
}

fn read_cells(img: &Raster, positions: &[(u32, u32)]) -> (symbols: Vec<u8>)
    requires
        img.wf(),
        img.channels == 3,
        forall|m: int|
            0 <= m < positions@.len() ==> (#[trigger] positions@[m]).0 + 2 <= img.width
                && positions@[m].1 + 2 <= img.height,
    ensures
        symbols@.map_values(|s: u8| s as int) == read_symbols(img@, positions@),
{
    let count = positions.len();
    let mut symbols: Vec<u8> = Vec::new();
    let mut n: usize = 0;
    while n < count
        invariant
            img.wf(),
            img.channels == 3,
            count == positions@.len(),
            n <= count,
            forall|m: int|
                0 <= m < positions@.len() ==> (#[trigger] positions@[m]).0 + 2 <= img.width
                    && positions@[m].1 + 2 <= img.height,
            symbols@.len() == n,
            forall|m: int| 0 <= m < n ==> symbols@[m] as int == darkest(img@, positions@[m]),
        decreases count - n,
    {
        symbols.push(read_cell(img, positions[n]));
        n = n + 1;
    }
    proof {
        assert(symbols@.map_values(|s: u8| s as int) =~= read_symbols(img@, positions@));
    }
    symbols
}

fn vote(symbols: &[u8]) -> (bits: Vec<bool>)
    requires
        3 * symbols.len() <= usize::MAX,
    ensures
        bits@ == voted_bits(symbols@.map_values(|s: u8| s as int)),
{
    let count = symbols.len();
    let groups: usize = count / REPEAT;
    let ghost read = symbols@.map_values(|s: u8| s as int);
    let mut bits: Vec<bool> = Vec::new();
    let mut g: usize = 0;
    while g < groups
        invariant
            symbols@.len() == count,
            groups == count / 3,
            3 * count <= usize::MAX,
            g <= groups,
            read == symbols@.map_values(|s: u8| s as int),
            bits@.len() == 2 * g,
            forall|t: int| 0 <= t < 2 * g ==> bits@[t] == voted_bits(read)[t],
        decreases groups - g,
    {
        let idx = elect(symbols, g);
        bits.push(idx / 2 == 1);
        bits.push(idx % 2 == 1);
        g = g + 1;
    }
    proof {
        assert(bits@ =~= voted_bits(read));
    }
    bits
}

#[verifier::rlimit(50)]
fn parse(bits: &[bool]) -> (res: Result<Vec<u8>, StegError>)
    ensures
        bytes_result(res) == parse_bits(bits@),
{
    if bits.len() < 16 {
        return Err(StegError::TooSmall);
    }
    let header = bits_to_bytes(vstd::slice::slice_subrange(bits, 0, 16));
    proof {
        assert(header@.len() == 2);
    }
    let codeword_len = read_be16(header.as_slice());
    let total_bits: usize = (2 + codeword_len) * 8;
    if bits.len() < total_bits {
        return Err(StegError::LenMismatch);
    }
    let raw = bits_to_bytes(vstd::slice::slice_subrange(bits, 0, total_bits));
    proof {
        assert(raw@.len() == 2 + codeword_len);
    }
    let frame = vstd::slice::slice_subrange(raw.as_slice(), 2, 2 + codeword_len);
    unwrap_payload(frame)
}

/// Reads a payload from an RGB raster.
pub fn decode_offset(img: &Raster) -> (res: Result<Vec<u8>, StegError>)
    requires
        img.wf(),
        img.channels == 3,
    ensures
        bytes_result(res) == decode_image(img@),
{
    let positions = ordered_cells(img);
    if positions.len() == 0 {
        return Err(StegError::TooSmall);
    }
    let symbols = read_cells(img, positions.as_slice());
    proof {
        assert(symbols@.len() == symbols@.map_values(|s: u8| s as int).len());
    }
    let bits = vote(symbols.as_slice());
    parse(bits.as_slice())
}

/// Encodes a payload into an RGB cover and returns the stego raster.
pub fn encode_raster(cover: &Raster, payload: &[u8]) -> (res: Result<Raster, StegError>)
    requires
        cover.wf(),
        cover.channels == 3,
    ensures
        raster_result(res) == encode_image(cover@, payload@),
        res is Ok ==> res->Ok_0.wf(),
{
    if payload.len() > 0xffff - 11 {
        return Err(StegError::TooLarge);
    }
    let wrapped = wrap_payload(payload);
    let codeword_len = wrapped.len();
    let mut to_embed: Vec<u8> = Vec::new();
    to_embed.push((codeword_len / 256) as u8);
    to_embed.push((codeword_len % 256) as u8);
    to_embed.extend_from_slice(wrapped.as_slice());
    proof {
        assert(to_embed@ =~= codeword(payload@));
    }
    let bits = bytes_to_bits(to_embed.as_slice());
    let mut img = Raster {
        width: cover.width,
        height: cover.height,
        channels: 3,
        pixels: vstd::slice::slice_to_vec(cover.pixels.as_slice()),
    };
    match encode_offset(&mut img, bits.as_slice()) {
        Ok(_) => Ok(img),
        Err(e) => Err(e),
    }
}

/// Decodes the payload of an RGB stego raster.
pub fn decode_raster(image: &Raster) -> (res: Result<Vec<u8>, StegError>)
    requires
        image.wf(),
        image.channels == 3,
    ensures
        bytes_result(res) == decode_image(image@),
{
    decode_offset(image)
}

/// What encoding an image file gives: the cover is decoded, the payload
/// embedded, and the result written as PNG.
pub open spec fn encode_file(image: Seq<u8>, payload: Seq<u8>) -> Result<Seq<u8>, StegError> {
    match loaded_rgb(image) {
        Err(e) => Err(e),
        Ok(cover) => match encode_image(cover, payload) {
            Err(e) => Err(e),
            Ok(out) => png_file(out),
        },
    }
}

/// What decoding an image file gives.
pub open spec fn decode_file(image: Seq<u8>) -> Result<Seq<u8>, StegError> {
    match loaded_rgb(image) {
        Err(e) => Err(e),
        Ok(img) => decode_image(img),
    }
}

/// The largest payload of an image file, in bytes.
pub open spec fn capacity_of_file(image: Seq<u8>) -> Result<int, StegError> {
    match loaded_rgb(image) {
        Err(e) => Err(e),
        Ok(img) => Ok(capacity_bytes(img.width, img.height)),
    }
}

/// Encodes a payload into the image held in `image`, the bytes of an image
/// file, and returns the bytes of a PNG file.
pub fn encode(image: &[u8], payload: &[u8]) -> (res: Result<Vec<u8>, StegError>)
    ensures
        bytes_result(res) == encode_file(image@, payload@),
        res matches Ok(file) ==> is_png(file@),
{
    let cover = match load_rgb(image) {
        Ok(cover) => cover,
        Err(e) => {
            return Err(e);
        },
    };
    let out = match encode_raster(&cover, payload) {
        Ok(out) => out,
        Err(e) => {
            return Err(e);
        },
    };
    save_png(&out)
}

/// Decodes the payload of the image held in `image`, the bytes of an image
/// file.
pub fn decode(image: &[u8]) -> (res: Result<Vec<u8>, StegError>)
    ensures
        bytes_result(res) == decode_file(image@),
{
    match load_rgb(image) {
        Ok(img) => decode_offset(&img),
        Err(e) => Err(e),
    }
}

/// The largest payload, in bytes, that the image held in `image` can carry.
pub fn max_payload_bytes(image: &[u8]) -> (res: Result<usize, StegError>)
    ensures
        match res {
            Ok(n) => capacity_of_file(image@) == Ok::<int, StegError>(n as int),
            Err(e) => capacity_of_file(image@) == Err::<int, StegError>(e),
        },
{
    match load_rgb(image) {
        Ok(img) => Ok(max_payload_bytes_for_image(&img)),
        Err(e) => Err(e),
    }
}

} // verus!
