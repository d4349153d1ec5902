//! What holds of the dot codec: the cell order is a permutation of the
//! grid, and a payload written into an image is read back from it.

use vstd::prelude::*;
use vstd::seq_lib::{to_multiset_contains, to_multiset_update};
use crate::bits::{
    bits_of_bytes, bytes_of_bits, lemma_bits_of_subrange, lemma_bytes_of_bits_of_bytes,
};
use crate::error::StegError;
use crate::frame::{lemma_unwrap_wrap, wrap};
use crate::raster::{lemma_sample_bound, lemma_sample_coords, sample_index, with_pixels, Image};
use crate::stego_dot::{
    be16, be16_value, cell_count, cell_grid, cells_along, codeword, darkest, decode_image,
    decoded_bits, elected, encode_image, lcg_next, lemma_grid_bounds, offset_sum,
    offset_x, offset_y, paint_cell, paint_cells, parse_bits, picked, pixel_sum, read_symbols,
    shuffle_from, shuffled, swapped, symbol_count, symbol_of, use_order, voted_bits, votes,
};

verus! {

/// Exchanging two items keeps the items.
pub proof fn lemma_swapped_keeps_items(s: Seq<(u32, u32)>, i: int, j: int)
    requires
        0 <= i < s.len(),
        0 <= j < s.len(),
    ensures
        swapped(s, i, j).len() == s.len(),
        swapped(s, i, j).to_multiset() == s.to_multiset(),
{
    broadcast use vstd::multiset::group_multiset_axioms;

    let mid = s.update(i, s[j]);
    to_multiset_update(s, i, s[j]);
    to_multiset_update(mid, j, s[i]);
    to_multiset_contains(s, s[i]);
    to_multiset_contains(s, s[j]);
    assert(s.contains(s[i]));
    assert(s.contains(s[j]));
    if i == j {
        assert(swapped(s, i, j) =~= s);
    } else {
        assert(mid[j] == s[j]);
        assert(swapped(s, i, j).to_multiset() =~= s.to_multiset());
    }
}

/// Each step of the shuffle keeps the items.
pub proof fn lemma_shuffle_from_keeps_items(s: Seq<(u32, u32)>, i: int, seed: u32)
    requires
        i < s.len(),
    ensures
        shuffle_from(s, i, seed).len() == s.len(),
        shuffle_from(s, i, seed).to_multiset() == s.to_multiset(),
    decreases i,
{
    if i > 0 {
        let next = lcg_next(seed);
        let j = (next as int) % (i + 1);
        lemma_swapped_keeps_items(s, i, j);
        lemma_shuffle_from_keeps_items(swapped(s, i, j), i - 1, next);
    }
}

/// The shuffle is a permutation: it holds the same items, each as often as
/// before.
pub proof fn lemma_shuffle_is_permutation(s: Seq<(u32, u32)>)
    ensures
        shuffled(s).len() == s.len(),
        shuffled(s).to_multiset() == s.to_multiset(),
{
    lemma_shuffle_from_keeps_items(s, s.len() - 1, 42);
}

/// Shuffling items is shuffling their indices.
pub proof fn lemma_shuffle_from_by_index<T>(s: Seq<T>, order: Seq<int>, i: int, seed: u32)
    requires
        i < order.len(),
    ensures
        shuffle_from(picked(s, order), i, seed) == picked(s, shuffle_from(order, i, seed)),
    decreases i,
{
    if i > 0 {
        let next = lcg_next(seed);
        let j = (next as int) % (i + 1);
        assert(swapped(picked(s, order), i, j) =~= picked(s, swapped(order, i, j)));
        lemma_shuffle_from_by_index(s, swapped(order, i, j), i - 1, next);
    }
}

/// The order of use depends on the number of items alone: whatever the
/// items are, the one used at position `k` is the one at index
/// `use_order(n)[k]`. Encoder and decoder, given as many cells, use them in
/// one order.
pub proof fn lemma_order_depends_on_count<T>(s: Seq<T>)
    ensures
        shuffled(s) == picked(s, use_order(s.len())),
{
    let identity = Seq::new(s.len(), |i: int| i);
    assert(picked(s, identity) =~= s);
    lemma_shuffle_from_by_index(s, identity, s.len() - 1, 42);
}

/// No two cells of the grid have the same anchor.
pub proof fn lemma_grid_distinct(w: int, h: int)
    requires
        0 <= w <= u32::MAX,
        0 <= h <= u32::MAX,
    ensures
        cell_grid(w, h).no_duplicates(),
{
    lemma_grid_bounds(w, h);
    let grid = cell_grid(w, h);
    let nx = cells_along(w);
    assert forall|a: int, b: int| 0 <= a < grid.len() && 0 <= b < grid.len() && a != b implies grid[a]
        != grid[b] by {
        if grid[a] == grid[b] {
            assert(nx > 0) by (nonlinear_arith)
                requires
                    0 <= a < nx * cells_along(h),
                    0 <= nx,
            ;
            vstd::arithmetic::div_mod::lemma_fundamental_div_mod(a, nx);
            vstd::arithmetic::div_mod::lemma_fundamental_div_mod(b, nx);
            assert(a % nx == b % nx);
            assert(a / nx == b / nx);
            assert(false);
        }
    }
}

/// The cells in the order of use: as many as the grid has, no cell twice,
/// each one a cell of the grid and so inside the image, its anchor 2 modulo
/// 6 in both directions.
pub proof fn lemma_shuffled_cells(w: int, h: int)
    requires
        0 <= w <= u32::MAX,
        0 <= h <= u32::MAX,
    ensures
        shuffled(cell_grid(w, h)).len() == cell_count(w, h),
        0 <= cell_count(w, h) <= w * h,
        shuffled(cell_grid(w, h)).no_duplicates(),
        forall|n: int|
            0 <= n < cell_count(w, h) ==> {
                let cell = #[trigger] shuffled(cell_grid(w, h))[n];
                &&& 2 <= cell.0 && cell.0 + 2 <= w
                &&& 2 <= cell.1 && cell.1 + 2 <= h
                &&& cell.0 % 6 == 2
                &&& cell.1 % 6 == 2
            },
{
    broadcast use vstd::multiset::group_multiset_axioms;

    let grid = cell_grid(w, h);
    let cells = shuffled(grid);
    lemma_grid_bounds(w, h);
    lemma_grid_distinct(w, h);
    lemma_shuffle_is_permutation(grid);
    grid.lemma_multiset_has_no_duplicates();
    cells.lemma_multiset_has_no_duplicates_conv();
    assert forall|n: int| 0 <= n < cell_count(w, h) implies {
        let cell = #[trigger] cells[n];
        &&& 2 <= cell.0 && cell.0 + 2 <= w
        &&& 2 <= cell.1 && cell.1 + 2 <= h
        &&& cell.0 % 6 == 2
        &&& cell.1 % 6 == 2
    } by {
        let cell = cells[n];
        assert(cells.contains(cell));
        to_multiset_contains(cells, cell);
        to_multiset_contains(grid, cell);
        assert(grid.contains(cell));
        let k = choose|k: int| 0 <= k < grid.len() && grid[k] == cell;
        assert(grid[k] == cell);
    }
}

/// Whether the cells are usable in a `w` by `h` image: no cell twice, each
/// inside the image, each anchor 2 modulo 6 in both directions.
pub open spec fn cells_fit(cells: Seq<(u32, u32)>, w: int, h: int) -> bool {
    &&& cells.no_duplicates()
    &&& forall|n: int|
        0 <= n < cells.len() ==> {
            let cell = #[trigger] cells[n];
            &&& 2 <= cell.0 && cell.0 + 2 <= w
            &&& 2 <= cell.1 && cell.1 + 2 <= h
            &&& cell.0 % 6 == 2
            &&& cell.1 % 6 == 2
        }
}

/// What a painted cell shows at offset `(dx, dy)`: black where the symbol
/// points, white elsewhere.
pub open spec fn dot(idx: int, dx: int, dy: int) -> u8 {
    if dx == offset_x(idx) && dy == offset_y(idx) {
        0u8
    } else {
        255u8
    }
}

/// Painting keeps the number of samples.
pub proof fn lemma_paint_cells_len(pixels: Seq<u8>, w: int, cells: Seq<(u32, u32)>, bits: Seq<bool>, n: int)
    ensures
        paint_cells(pixels, w, cells, bits, n).len() == pixels.len(),
    decreases n,
{
    if n > 0 {
        lemma_paint_cells_len(pixels, w, cells, bits, n - 1);
    }
}

/// After the first `total` cells were painted, each sample of each of them
/// shows what its own symbol asks for: later cells do not touch it.
#[verifier::rlimit(50)]
pub proof fn lemma_painted_sample(
    pixels: Seq<u8>,
    w: int,
    h: int,
    cells: Seq<(u32, u32)>,
    bits: Seq<bool>,
    total: int,
    n: int,
    dx: int,
    dy: int,
    ch: int,
)
    requires
        0 <= w,
        0 <= h,
        pixels.len() == w * h * 3,
        cells_fit(cells, w, h),
        0 <= n < total <= cells.len(),
        0 <= dx < 2,
        0 <= dy < 2,
        0 <= ch < 3,
    ensures
        paint_cells(pixels, w, cells, bits, total)[sample_index(
            w,
            3,
            cells[n].0 + dx,
            cells[n].1 + dy,
            ch,
        )] == dot(symbol_of(bits, n / 3), dx, dy),
    decreases total,
{
    let x = cells[n].0 + dx;
    let y = cells[n].1 + dy;
    let p = sample_index(w, 3, x, y, ch);
    lemma_sample_bound(w, h, 3, x, y, ch);
    lemma_sample_coords(w, 3, x, y, ch);
    let before = paint_cells(pixels, w, cells, bits, total - 1);
    lemma_paint_cells_len(pixels, w, cells, bits, total - 1);
    let last = cells[total - 1];
    assert(paint_cells(pixels, w, cells, bits, total) == paint_cell(
        before,
        w,
        last,
        symbol_of(bits, (total - 1) / 3),
    ));
    if n == total - 1 {
    } else {
        assert(cells[n] != last);
        let other_dx = x - last.0;
        let other_dy = y - last.1;
        if 0 <= other_dx < 2 && 0 <= other_dy < 2 {
            assert(cells[n].0 == last.0);
            assert(cells[n].1 == last.1);
            assert(false);
        }
        lemma_painted_sample(pixels, w, h, cells, bits, total - 1, n, dx, dy, ch);
    }
}

/// A painted cell reads as the symbol that was painted.
pub proof fn lemma_read_painted(
    img: Image,
    cells: Seq<(u32, u32)>,
    bits: Seq<bool>,
    total: int,
    n: int,
)
    requires
        img.wf(),
        img.channels == 3,
        cells_fit(cells, img.width, img.height),
        0 <= n < total <= cells.len(),
        0 <= 2 * (n / 3) < bits.len(),
    ensures
        darkest(
            with_pixels(img, paint_cells(img.pixels, img.width, cells, bits, total)),
            cells[n],
        ) == symbol_of(bits, n / 3),
{
    let w = img.width;
    let h = img.height;
    let out = with_pixels(img, paint_cells(img.pixels, w, cells, bits, total));
    let sym = symbol_of(bits, n / 3);
    let cell = cells[n];
    assert forall|i: int| 0 <= i < 4 implies #[trigger] offset_sum(out, cell, i) == (if i == sym {
        0int
    } else {
        765int
    }) by {
        let dx = offset_x(i);
        let dy = offset_y(i);
        lemma_painted_sample(img.pixels, w, h, cells, bits, total, n, dx, dy, 0);
        lemma_painted_sample(img.pixels, w, h, cells, bits, total, n, dx, dy, 1);
        lemma_painted_sample(img.pixels, w, h, cells, bits, total, n, dx, dy, 2);
        assert(pixel_sum(out, cell.0 + dx, cell.1 + dy) == 3 * dot(sym, dx, dy));
    }
    assert(offset_sum(out, cell, 0) == (if 0 == sym { 0int } else { 765int }));
    assert(offset_sum(out, cell, 1) == (if 1 == sym { 0int } else { 765int }));
    assert(offset_sum(out, cell, 2) == (if 2 == sym { 0int } else { 765int }));
    assert(offset_sum(out, cell, 3) == (if 3 == sym { 0int } else { 765int }));
}

/// The bits voted from an image in which `bits` was painted begin with
/// `bits`.
#[verifier::rlimit(50)]
pub proof fn lemma_decoded_prefix(img: Image, cells: Seq<(u32, u32)>, bits: Seq<bool>)
    requires
        img.wf(),
        img.channels == 3,
        cells_fit(cells, img.width, img.height),
        bits.len() % 2 == 0,
        3 * symbol_count(bits.len() as int) <= cells.len(),
    ensures
        bits.len() <= decoded_bits(
            with_pixels(
                img,
                paint_cells(img.pixels, img.width, cells, bits, 3 * symbol_count(bits.len() as int)),
            ),
            cells,
        ).len(),
        decoded_bits(
            with_pixels(
                img,
                paint_cells(img.pixels, img.width, cells, bits, 3 * symbol_count(bits.len() as int)),
            ),
            cells,
        ).subrange(0, bits.len() as int) == bits,
{
    let total = 3 * symbol_count(bits.len() as int);
    let out = with_pixels(img, paint_cells(img.pixels, img.width, cells, bits, total));
    let read = read_symbols(out, cells);
    let got = voted_bits(read);
    assert forall|t: int| 0 <= t < bits.len() implies got[t] == bits[t] by {
        let g = t / 2;
        lemma_read_painted(img, cells, bits, total, 3 * g);
        lemma_read_painted(img, cells, bits, total, 3 * g + 1);
        lemma_read_painted(img, cells, bits, total, 3 * g + 2);
        let sym = symbol_of(bits, g);
        assert(read[3 * g] == sym);
        assert(read[3 * g + 1] == sym);
        assert(read[3 * g + 2] == sym);
        assert(votes(read, g, sym) == 3);
        assert(elected(read, g) == sym);
    }
    assert(got.subrange(0, bits.len() as int) =~= bits);
}

/// Parsing a bit string that begins with the bits of a codeword gives the
/// payload of the codeword.
#[verifier::rlimit(50)]
pub proof fn lemma_parse_codeword(got: Seq<bool>, payload: Seq<u8>)
    requires
        11 + payload.len() <= 0xffff,
        8 * codeword(payload).len() <= got.len(),
        got.subrange(0, 8 * codeword(payload).len() as int) == bits_of_bytes(codeword(payload)),
    ensures
        parse_bits(got) == Ok::<Seq<u8>, StegError>(payload),
{
    let word = codeword(payload);
    let frame = wrap(payload);
    let c = frame.len() as int;
    let bits = bits_of_bytes(word);
    assert(c == 11 + payload.len());
    assert(word.len() == 2 + c);
    assert(bits.len() == 8 * (2 + c));
    assert(bytes_of_bits(got.subrange(0, 16)) == be16(c)) by {
        assert(word.subrange(0, 2) =~= be16(c));
        lemma_bits_of_subrange(word, 0, 2);
        assert(got.subrange(0, 16) =~= got.subrange(0, 8 * (2 + c)).subrange(0, 16));
        lemma_bytes_of_bits_of_bytes(be16(c));
    }
    assert(be16_value(be16(c)) == c);
    assert(bytes_of_bits(got.subrange(0, 8 * (2 + c))) == word) by {
        lemma_bytes_of_bits_of_bytes(word);
    }
    assert(word.subrange(2, 2 + c) =~= frame);
    lemma_unwrap_wrap(payload);
}

/// What encoding gives when the cover has the cells.
pub proof fn lemma_encode_paints(cover: Image, payload: Seq<u8>)
    requires
        encode_image(cover, payload) is Ok,
    ensures
        11 + payload.len() <= 0xffff,
        bits_of_bytes(codeword(payload)).len() == 8 * codeword(payload).len(),
        3 * symbol_count(8 * codeword(payload).len() as int) <= shuffled(
            cell_grid(cover.width, cover.height),
        ).len(),
        encode_image(cover, payload) == Ok::<Image, StegError>(
            with_pixels(
                cover,
                paint_cells(
                    cover.pixels,
                    cover.width,
                    shuffled(cell_grid(cover.width, cover.height)),
                    bits_of_bytes(codeword(payload)),
                    3 * symbol_count(8 * codeword(payload).len() as int),
                ),
            ),
        ),
{
}

/// Round trip. A payload that a cover has cells for is read back from the
/// encoded image.
#[verifier::rlimit(50)]
pub proof fn lemma_round_trip(cover: Image, payload: Seq<u8>)
    requires
        cover.wf(),
        cover.channels == 3,
        encode_image(cover, payload) is Ok,
    ensures
        decode_image(encode_image(cover, payload)->Ok_0) == Ok::<Seq<u8>, StegError>(payload),
{
    let w = cover.width;
    let h = cover.height;
    let cells = shuffled(cell_grid(w, h));
    let bits = bits_of_bytes(codeword(payload));
    let total = 3 * symbol_count(bits.len() as int);
    let out = with_pixels(cover, paint_cells(cover.pixels, w, cells, bits, total));
    let got = decoded_bits(out, cells);
    lemma_encode_paints(cover, payload);
    assert(encode_image(cover, payload)->Ok_0 == out);
    assert(cells_fit(cells, w, h)) by {
        lemma_shuffled_cells(w, h);
    }
    assert(bits.len() <= got.len() && got.subrange(0, bits.len() as int) == bits) by {
        lemma_decoded_prefix(cover, cells, bits);
    }
    assert(parse_bits(got) == Ok::<Seq<u8>, StegError>(payload)) by {
        lemma_parse_codeword(got, payload);
    }
    assert(cells.len() > 0);
    assert(out.width == w && out.height == h);
}

} // verus!
