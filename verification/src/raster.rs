//! Upright rasters of 8-bit samples, three or four per pixel, stored row by
//! row from the top-left corner.

use vstd::prelude::*;
use crate::error::StegError;
use vstd::arithmetic::div_mod::{
    lemma_fundamental_div_mod, lemma_fundamental_div_mod_converse, lemma_multiply_divide_lt,
};

verus! {

/// Where sample `ch` of pixel `(x, y)` lies in a buffer of the given width
/// and channel count.
pub open spec fn sample_index(width: int, channels: int, x: int, y: int, ch: int) -> int {
    (y * width + x) * channels + ch
}

/// The column of the pixel that holds buffer position `p`.
pub open spec fn column_of(width: int, channels: int, p: int) -> int {
    (p / channels) % width
}

/// The row of the pixel that holds buffer position `p`.
pub open spec fn row_of(width: int, channels: int, p: int) -> int {
    (p / channels) / width
}

/// A raster as a mathematical value.
pub struct Image {
    pub width: int,
    pub height: int,
    pub channels: int,
    pub pixels: Seq<u8>,
}

impl Image {
    /// Sizes fit 32 bits, a pixel has three or four samples, and the buffer
    /// holds exactly the samples of every pixel.
    pub open spec fn wf(self) -> bool {
        &&& 0 <= self.width <= u32::MAX
        &&& 0 <= self.height <= u32::MAX
        &&& (self.channels == 3 || self.channels == 4)
        &&& self.pixels.len() == self.width * self.height * self.channels
    }

    /// Sample `ch` of pixel `(x, y)`.
    pub open spec fn sample(self, x: int, y: int, ch: int) -> u8 {
        self.pixels[sample_index(self.width, self.channels, x, y, ch)]
    }

    /// The `width` by `height` rectangle whose top-left pixel is `(x0, y0)`.
    pub open spec fn cropped(self, x0: int, y0: int, width: int, height: int) -> Image {
        Image {
            width,
            height,
            channels: self.channels,
            pixels: Seq::new(
                (width * height * self.channels) as nat,
                |q: int|
                    self.sample(
                        x0 + column_of(width, self.channels, q),
                        y0 + row_of(width, self.channels, q),
                        q % self.channels,
                    ),
            ),
        }
    }

    /// This image with `tile` laid over it, the tile's top-left pixel at
    /// `(x0, y0)`.
    pub open spec fn pasted(self, x0: int, y0: int, tile: Image) -> Image {
        Image {
            width: self.width,
            height: self.height,
            channels: self.channels,
            pixels: Seq::new(
                self.pixels.len(),
                |p: int|
                    {
                        let x = column_of(self.width, self.channels, p);
                        let y = row_of(self.width, self.channels, p);
                        if x0 <= x < x0 + tile.width && y0 <= y < y0 + tile.height {
                            tile.sample(x - x0, y - y0, p % self.channels)
                        } else {
                            self.pixels[p]
                        }
                    },
            ),
        }
    }
}

/// `img` with other samples.
pub open spec fn with_pixels(img: Image, pixels: Seq<u8>) -> Image {
    Image { width: img.width, height: img.height, channels: img.channels, pixels }
}

/// The largest size not above `n` that a 2x2 transform can use: `n` itself
/// when even, one less when odd, except that a single row or column stays.
pub open spec fn even_size(n: int) -> int {
    if n % 2 == 0 {
        n
    } else if n == 1 {
        1
    } else {
        n - 1
    }
}

/// A position built from in-range coordinates decomposes into them again.
pub proof fn lemma_sample_coords(width: int, channels: int, x: int, y: int, ch: int)
    requires
        0 <= x < width,
        0 <= y,
        0 <= ch < channels,
    ensures
        sample_index(width, channels, x, y, ch) >= 0,
        sample_index(width, channels, x, y, ch) % channels == ch,
        sample_index(width, channels, x, y, ch) / channels == y * width + x,
        column_of(width, channels, sample_index(width, channels, x, y, ch)) == x,
        row_of(width, channels, sample_index(width, channels, x, y, ch)) == y,
{
    let px = y * width + x;
    assert(px >= 0) by (nonlinear_arith)
        requires
            0 <= x < width,
            0 <= y,
            px == y * width + x,
    ;
    assert(px * channels + ch >= 0) by (nonlinear_arith)
        requires
            px >= 0,
            0 <= ch < channels,
    ;
    lemma_fundamental_div_mod_converse(px * channels + ch, channels, px, ch);
    lemma_fundamental_div_mod_converse(px, width, y, x);
}

/// Every position is the position of its own row, column and channel.
pub proof fn lemma_sample_decompose(width: int, channels: int, p: int)
    requires
        0 < width,
        0 < channels,
        0 <= p,
    ensures
        p == sample_index(
            width,
            channels,
            column_of(width, channels, p),
            row_of(width, channels, p),
            p % channels,
        ),
        0 <= column_of(width, channels, p) < width,
        0 <= row_of(width, channels, p),
        0 <= p % channels < channels,
{
    let px = p / channels;
    lemma_fundamental_div_mod(p, channels);
    lemma_fundamental_div_mod(px, width);
    assert(px >= 0) by (nonlinear_arith)
        requires
            p >= 0,
            channels > 0,
            px == p / channels,
    ;
    assert(px / width >= 0) by (nonlinear_arith)
        requires
            px >= 0,
            width > 0,
    ;
    assert(channels * px == px * channels) by (nonlinear_arith);
    assert(width * (px / width) == (px / width) * width) by (nonlinear_arith);
}

/// In-range coordinates give a position inside the buffer.
pub proof fn lemma_sample_bound(width: int, height: int, channels: int, x: int, y: int, ch: int)
    requires
        0 <= x < width,
        0 <= y < height,
        0 <= ch < channels,
    ensures
        0 <= sample_index(width, channels, x, y, ch) < width * height * channels,
{
    assert(0 <= (y * width + x) * channels + ch < width * height * channels)
        by (nonlinear_arith)
        requires
            0 <= x < width,
            0 <= y < height,
            0 <= ch < channels,
    ;
}

/// A position inside the buffer lies in a row of the image.
pub proof fn lemma_row_bound(width: int, height: int, channels: int, p: int)
    requires
        0 < width,
        0 < channels,
        0 <= p < width * height * channels,
    ensures
        row_of(width, channels, p) < height,
{
    assert(width * height * channels == channels * (width * height)) by (nonlinear_arith);
    lemma_multiply_divide_lt(p, channels, width * height);
    lemma_multiply_divide_lt(p / channels, width, height);
}

/// A raster held in memory.
#[derive(Clone, Debug, PartialEq, Eq)]
pub struct Raster {
    /// Pixels per row.
    pub width: u32,
    /// Number of rows.
    pub height: u32,
    /// Samples per pixel: 3 for RGB, 4 for RGBA.
    pub channels: u8,
    /// The samples, row by row, pixel by pixel.
    pub pixels: Vec<u8>,
}

impl View for Raster {
    type V = Image;

    open spec fn view(&self) -> Image {
        Image {
            width: self.width as int,
            height: self.height as int,
            channels: self.channels as int,
            pixels: self.pixels@,
        }
    }
}

/// The mathematical value of a raster result.
pub open spec fn raster_result(r: Result<Raster, StegError>) -> Result<Image, StegError> {
    match r {
        Ok(v) => Ok(v@),
        Err(e) => Err(e),
    }
}

/// Computes the buffer position of a sample.
pub fn sample_offset(width: u32, height: u32, channels: u8, x: u32, y: u32, ch: u8) -> (at: usize)
    requires
        x < width,
        y < height,
        ch < channels,
        width * height * channels <= usize::MAX,
    ensures
        at == sample_index(width as int, channels as int, x as int, y as int, ch as int),
        at < width * height * channels,
{
    proof {
        lemma_sample_bound(
            width as int,
            height as int,
            channels as int,
            x as int,
            y as int,
            ch as int,
        );
        assert(0 <= y * width + x <= (y * width + x) * channels + ch) by (nonlinear_arith)
            requires
                0 <= x,
                0 <= y,
                0 <= width,
                0 <= ch < channels,
        ;
        assert(0 <= y * width <= y * width + x);
    }
    let px: usize = (y as usize) * (width as usize) + (x as usize);
    px * (channels as usize) + (ch as usize)
}

impl Raster {
    /// Whether the buffer matches the declared size.
    pub open spec fn wf(&self) -> bool {
        self@.wf()
    }

    /// Builds a raster, or nothing when the sample count does not match the
    /// size or the channel count is neither 3 nor 4.
    pub fn new(width: u32, height: u32, channels: u8, pixels: Vec<u8>) -> (res: Option<Raster>)
        ensures
            match res {
                Some(r) => r.wf() && r.width == width && r.height == height && r.channels
                    == channels && r.pixels@ == pixels@,
                None => !(Image {
                    width: width as int,
                    height: height as int,
                    channels: channels as int,
                    pixels: pixels@,
                }).wf(),
            },
    {
        if channels != 3 && channels != 4 {
            return None;
        }
        proof {
            assert(width * height * channels <= 0x4_0000_0000_0000_0000) by (nonlinear_arith)
                requires
                    0 <= width <= 0xffff_ffff,
                    0 <= height <= 0xffff_ffff,
                    0 <= channels <= 4,
            ;
            assert(0 <= width * height <= width * height * channels) by (nonlinear_arith)
                requires
                    0 <= width,
                    0 <= height,
                    1 <= channels,
            ;
        }
        let area: u128 = (width as u128) * (height as u128);
        let expect: u128 = area * (channels as u128);
        if pixels.len() as u128 != expect {
            return None;
        }
        Some(Raster { width, height, channels, pixels })
    }

    /// Copies out the `width` by `height` rectangle whose top-left pixel is
    /// `(x0, y0)`.
    #[verifier::rlimit(50)]
    pub fn crop(&self, x0: u32, y0: u32, width: u32, height: u32) -> (out: Raster)
        requires
            self.wf(),
            x0 + width <= self.width,
            y0 + height <= self.height,
        ensures
            out.wf(),
            out@ == self@.cropped(x0 as int, y0 as int, width as int, height as int),
    {
        let c = self.channels;
        let total = self.pixels.len();
        let mut pixels: Vec<u8> = Vec::new();
        let ghost want = self@.cropped(x0 as int, y0 as int, width as int, height as int).pixels;
        proof {
            assert(0 <= width * height * c <= self.width * self.height * c) by (nonlinear_arith)
                requires
                    0 <= width <= self.width,
                    0 <= height <= self.height,
                    0 <= c,
            ;
        }
        if width == 0 || height == 0 {
            proof {
                assert(width * height * c == 0) by (nonlinear_arith)
                    requires
                        width == 0 || height == 0,
                ;
                assert(pixels@ =~= want);
            }
            return Raster { width, height, channels: c, pixels };
        }
        proof {
            assert(width * c <= self.width * self.height * c) by (nonlinear_arith)
                requires
                    0 <= width <= self.width,
                    1 <= self.height,
                    0 <= c,
            ;
        }
        let row_len: usize = (width as usize) * (c as usize);
        let mut y: u32 = 0;
        while y < height
            invariant
                self.wf(),
                c == self.channels,
                0 < width,
                total == self.width * self.height * c,
                x0 + width <= self.width,
                y0 + height <= self.height,
                row_len == width * c,
                y <= height,
                want == self@.cropped(x0 as int, y0 as int, width as int, height as int).pixels,
                want.len() == width * height * c,
                pixels@.len() == y * row_len,
                forall|q: int| 0 <= q < pixels@.len() ==> pixels@[q] == want[q],
            decreases height - y,
        {
            let from = sample_offset(self.width, self.height, c, x0, y0 + y, 0);
            proof {
                lemma_sample_bound(
                    self.width as int,
                    self.height as int,
                    c as int,
                    x0 + width - 1,
                    (y0 + y) as int,
                    c - 1,
                );
                assert(sample_index(
                    self.width as int,
                    c as int,
                    x0 + width - 1,
                    (y0 + y) as int,
                    c - 1,
                ) == from + row_len - 1) by (nonlinear_arith)
                    requires
                        from == ((y0 + y) * self.width + x0) * c,
                        row_len == width * c,
                ;
                assert((y + 1) * row_len <= width * height * c) by (nonlinear_arith)
                    requires
                        y < height,
                        row_len == width * c,
                        0 <= row_len,
                ;
                assert((y + 1) * row_len == y * row_len + row_len) by (nonlinear_arith);
            }
            let ghost before = pixels@;
            pixels.extend_from_slice(vstd::slice::slice_subrange(
                self.pixels.as_slice(),
                from,
                from + row_len,
            ));
            proof {
                assert forall|q: int| 0 <= q < pixels@.len() implies pixels@[q] == want[q] by {
                    if q >= before.len() {
                        let t = q - before.len();
                        lemma_sample_decompose(width as int, c as int, q);
                        lemma_sample_decompose(width as int, c as int, t);
                        let xx = column_of(width as int, c as int, t);
                        let ch = t % (c as int);
                        assert(row_of(width as int, c as int, t) == 0) by {
                            lemma_row_bound(width as int, 1, c as int, t);
                        }
                        assert(q == sample_index(width as int, c as int, xx, y as int, ch))
                            by (nonlinear_arith)
                            requires
                                q == y * row_len + t,
                                row_len == width * c,
                                t == (0 * width + xx) * c + ch,
                        ;
                        lemma_sample_coords(width as int, c as int, xx, y as int, ch);
                        assert(sample_index(
                            self.width as int,
                            c as int,
                            x0 + xx,
                            y0 + y,
                            ch,
                        ) == from + t) by (nonlinear_arith)
                            requires
                                from == ((y0 + y) * self.width + x0) * c,
                                t == (0 * width + xx) * c + ch,
                        ;
                        assert(pixels@[q] == self.pixels@[from + t]);
                    }
                }
            }
            y = y + 1;
        }
        proof {
            assert(pixels@.len() == want.len()) by (nonlinear_arith)
                requires
                    pixels@.len() == y * row_len,
                    y == height,
                    row_len == width * c,
                    want.len() == width * height * c,
            ;
            assert(pixels@ =~= want);
        }
        Raster { width, height, channels: c, pixels }
    }

    /// Lays `tile` over this raster, the tile's top-left pixel at `(x0, y0)`.
    #[verifier::rlimit(50)]
    pub fn paste(&mut self, x0: u32, y0: u32, tile: &Raster)
        requires
            old(self).wf(),
            tile.wf(),
            tile.channels == old(self).channels,
            x0 + tile.width <= old(self).width,
            y0 + tile.height <= old(self).height,
        ensures
            final(self).wf(),
            final(self)@ == old(self)@.pasted(x0 as int, y0 as int, tile@),
    {
        let c = self.channels;
        let w = self.width;
        let h = self.height;
        let tw = tile.width;
        let th = tile.height;
        let total = tile.pixels.len();
        let own = self.pixels.len();
        let ghost want = old(self)@.pasted(x0 as int, y0 as int, tile@).pixels;
        let mut q: usize = 0;
        while q < total
            invariant
                tile.wf(),
                c == tile.channels,
                c == self.channels,
                w == self.width,
                h == self.height,
                tw == tile.width,
                th == tile.height,
                self.width == old(self).width,
                self.height == old(self).height,
                self.channels == old(self).channels,
                old(self).wf(),
                x0 + tw <= w,
                y0 + th <= h,
                total == tw * th * c,
                own == w * h * c,
                self.pixels@.len() == own,
                q <= total,
                want == old(self)@.pasted(x0 as int, y0 as int, tile@).pixels,
                forall|p: int|
                    0 <= p < own ==> #[trigger] self.pixels@[p] == (if x0 <= column_of(
                        w as int,
                        c as int,
                        p,
                    ) < x0 + tw && y0 <= row_of(w as int, c as int, p) < y0 + th && sample_index(
                        tw as int,
                        c as int,
                        column_of(w as int, c as int, p) - x0,
                        row_of(w as int, c as int, p) - y0,
                        p % (c as int),
                    ) < q {
                        want[p]
                    } else {
                        old(self).pixels@[p]
                    }),
            decreases total - q,
        {
            proof {
                assert(0 < tw && 0 < th) by (nonlinear_arith)
                    requires
                        0 <= q < tw * th * c,
                        0 <= tw,
                        0 <= th,
                        0 <= c,
                ;
                lemma_sample_decompose(tw as int, c as int, q as int);
                lemma_row_bound(tw as int, th as int, c as int, q as int);
            }
            let px: usize = q / (c as usize);
            let ch: u8 = (q % (c as usize)) as u8;
            let xx: u32 = (px % (tw as usize)) as u32;
            let yy: u32 = (px / (tw as usize)) as u32;
            let at = sample_offset(w, h, c, x0 + xx, y0 + yy, ch);
            proof {
                lemma_sample_coords(w as int, c as int, x0 + xx, y0 + yy, ch as int);
            }
            let ghost before = self.pixels@;
            self.pixels[at] = tile.pixels[q];
            proof {
                assert forall|p: int| 0 <= p < own implies #[trigger] self.pixels@[p] == (if x0
                    <= column_of(w as int, c as int, p) < x0 + tw && y0 <= row_of(
                    w as int,
                    c as int,
                    p,
                ) < y0 + th && sample_index(
                    tw as int,
                    c as int,
                    column_of(w as int, c as int, p) - x0,
                    row_of(w as int, c as int, p) - y0,
                    p % (c as int),
                ) < q + 1 {
                    want[p]
                } else {
                    old(self).pixels@[p]
                }) by {
                    if p != at {
                        assert(self.pixels@[p] == before[p]);
                        let x = column_of(w as int, c as int, p);
                        let y = row_of(w as int, c as int, p);
                        if x0 <= x < x0 + tw && y0 <= y < y0 + th && sample_index(
                            tw as int,
                            c as int,
                            x - x0,
                            y - y0,
                            p % (c as int),
                        ) == q {
                            lemma_sample_decompose(w as int, c as int, p);
                            lemma_sample_coords(tw as int, c as int, x - x0, y - y0, p % (c as int));
                            assert(false);
                        }
                    }
                }
            }
            q = q + 1;
        }
        proof {
            assert forall|p: int| 0 <= p < own implies self.pixels@[p] == want[p] by {
                assert(0 < w) by (nonlinear_arith)
                    requires
                        0 <= p < w * h * c,
                        0 <= w,
                        0 <= h,
                        0 <= c,
                ;
                lemma_sample_decompose(w as int, c as int, p);
                let x = column_of(w as int, c as int, p);
                let y = row_of(w as int, c as int, p);
                if x0 <= x < x0 + tw && y0 <= y < y0 + th {
                    lemma_sample_bound(tw as int, th as int, c as int, x - x0, y - y0, p % (c as int));
                }
            }
            assert(self.pixels@ =~= want);
        }
    }
}

/// Crops a raster so that a 2x2 transform covers it: an odd width or height
/// loses its last column or row.
pub fn ensure_even_dimensions(img: &Raster) -> (out: Raster)
    requires
        img.wf(),
    ensures
        out.wf(),
        out@ == img@.cropped(0, 0, even_size(img.width as int), even_size(img.height as int)),
{
    let w = img.width;
    let h = img.height;
    let w_even = if w % 2 == 0 {
        w
    } else if w == 1 {
        1
    } else {
        w - 1
    };
    let h_even = if h % 2 == 0 {
        h
    } else if h == 1 {
        1
    } else {
        h - 1
    };
    img.crop(0, 0, w_even, h_even)
}

} // verus!
