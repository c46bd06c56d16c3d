//! The full-resolution output buffer and the writing of windows into it.
use vstd::prelude::*;
use vstd::arithmetic::div_mod::*;
use vstd::arithmetic::mul::*;

use crate::error::ExportError;
use crate::tile::{tile_contains, tile_fits, Tile, covered_by};

verus! {

/// Column of flat pixel index `k` in an image `width` pixels wide.
pub open spec fn col_of(k: int, width: int) -> int {
    k % width
}

/// Row of flat pixel index `k` in an image `width` pixels wide.
pub open spec fn row_of(k: int, width: int) -> int {
    k / width
}

/// The sample that `tile` holds for flat pixel index `k`, the samples being
/// laid out row by row over the tile.
pub open spec fn sample_for<T>(width: int, tile: Tile, samples: Seq<T>, k: int) -> T {
    samples[(row_of(k, width) - tile.y_offset) * tile.width + (col_of(k, width) - tile.x_offset)]
}

/// `pixels` after the samples of `tile` have been written over it: each pixel
/// inside the tile takes its sample, every other pixel keeps its value.
pub open spec fn written<T>(pixels: Seq<T>, width: int, tile: Tile, samples: Seq<T>) -> Seq<T> {
    Seq::new(
        pixels.len(),
        |k: int|
            if tile_contains(tile, col_of(k, width), row_of(k, width)) {
                sample_for(width, tile, samples, k)
            } else {
                pixels[k]
            },
    )
}

/// `pixels` after the windows `tiles` have been written over it in order,
/// window `i` with the samples `samples[i]`.
pub open spec fn written_all<T>(pixels: Seq<T>, width: int, tiles: Seq<Tile>, samples: Seq<Seq<T>>) -> Seq<T>
    decreases tiles.len(),
{
    if tiles.len() == 0 {
        pixels
    } else {
        written(
            written_all(pixels, width, tiles.drop_last(), samples.drop_last()),
            width,
            tiles.last(),
            samples[tiles.len() - 1],
        )
    }
}

/// A grayscale image, stored row by row, that becomes an RGB image with the
/// gray value in all three channels.
pub struct GrayImage<T> {
    width: u32,
    height: u32,
    pixels: Vec<T>,
}

impl<T> View for GrayImage<T> {
    type V = Seq<T>;

    closed spec fn view(&self) -> Seq<T> {
        self.pixels@
    }
}

impl<T: Copy> GrayImage<T> {
    /// Width in pixels.
    pub closed spec fn spec_width(&self) -> nat {
        self.width as nat
    }

    /// Height in pixels.
    pub closed spec fn spec_height(&self) -> nat {
        self.height as nat
    }

    /// One value per pixel.
    pub open spec fn wf(&self) -> bool {
        self@.len() == self.spec_width() * self.spec_height()
    }

    /// The value of pixel `(x, y)`.
    pub open spec fn pixel(&self, x: int, y: int) -> T {
        self@[y * self.spec_width() + x]
    }

    /// An image of `width` by `height` pixels, all of value `fill`.
    pub fn new(width: u32, height: u32, fill: T) -> (r: GrayImage<T>)
        requires
            width as int * height as int <= usize::MAX,
        ensures
            r.wf(),
            r.spec_width() == width,
            r.spec_height() == height,
            forall|k: int| 0 <= k < r@.len() ==> #[trigger] r@[k] == fill,
    {
        let n: usize = width as usize * height as usize;
        let mut pixels: Vec<T> = Vec::with_capacity(n);
        let mut k: usize = 0;
        while k < n
            invariant
                0 <= k <= n,
                pixels@.len() == k,
                forall|q: int| 0 <= q < k ==> #[trigger] pixels@[q] == fill,
            decreases n - k,
        {
            pixels.push(fill);
            k = k + 1;
        }
        GrayImage { width, height, pixels }
    }

    /// Width in pixels.
    pub fn width(&self) -> (r: u32)
        ensures
            r == self.spec_width(),
    {
        self.width
    }

    /// Height in pixels.
    pub fn height(&self) -> (r: u32)
        ensures
            r == self.spec_height(),
    {
        self.height
    }

    /// The value of pixel `(x, y)`, or `None` outside the image.
    pub fn get_pixel(&self, x: u32, y: u32) -> (r: Option<T>)
        requires
            self.wf(),
        ensures
            r is Some <==> x < self.spec_width() && y < self.spec_height(),
            r matches Some(v) ==> v == self.pixel(x as int, y as int),
    {
        if x >= self.width || y >= self.height {
            return None;
        }
        let n = self.pixels.len();
        proof {
            assert(self.width * self.height == self.height * self.width) by (nonlinear_arith);
            lemma_mul_inequality(y as int + 1, self.height as int, self.width as int);
            assert((y as int + 1) * self.width == y as int * self.width + self.width) by (nonlinear_arith);
        }
        let k: usize = y as usize * self.width as usize + x as usize;
        Some(self.pixels[k])
    }

    /// Writes the samples of one window, laid out row by row, at the window's
    /// place in the image.
    ///
    /// Fails with `OutOfBoundsWrite`, leaving the image as it was, when the
    /// window is empty or reaches outside the image, or when the number of
    /// samples is not the number of pixels of the window.
    pub fn write_tile(&mut self, tile: Tile, samples: &Vec<T>) -> (r: Result<(), ExportError>)
        requires
            old(self).wf(),
        ensures
            final(self).wf(),
            final(self).spec_width() == old(self).spec_width(),
            final(self).spec_height() == old(self).spec_height(),
            r is Ok <==> tile_fits(tile, old(self).spec_width() as int, old(self).spec_height() as int)
                && samples@.len() == tile.width * tile.height,
            r is Err ==> r == Err::<(), ExportError>(ExportError::OutOfBoundsWrite) && final(self)@ == old(self)@,
            r is Ok ==> final(self)@ == written(old(self)@, old(self).spec_width() as int, tile, samples@),
    {
        let w = self.width;
        let h = self.height;
        if tile.width == 0 || tile.height == 0 || tile.x_offset > w || tile.width > w - tile.x_offset
            || tile.y_offset > h || tile.height > h - tile.y_offset {
            return Err(ExportError::OutOfBoundsWrite);
        }
        let tw: usize = tile.width as usize;
        let th: usize = tile.height as usize;
        let n = self.pixels.len();
        proof {
            lemma_mul_inequality(tile.height as int, h as int, tile.width as int);
            lemma_mul_inequality(tile.width as int, w as int, h as int);
            assert(tile.width * h == h * tile.width) by (nonlinear_arith);
            assert(w * h == h * w) by (nonlinear_arith);
        }
        if samples.len() != tw * th {
            return Err(ExportError::OutOfBoundsWrite);
        }
        assert(th * tw == tw * th) by (nonlinear_arith);
        let ghost before = self.pixels@;
        let ghost wi = w as int;
        let xo: usize = tile.x_offset as usize;
        let yo: usize = tile.y_offset as usize;
        let mut r: usize = 0;
        while r < th
            invariant
                0 <= r <= th,
                w == self.width,
                h == self.height,
                wi == w as int,
                tw == tile.width,
                th == tile.height,
                xo == tile.x_offset,
                yo == tile.y_offset,
                tile_fits(tile, w as int, h as int),
                samples@.len() == tw * th,
                tw * th <= usize::MAX,
                th * tw == tw * th,
                before.len() == w * h,
                h * w == w * h,
                before.len() <= usize::MAX,
                self.pixels@.len() == before.len(),
                forall|k: int| 0 <= k < before.len() ==> #[trigger] self.pixels@[k] == if tile_contains(tile, col_of(k, wi), row_of(k, wi))
                    && row_of(k, wi) - yo < r {
                    sample_for(wi, tile, samples@, k)
                } else {
                    before[k]
                },
            decreases th - r,
        {
            let mut c: usize = 0;
            while c < tw
                invariant
                    0 <= r < th,
                    0 <= c <= tw,
                    w == self.width,
                    h == self.height,
                    wi == w as int,
                    tw == tile.width,
                    th == tile.height,
                    xo == tile.x_offset,
                    yo == tile.y_offset,
                    tile_fits(tile, w as int, h as int),
                    samples@.len() == tw * th,
                    tw * th <= usize::MAX,
                    th * tw == tw * th,
                    before.len() == w * h,
                    h * w == w * h,
                    before.len() <= usize::MAX,
                    self.pixels@.len() == before.len(),
                    forall|k: int| 0 <= k < before.len() ==> #[trigger] self.pixels@[k] == if tile_contains(tile, col_of(k, wi), row_of(k, wi))
                        && (row_of(k, wi) - yo < r || (row_of(k, wi) - yo == r && col_of(k, wi) - xo < c)) {
                        sample_for(wi, tile, samples@, k)
                    } else {
                        before[k]
                    },
                decreases tw - c,
            {
                let ghost row = yo + r;
                let ghost col = xo + c;
                proof {
                    lemma_mul_inequality(row + 1, h as int, w as int);
                    assert((row + 1) * w == row * w + w) by (nonlinear_arith);
                    lemma_mul_inequality(r as int + 1, th as int, tw as int);
                    assert((r as int + 1) * tw == r * tw + tw) by (nonlinear_arith);
                }
                let k: usize = (yo + r) * (w as usize) + xo + c;
                let s: usize = r * tw + c;
                let v = samples[s];
                proof {
                    lemma_fundamental_div_mod_converse(k as int, wi, row, col);
                }
                self.pixels.set(k, v);
                proof {
                    assert forall|q: int| 0 <= q < before.len() implies #[trigger] self.pixels@[q] == if tile_contains(tile, col_of(q, wi), row_of(q, wi))
                        && (row_of(q, wi) - yo < r || (row_of(q, wi) - yo == r && col_of(q, wi) - xo < c + 1)) {
                        sample_for(wi, tile, samples@, q)
                    } else {
                        before[q]
                    } by {
                        if q != k {
                            lemma_fundamental_div_mod(q, wi);
                            if row_of(q, wi) == row && col_of(q, wi) == col {
                                assert(q == row * wi + col) by (nonlinear_arith)
                                    requires
                                        q == wi * (q / wi) + q % wi,
                                        q / wi == row,
                                        q % wi == col,
                                ;
                            }
                        }
                    }
                }
                c = c + 1;
            }
            r = r + 1;
        }
        proof {
            assert forall|k: int| 0 <= k < before.len() implies #[trigger] self.pixels@[k] == written(before, wi, tile, samples@)[k] by {
                lemma_mod_bound(k, wi);
            }
            assert(self.pixels@ =~= written(before, wi, tile, samples@));
        }
        Ok(())
    }

    /// The image as RGB channel values, pixel after pixel, each gray value
    /// repeated in the red, green and blue channel.
    pub fn to_rgb(&self) -> (r: Vec<T>)
        requires
            self.wf(),
            3 * self@.len() <= usize::MAX,
        ensures
            r@.len() == 3 * self@.len(),
            forall|k: int, c: int| 0 <= k < self@.len() && 0 <= c < 3 ==> #[trigger] r@[3 * k + c] == self@[k],
    {
        let n = self.pixels.len();
        let mut out: Vec<T> = Vec::with_capacity(3 * n);
        let mut k: usize = 0;
        while k < n
            invariant
                0 <= k <= n,
                n == self@.len(),
                3 * n <= usize::MAX,
                out@.len() == 3 * k,
                forall|q: int, c: int| 0 <= q < k && 0 <= c < 3 ==> #[trigger] out@[3 * q + c] == self@[q],
            decreases n - k,
        {
            let v = self.pixels[k];
            out.push(v);
            out.push(v);
            out.push(v);
            k = k + 1;
        }
        out
    }
}

/// Writing windows in order keeps the number of pixels.
pub proof fn lemma_written_all_len<T>(pixels: Seq<T>, width: int, tiles: Seq<Tile>, samples: Seq<Seq<T>>)
    ensures
        written_all(pixels, width, tiles, samples).len() == pixels.len(),
    decreases tiles.len(),
{
    if tiles.len() > 0 {
        lemma_written_all_len(pixels, width, tiles.drop_last(), samples.drop_last());
    }
}

/// A pass of windows overwrites what lay before it: wherever the windows
/// cover a pixel, the pixel's final value is the same whatever the image held
/// before the pass. Of two bands written one after the other over the same
/// grid, the image thus shows the second alone, with nothing of the first.
pub proof fn lemma_pass_overwrites<T>(a: Seq<T>, b: Seq<T>, width: int, tiles: Seq<Tile>, samples: Seq<Seq<T>>)
    requires
        width >= 1,
        a.len() == b.len(),
    ensures
        forall|k: int| 0 <= k < a.len() && #[trigger] covered_by(tiles, col_of(k, width), row_of(k, width))
            ==> written_all(a, width, tiles, samples)[k] == written_all(b, width, tiles, samples)[k],
    decreases tiles.len(),
{
    if tiles.len() > 0 {
        let prefix = tiles.drop_last();
        let last = tiles.last();
        lemma_pass_overwrites(a, b, width, prefix, samples.drop_last());
        lemma_written_all_len(a, width, prefix, samples.drop_last());
        lemma_written_all_len(b, width, prefix, samples.drop_last());
        assert forall|k: int| 0 <= k < a.len() && #[trigger] covered_by(tiles, col_of(k, width), row_of(k, width))
            implies written_all(a, width, tiles, samples)[k] == written_all(b, width, tiles, samples)[k] by {
            if !tile_contains(last, col_of(k, width), row_of(k, width)) {
                let t = choose|t: int| 0 <= t < tiles.len() && #[trigger] tile_contains(tiles[t], col_of(k, width), row_of(k, width));
                assert(prefix[t] == tiles[t]);
                assert(covered_by(prefix, col_of(k, width), row_of(k, width)));
            }
        }
    }
}

/// A pass whose windows all carry the single value `c` leaves `c` on every
/// pixel that the windows cover.
pub proof fn lemma_pass_uniform<T>(pixels: Seq<T>, width: int, tiles: Seq<Tile>, samples: Seq<Seq<T>>, c: T)
    requires
        width >= 1,
        samples.len() == tiles.len(),
        forall|i: int| 0 <= i < tiles.len() ==> (#[trigger] samples[i]).len() == tiles[i].width * tiles[i].height,
        forall|i: int, p: int| 0 <= i < tiles.len() && 0 <= p < samples[i].len() ==> #[trigger] samples[i][p] == c,
    ensures
        forall|k: int| 0 <= k < pixels.len() && #[trigger] covered_by(tiles, col_of(k, width), row_of(k, width))
            ==> written_all(pixels, width, tiles, samples)[k] == c,
    decreases tiles.len(),
{
    if tiles.len() > 0 {
        let n = tiles.len() - 1;
        let prefix = tiles.drop_last();
        let last = tiles.last();
        let prefix_samples = samples.drop_last();
        assert forall|i: int| 0 <= i < prefix.len() implies (#[trigger] prefix_samples[i]).len() == prefix[i].width * prefix[i].height by {
            assert(prefix_samples[i] == samples[i]);
            assert(prefix[i] == tiles[i]);
        }
        assert forall|i: int, p: int| 0 <= i < prefix.len() && 0 <= p < prefix_samples[i].len() implies #[trigger] prefix_samples[i][p] == c by {
            assert(prefix_samples[i] == samples[i]);
        }
        lemma_pass_uniform(pixels, width, prefix, prefix_samples, c);
        lemma_written_all_len(pixels, width, prefix, prefix_samples);
        assert forall|k: int| 0 <= k < pixels.len() && #[trigger] covered_by(tiles, col_of(k, width), row_of(k, width))
            implies written_all(pixels, width, tiles, samples)[k] == c by {
            let col = col_of(k, width);
            let row = row_of(k, width);
            if tile_contains(last, col, row) {
                let dy = row - last.y_offset;
                let dx = col - last.x_offset;
                let tw = last.width as int;
                let th = last.height as int;
                assert(samples[n].len() == tw * th);
                assert(0 <= dy * tw + dx < tw * th) by (nonlinear_arith)
                    requires
                        0 <= dy < th,
                        0 <= dx < tw,
                ;
            } else {
                let t = choose|t: int| 0 <= t < tiles.len() && #[trigger] tile_contains(tiles[t], col, row);
                assert(prefix[t] == tiles[t]);
                assert(covered_by(prefix, col, row));
            }
        }
    }
}

} // verus!
