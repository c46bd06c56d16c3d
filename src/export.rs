//! The export as a state machine: band after band, it asks for the band's
//! statistics, then for each window of the grid in turn, and writes what it is
//! handed into the output image; after the last band it asks for the encode.
use vstd::prelude::*;
use vstd::arithmetic::div_mod::*;
use vstd::arithmetic::mul::*;

use crate::error::ExportError;
use crate::image::{col_of, row_of, written, written_all, GrayImage, lemma_pass_overwrites, lemma_pass_uniform, lemma_written_all_len};
use crate::tile::{covered_by, lemma_partition_covers, lemma_valid_scale_bounds, partition, tile_fits, tile_grid, valid_scale, Tile};

verus! {

/// What the export needs next from its caller.
#[derive(Debug, Clone, Copy, PartialEq, Eq, Structural)]
pub enum Step {
    /// Compute the statistics of band `band` (bands count from 1), then call
    /// `statistics_ready`.
    ComputeStatistics { band: u32 },
    /// Read window `tile` of band `band`, map its samples, and hand them to
    /// `accept_tile`.
    ReadTile { band: u32, tile: Tile },
    /// Every band has been written: encode the image.
    Encode,
}

/// The progress of one export and the image it fills.
pub struct Export<T> {
    image: GrayImage<T>,
    band_count: u32,
    tiles: Vec<Tile>,
    band: u64,
    next: usize,
    stats_ready: bool,
    band_start: Ghost<Seq<T>>,
    band_samples: Ghost<Seq<Seq<T>>>,
}

impl<T: Copy> Export<T> {
    /// The image being filled.
    pub closed spec fn spec_image(&self) -> GrayImage<T> {
        self.image
    }

    /// Number of bands of the raster.
    pub closed spec fn spec_band_count(&self) -> nat {
        self.band_count as nat
    }

    /// The grid of windows that each band is read in.
    pub closed spec fn spec_tiles(&self) -> Seq<Tile> {
        self.tiles@
    }

    /// The band being processed, counting from 1; one past the last band once
    /// all are done.
    pub closed spec fn spec_band(&self) -> nat {
        self.band as nat
    }

    /// Index in the grid of the next window to read.
    pub closed spec fn spec_next(&self) -> nat {
        self.next as nat
    }

    /// Whether the statistics of the current band are in.
    pub closed spec fn spec_stats_ready(&self) -> bool {
        self.stats_ready
    }

    /// The image as it stood when the current band began.
    pub closed spec fn spec_band_start(&self) -> Seq<T> {
        self.band_start@
    }

    /// The samples accepted so far in the current band, window by window.
    pub closed spec fn spec_band_samples(&self) -> Seq<Seq<T>> {
        self.band_samples@
    }

    /// The state is consistent: the grid is non-empty and lies inside the
    /// image, and the counters are in range.
    pub open spec fn wf(&self) -> bool {
        &&& self.spec_image().wf()
        &&& self.spec_tiles().len() >= 1
        &&& forall|t: int| 0 <= t < self.spec_tiles().len() ==> tile_fits(
            #[trigger] self.spec_tiles()[t],
            self.spec_image().spec_width() as int,
            self.spec_image().spec_height() as int,
        )
        &&& self.spec_next() < self.spec_tiles().len()
        &&& 1 <= self.spec_band() <= self.spec_band_count() + 1
        &&& self.spec_band() > self.spec_band_count() ==> self.spec_next() == 0 && !self.spec_stats_ready()
        &&& self.spec_band_samples().len() == self.spec_next()
        &&& self.spec_band_start().len() == self.spec_image()@.len()
        &&& self.spec_image()@ == written_all(
            self.spec_band_start(),
            self.spec_image().spec_width() as int,
            self.spec_tiles().take(self.spec_next() as int),
            self.spec_band_samples(),
        )
    }

    /// The step that the state asks for.
    pub open spec fn spec_step(&self) -> Step {
        if self.spec_band() > self.spec_band_count() {
            Step::Encode
        } else if !self.spec_stats_ready() {
            Step::ComputeStatistics { band: self.spec_band() as u32 }
        } else {
            Step::ReadTile { band: self.spec_band() as u32, tile: self.spec_tiles()[self.spec_next() as int] }
        }
    }

    /// Starts the export of a `width` by `height` raster with `band_count`
    /// bands, read in windows cut for `scale_factor`, into an image whose
    /// pixels all start as `fill`.
    ///
    /// Fails as `partition` does on the scale factor.
    pub fn new(width: u32, height: u32, band_count: u32, scale_factor: usize, fill: T) -> (r: Result<Export<T>, ExportError>)
        requires
            3 * (width as int * height as int) <= usize::MAX,
        ensures
            scale_factor == 0 ==> r == Err::<Export<T>, ExportError>(ExportError::InvalidScaleFactor),
            scale_factor >= 1 && !valid_scale(width as int, height as int, scale_factor as int)
                ==> r == Err::<Export<T>, ExportError>(ExportError::DegenerateTileSize),
            valid_scale(width as int, height as int, scale_factor as int) ==> r is Ok,
            r matches Ok(e) ==> {
                &&& e.wf()
                &&& e.spec_tiles() == tile_grid(width as int, height as int, scale_factor as int)
                &&& e.spec_band_count() == band_count
                &&& e.spec_band() == 1
                &&& e.spec_next() == 0
                &&& !e.spec_stats_ready()
                &&& e.spec_band_start() == e.spec_image()@
                &&& e.spec_image().spec_width() == width
                &&& e.spec_image().spec_height() == height
                &&& forall|k: int| 0 <= k < e.spec_image()@.len() ==> #[trigger] e.spec_image()@[k] == fill
            },
    {
        let tiles = match partition(width, height, scale_factor) {
            Ok(v) => v,
            Err(e) => return Err(e),
        };
        proof {
            crate::tile::lemma_tiles_fit(width as int, height as int, scale_factor as int);
            let g = tile_grid(width as int, height as int, scale_factor as int);
            assert(g.len() >= 1) by {
                lemma_grid_nonempty(width, height, scale_factor as int);
            }
        }
        let image = GrayImage::new(width, height, fill);
        let ghost start = image@;
        Ok(Export {
            image,
            band_count,
            tiles,
            band: 1,
            next: 0,
            stats_ready: false,
            band_start: Ghost(start),
            band_samples: Ghost(Seq::empty()),
        })
    }

    /// The step that the export asks for next.
    pub fn next_step(&self) -> (r: Step)
        requires
            self.wf(),
        ensures
            r == self.spec_step(),
    {
        if self.band > self.band_count as u64 {
            Step::Encode
        } else if !self.stats_ready {
            Step::ComputeStatistics { band: self.band as u32 }
        } else {
            Step::ReadTile { band: self.band as u32, tile: self.tiles[self.next] }
        }
    }

    /// Records that the statistics of the current band are in, so that its
    /// windows can be read.
    pub fn statistics_ready(&mut self)
        requires
            old(self).wf(),
            old(self).spec_step() is ComputeStatistics,
        ensures
            final(self).wf(),
            final(self).spec_stats_ready(),
            final(self).spec_band() == old(self).spec_band(),
            final(self).spec_next() == old(self).spec_next(),
            final(self).spec_band_count() == old(self).spec_band_count(),
            final(self).spec_tiles() == old(self).spec_tiles(),
            final(self).spec_image() == old(self).spec_image(),
            final(self).spec_band_start() == old(self).spec_band_start(),
            final(self).spec_band_samples() == old(self).spec_band_samples(),
    {
        self.stats_ready = true;
    }

    /// Writes the mapped samples of the window that the current step asks
    /// for, laid out row by row, into the image, and moves on to the next
    /// window, or to the next band after the last window of the grid.
    ///
    /// Fails with `OutOfBoundsWrite`, changing nothing, when the number of
    /// samples is not the number of pixels of the window.
    pub fn accept_tile(&mut self, samples: &Vec<T>) -> (r: Result<(), ExportError>)
        requires
            old(self).wf(),
            old(self).spec_step() is ReadTile,
        ensures
            final(self).wf(),
            final(self).spec_band_count() == old(self).spec_band_count(),
            final(self).spec_tiles() == old(self).spec_tiles(),
            final(self).spec_image().spec_width() == old(self).spec_image().spec_width(),
            final(self).spec_image().spec_height() == old(self).spec_image().spec_height(),
            ({
                let tile = old(self).spec_tiles()[old(self).spec_next() as int];
                &&& r is Ok <==> samples@.len() == tile.width * tile.height
                &&& r is Err ==> r == Err::<(), ExportError>(ExportError::OutOfBoundsWrite) && *final(self) == *old(self)
                &&& r is Ok ==> final(self).spec_image()@ == written(
                    old(self).spec_image()@,
                    old(self).spec_image().spec_width() as int,
                    tile,
                    samples@,
                )
            }),
            r is Ok && old(self).spec_next() + 1 < old(self).spec_tiles().len() ==> {
                &&& final(self).spec_band() == old(self).spec_band()
                &&& final(self).spec_next() == old(self).spec_next() + 1
                &&& final(self).spec_stats_ready()
                &&& final(self).spec_band_start() == old(self).spec_band_start()
                &&& final(self).spec_band_samples() == old(self).spec_band_samples().push(samples@)
            },
            r is Ok && old(self).spec_next() + 1 == old(self).spec_tiles().len() ==> {
                &&& final(self).spec_band() == old(self).spec_band() + 1
                &&& final(self).spec_next() == 0
                &&& !final(self).spec_stats_ready()
                &&& final(self).spec_image()@ == written_all(
                    old(self).spec_band_start(),
                    old(self).spec_image().spec_width() as int,
                    old(self).spec_tiles(),
                    old(self).spec_band_samples().push(samples@),
                )
                &&& final(self).spec_band_start() == final(self).spec_image()@
                &&& final(self).spec_band_samples() == Seq::<Seq<T>>::empty()
            },
    {
        let n_tiles = self.tiles.len();
        let tile = self.tiles[self.next];
        proof {
            assert(tile_fits(self.tiles@[self.next as int], self.image.spec_width() as int, self.image.spec_height() as int));
        }
        assert(tile.width as u64 * tile.height as u64 <= 0xffff_ffff * 0xffff_ffff) by (nonlinear_arith)
            requires
                tile.width <= 0xffff_ffff,
                tile.height <= 0xffff_ffff,
        ;
        if samples.len() as u64 != tile.width as u64 * tile.height as u64 {
            return Err(ExportError::OutOfBoundsWrite);
        }
        let ghost w = self.image.spec_width() as int;
        let ghost old_tiles = self.tiles@;
        let ghost old_next = self.next as int;
        let ghost accepted = self.band_samples@.push(samples@);
        let res = self.image.write_tile(tile, samples);
        match res {
            Ok(()) => {},
            Err(e) => return Err(e),
        }
        proof {
            let taken = old_tiles.take(old_next + 1);
            assert(taken.drop_last() =~= old_tiles.take(old_next));
            assert(accepted.drop_last() =~= self.band_samples@);
            assert(taken.last() == tile);
            assert(self.image@ == written_all(self.band_start@, w, taken, accepted));
            if old_next + 1 == old_tiles.len() {
                assert(taken =~= old_tiles);
            }
        }
        self.band_samples = Ghost(accepted);
        if self.next + 1 < n_tiles {
            self.next = self.next + 1;
        } else {
            self.band = self.band + 1;
            self.next = 0;
            self.stats_ready = false;
            self.band_start = Ghost(self.image@);
            self.band_samples = Ghost(Seq::empty());
            proof {
                assert(self.tiles@.take(0) =~= Seq::<Tile>::empty());
            }
        }
        Ok(())
    }

    /// The image being filled.
    pub fn image(&self) -> (r: &GrayImage<T>)
        ensures
            *r == self.spec_image(),
    {
        &self.image
    }

    /// Ends the export and hands over the image.
    pub fn into_image(self) -> (r: GrayImage<T>)
        ensures
            r == self.spec_image(),
    {
        self.image
    }
}

/// A valid grid has at least one window.
proof fn lemma_grid_nonempty(width: u32, height: u32, scale_factor: int)
    requires
        valid_scale(width as int, height as int, scale_factor),
    ensures
        tile_grid(width as int, height as int, scale_factor).len() >= 1,
{
    lemma_div_basics(width as int);
    lemma_div_basics(height as int);
    lemma_div_is_ordered_by_denominator(width as int, 1, scale_factor);
    lemma_div_is_ordered_by_denominator(height as int, 1, scale_factor);
    lemma_valid_scale_bounds(width as int, height as int, scale_factor);
    lemma_partition_covers(width, height, scale_factor);
    assert(covered_by(tile_grid(width as int, height as int, scale_factor), 0, 0));
}

/// Every pixel of a `width` by `height` image lies in some window of a valid grid.
proof fn lemma_grid_covers_pixels(width: u32, height: u32, scale_factor: int)
    requires
        valid_scale(width as int, height as int, scale_factor),
    ensures
        forall|k: int| 0 <= k < width * height ==> #[trigger] covered_by(
            tile_grid(width as int, height as int, scale_factor),
            col_of(k, width as int),
            row_of(k, width as int),
        ),
{
    lemma_div_basics(width as int);
    lemma_div_basics(height as int);
    lemma_div_is_ordered_by_denominator(width as int, 1, scale_factor);
    lemma_div_is_ordered_by_denominator(height as int, 1, scale_factor);
    lemma_valid_scale_bounds(width as int, height as int, scale_factor);
    lemma_partition_covers(width, height, scale_factor);
    assert forall|k: int| 0 <= k < width * height implies #[trigger] covered_by(
        tile_grid(width as int, height as int, scale_factor),
        col_of(k, width as int),
        row_of(k, width as int),
    ) by {
        lemma_mod_bound(k, width as int);
        lemma_div_pos_is_pos(k, width as int);
        lemma_fundamental_div_mod(k, width as int);
        if k / (width as int) >= height {
            lemma_mul_inequality(height as int, k / (width as int), width as int);
            assert(width * height == height * width) by (nonlinear_arith);
            assert(width * (k / (width as int)) == (k / (width as int)) * width) by (nonlinear_arith);
        }
    }
}

/// Writing a whole band over a valid grid replaces the image: the result
/// does not depend on what the image held before, so after two bands the
/// image holds the second band alone, with nothing of the first.
pub proof fn lemma_band_overwrites<T>(
    width: u32,
    height: u32,
    scale_factor: int,
    before_a: Seq<T>,
    before_b: Seq<T>,
    samples: Seq<Seq<T>>,
)
    requires
        valid_scale(width as int, height as int, scale_factor),
        before_a.len() == width * height,
        before_b.len() == width * height,
    ensures
        written_all(before_a, width as int, tile_grid(width as int, height as int, scale_factor), samples)
            == written_all(before_b, width as int, tile_grid(width as int, height as int, scale_factor), samples),
{
    let g = tile_grid(width as int, height as int, scale_factor);
    lemma_grid_covers_pixels(width, height, scale_factor);
    lemma_pass_overwrites(before_a, before_b, width as int, g, samples);
    lemma_written_all_len(before_a, width as int, g, samples);
    lemma_written_all_len(before_b, width as int, g, samples);
    lemma_valid_scale_bounds(width as int, height as int, scale_factor);
    assert forall|k: int| 0 <= k < before_a.len() implies written_all(before_a, width as int, g, samples)[k]
        == written_all(before_b, width as int, g, samples)[k] by {
        assert(covered_by(g, col_of(k, width as int), row_of(k, width as int)));
    }
    assert(written_all(before_a, width as int, g, samples) =~= written_all(before_b, width as int, g, samples));
}

/// A band whose windows all carry the single value `c` leaves `c` on every
/// pixel of the image, whatever the image held before.
pub proof fn lemma_uniform_band<T>(width: u32, height: u32, scale_factor: int, before: Seq<T>, samples: Seq<Seq<T>>, c: T)
    requires
        valid_scale(width as int, height as int, scale_factor),
        before.len() == width * height,
        samples.len() == tile_grid(width as int, height as int, scale_factor).len(),
        forall|i: int| 0 <= i < samples.len() ==> (#[trigger] samples[i]).len()
            == tile_grid(width as int, height as int, scale_factor)[i].width * tile_grid(width as int, height as int, scale_factor)[i].height,
        forall|i: int, p: int| 0 <= i < samples.len() && 0 <= p < samples[i].len() ==> #[trigger] samples[i][p] == c,
    ensures
        forall|k: int| 0 <= k < width * height
            ==> #[trigger] written_all(before, width as int, tile_grid(width as int, height as int, scale_factor), samples)[k] == c,
{
    let g = tile_grid(width as int, height as int, scale_factor);
    lemma_grid_covers_pixels(width, height, scale_factor);
    lemma_valid_scale_bounds(width as int, height as int, scale_factor);
    lemma_pass_uniform(before, width as int, g, samples, c);
    assert forall|k: int| 0 <= k < width * height
        implies #[trigger] written_all(before, width as int, g, samples)[k] == c by {
        assert(covered_by(g, col_of(k, width as int), row_of(k, width as int)));
    }
}

} // verus!
