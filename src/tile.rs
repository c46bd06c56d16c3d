//! Partitioning of a raster into a grid of read windows.
use vstd::prelude::*;
use vstd::arithmetic::div_mod::*;
use vstd::arithmetic::mul::*;

use crate::error::ExportError;

verus! {

/// One read window, in raster pixel coordinates.
#[derive(Debug, Clone, Copy, PartialEq, Eq, Structural)]
pub struct Tile {
    pub x_offset: u32,
    pub y_offset: u32,
    pub width: u32,
    pub height: u32,
}

/// Whether pixel `(x, y)` lies inside `t`.
pub open spec fn tile_contains(t: Tile, x: int, y: int) -> bool {
    &&& t.x_offset <= x < t.x_offset + t.width
    &&& t.y_offset <= y < t.y_offset + t.height
}

/// Whether some window of `tiles` contains pixel `(x, y)`.
pub open spec fn covered_by(tiles: Seq<Tile>, x: int, y: int) -> bool {
    exists|t: int| 0 <= t < tiles.len() && #[trigger] tile_contains(tiles[t], x, y)
}

/// Whether `t` is non-empty and lies inside a `width` by `height` raster.
pub open spec fn tile_fits(t: Tile, width: int, height: int) -> bool {
    &&& t.width > 0
    &&& t.height > 0
    &&& t.x_offset + t.width <= width
    &&& t.y_offset + t.height <= height
}

/// Number of windows along an axis of length `dim` cut in steps of `base`.
pub open spec fn axis_count(dim: int, base: int) -> int {
    dim / base
}

/// Length of window `k` along an axis: `base`, except the last window, which
/// absorbs the remainder of the axis.
pub open spec fn axis_len(dim: int, base: int, k: int) -> int {
    if k + 1 == axis_count(dim, base) {
        dim - k * base
    } else {
        base
    }
}

/// Base window size along an axis of length `dim`.
pub open spec fn base_size(dim: int, scale_factor: int) -> int {
    dim / scale_factor
}

/// The window in column `i` and row `j` of the grid.
pub open spec fn grid_tile(width: int, height: int, bw: int, bh: int, i: int, j: int) -> Tile {
    Tile {
        x_offset: (i * bw) as u32,
        y_offset: (j * bh) as u32,
        width: axis_len(width, bw, i) as u32,
        height: axis_len(height, bh, j) as u32,
    }
}

/// The grid of windows for a raster and a scale factor, row by row from the
/// top, each row from left to right.
pub open spec fn tile_grid(width: int, height: int, scale_factor: int) -> Seq<Tile> {
    let bw = base_size(width, scale_factor);
    let bh = base_size(height, scale_factor);
    let nx = axis_count(width, bw);
    let ny = axis_count(height, bh);
    Seq::new((nx * ny) as nat, |t: int| grid_tile(width, height, bw, bh, t % nx, t / nx))
}

/// Whether `scale_factor` yields non-empty windows on a `width` by `height` raster.
pub open spec fn valid_scale(width: int, height: int, scale_factor: int) -> bool {
    &&& scale_factor >= 1
    &&& base_size(width, scale_factor) >= 1
    &&& base_size(height, scale_factor) >= 1
}

proof fn lemma_axis(dim: int, base: int)
    requires
        1 <= base <= dim,
    ensures
        axis_count(dim, base) >= 1,
        (axis_count(dim, base) - 1) * base + base <= dim,
        dim < (axis_count(dim, base) - 1) * base + 2 * base,
        forall|k: int| 0 <= k < axis_count(dim, base) ==> #[trigger] (k * base) + axis_len(dim, base, k) <= dim,
        forall|k: int| 0 <= k < axis_count(dim, base) ==> #[trigger] axis_len(dim, base, k) >= base,
        forall|k: int| 0 <= k < axis_count(dim, base) ==> 0 <= #[trigger] (k * base) <= dim,
{
    let n = axis_count(dim, base);
    lemma_fundamental_div_mod(dim, base);
    lemma_mod_bound(dim, base);
    lemma_div_pos_is_pos(dim, base);
    lemma_div_is_ordered(base, dim, base);
    lemma_div_by_self(base);
    assert((n - 1) * base + base == n * base) by (nonlinear_arith);
    assert forall|k: int| 0 <= k < n implies #[trigger] (k * base) + axis_len(dim, base, k) <= dim && 0 <= k * base <= dim by {
        lemma_mul_inequality(k, n - 1, base);
        lemma_mul_nonnegative(k, base);
        if k + 1 != n {
            lemma_mul_inequality(k + 1, n - 1, base);
            assert((k + 1) * base == k * base + base) by (nonlinear_arith);
        }
    }
    assert forall|k: int| 0 <= k < n implies #[trigger] axis_len(dim, base, k) >= base by {
        if k + 1 == n {
            assert(dim - k * base == dim - n * base + base) by (nonlinear_arith) requires k + 1 == n;
        }
    }
}

/// The window index along an axis that covers coordinate `x`.
proof fn lemma_axis_cover(dim: int, base: int, x: int) -> (k: int)
    requires
        1 <= base <= dim,
        0 <= x < dim,
    ensures
        0 <= k < axis_count(dim, base),
        k * base <= x < k * base + axis_len(dim, base, k),
{
    lemma_axis(dim, base);
    let n = axis_count(dim, base);
    lemma_fundamental_div_mod(x, base);
    lemma_mod_bound(x, base);
    lemma_div_is_ordered(x, dim, base);
    lemma_div_pos_is_pos(base, base);
    let q = x / base;
    if q < n - 1 {
        assert(q * base == base * q) by (nonlinear_arith);
        assert((q + 1) * base == q * base + base) by (nonlinear_arith);
        q
    } else {
        let k = n - 1;
        lemma_mul_inequality(k, q, base);
        assert(q * base == base * q) by (nonlinear_arith);
        k
    }
}

/// At most one window along an axis covers coordinate `x`.
proof fn lemma_axis_unique(dim: int, base: int, x: int, k1: int, k2: int)
    requires
        1 <= base <= dim,
        0 <= k1 < axis_count(dim, base),
        0 <= k2 < axis_count(dim, base),
        k1 * base <= x < k1 * base + axis_len(dim, base, k1),
        k2 * base <= x < k2 * base + axis_len(dim, base, k2),
    ensures
        k1 == k2,
{
    if k1 < k2 {
        lemma_mul_inequality(k1 + 1, k2, base);
        assert((k1 + 1) * base == k1 * base + base) by (nonlinear_arith);
    } else if k2 < k1 {
        lemma_mul_inequality(k2 + 1, k1, base);
        assert((k2 + 1) * base == k2 * base + base) by (nonlinear_arith);
    }
}

proof fn lemma_index_split(t: int, nx: int, ny: int)
    requires
        nx >= 1,
        0 <= t < nx * ny,
    ensures
        0 <= t % nx < nx,
        0 <= t / nx < ny,
        t == (t / nx) * nx + t % nx,
{
    lemma_fundamental_div_mod(t, nx);
    lemma_mod_bound(t, nx);
    lemma_div_pos_is_pos(t, nx);
    assert(nx * (t / nx) == (t / nx) * nx) by (nonlinear_arith);
    if t / nx >= ny {
        lemma_mul_inequality(ny, t / nx, nx);
        assert(ny * nx == nx * ny) by (nonlinear_arith);
    }
}

proof fn lemma_index_join(i: int, j: int, nx: int, ny: int)
    requires
        0 <= i < nx,
        0 <= j < ny,
    ensures
        0 <= j * nx + i < nx * ny,
        (j * nx + i) % nx == i,
        (j * nx + i) / nx == j,
{
    lemma_fundamental_div_mod_converse(j * nx + i, nx, j, i);
    lemma_mul_inequality(j + 1, ny, nx);
    lemma_mul_nonnegative(j, nx);
    assert((j + 1) * nx == j * nx + nx) by (nonlinear_arith);
    assert(ny * nx == nx * ny) by (nonlinear_arith);
}

/// Every window of a valid grid is non-empty and lies inside the raster.
pub proof fn lemma_tiles_fit(width: int, height: int, scale_factor: int)
    requires
        0 <= width <= u32::MAX,
        0 <= height <= u32::MAX,
        valid_scale(width, height, scale_factor),
    ensures
        forall|t: int| 0 <= t < tile_grid(width, height, scale_factor).len()
            ==> tile_fits(#[trigger] tile_grid(width, height, scale_factor)[t], width, height),
{
    let bw = base_size(width, scale_factor);
    let bh = base_size(height, scale_factor);
    let nx = axis_count(width, bw);
    let ny = axis_count(height, bh);
    lemma_div_basics(width);
    lemma_div_is_ordered_by_denominator(width, 1, scale_factor);
    lemma_div_basics(height);
    lemma_div_is_ordered_by_denominator(height, 1, scale_factor);
    lemma_axis(width, bw);
    lemma_axis(height, bh);
    let g = tile_grid(width, height, scale_factor);
    assert forall|t: int| 0 <= t < g.len() implies tile_fits(#[trigger] g[t], width, height) by {
        lemma_index_split(t, nx, ny);
        let i = t % nx;
        let j = t / nx;
        assert(i * bw + axis_len(width, bw, i) <= width);
        assert(j * bh + axis_len(height, bh, j) <= height);
        assert(axis_len(width, bw, i) >= bw);
        assert(axis_len(height, bh, j) >= bh);
        assert(0 <= i * bw <= width);
        assert(0 <= j * bh <= height);
    }
}

/// A scale factor that yields non-empty windows is at most each dimension.
pub proof fn lemma_valid_scale_bounds(width: int, height: int, scale_factor: int)
    requires
        0 <= width,
        0 <= height,
        valid_scale(width, height, scale_factor),
    ensures
        1 <= scale_factor <= width,
        scale_factor <= height,
{
    if width < scale_factor {
        lemma_basic_div(width, scale_factor);
    }
    if height < scale_factor {
        lemma_basic_div(height, scale_factor);
    }
}

/// The windows of a valid grid cover every pixel of the raster exactly once:
/// each pixel lies in some window, no pixel lies in two, and no window
/// reaches outside the raster.
pub proof fn lemma_partition_covers(width: u32, height: u32, scale_factor: int)
    requires
        1 <= scale_factor <= width,
        scale_factor <= height,
    ensures
        valid_scale(width as int, height as int, scale_factor),
        forall|x: int, y: int| 0 <= x < width && 0 <= y < height
            ==> #[trigger] covered_by(tile_grid(width as int, height as int, scale_factor), x, y),
        forall|t1: int, t2: int, x: int, y: int|
            0 <= t1 < tile_grid(width as int, height as int, scale_factor).len()
                && 0 <= t2 < tile_grid(width as int, height as int, scale_factor).len()
                && #[trigger] tile_contains(tile_grid(width as int, height as int, scale_factor)[t1], x, y)
                && #[trigger] tile_contains(tile_grid(width as int, height as int, scale_factor)[t2], x, y)
                ==> t1 == t2,
        forall|t: int, x: int, y: int|
            0 <= t < tile_grid(width as int, height as int, scale_factor).len()
                && #[trigger] tile_contains(tile_grid(width as int, height as int, scale_factor)[t], x, y)
                ==> 0 <= x < width && 0 <= y < height,
{
    let w = width as int;
    let h = height as int;
    lemma_div_is_ordered(scale_factor, w, scale_factor);
    lemma_div_is_ordered(scale_factor, h, scale_factor);
    lemma_div_by_self(scale_factor);
    lemma_tiles_fit(w, h, scale_factor);
    let bw = base_size(w, scale_factor);
    let bh = base_size(h, scale_factor);
    lemma_div_basics(w);
    lemma_div_basics(h);
    lemma_div_is_ordered_by_denominator(w, 1, scale_factor);
    lemma_div_is_ordered_by_denominator(h, 1, scale_factor);
    lemma_axis(w, bw);
    lemma_axis(h, bh);
    let nx = axis_count(w, bw);
    let ny = axis_count(h, bh);
    let g = tile_grid(w, h, scale_factor);
    assert forall|x: int, y: int| 0 <= x < width && 0 <= y < height implies #[trigger] covered_by(g, x, y) by {
        let i = lemma_axis_cover(w, bw, x);
        let j = lemma_axis_cover(h, bh, y);
        lemma_index_join(i, j, nx, ny);
        let t = j * nx + i;
        assert(tile_contains(g[t], x, y));
    }
    assert forall|t1: int, t2: int, x: int, y: int|
        0 <= t1 < g.len() && 0 <= t2 < g.len()
            && #[trigger] tile_contains(g[t1], x, y) && #[trigger] tile_contains(g[t2], x, y)
        implies t1 == t2 by {
        lemma_index_split(t1, nx, ny);
        lemma_index_split(t2, nx, ny);
        assert(tile_fits(g[t1], w, h));
        assert(tile_fits(g[t2], w, h));
        lemma_axis_unique(w, bw, x, t1 % nx, t2 % nx);
        lemma_axis_unique(h, bh, y, t1 / nx, t2 / nx);
    }
    assert forall|t: int, x: int, y: int|
        0 <= t < g.len() && #[trigger] tile_contains(g[t], x, y)
        implies 0 <= x < width && 0 <= y < height by {
        assert(tile_fits(g[t], w, h));
    }
}

/// With a scale factor of 1 the grid is a single window equal to the whole raster.
pub proof fn lemma_unit_scale_single_tile(width: u32, height: u32)
    requires
        width >= 1,
        height >= 1,
    ensures
        tile_grid(width as int, height as int, 1) =~= seq![
            Tile { x_offset: 0, y_offset: 0, width: width, height: height },
        ],
{
    let w = width as int;
    let h = height as int;
    lemma_div_basics(w);
    lemma_div_basics(h);
    lemma_div_by_self(w);
    lemma_div_by_self(h);
    assert(base_size(w, 1) == w);
    assert(base_size(h, 1) == h);
    assert(axis_count(w, w) == 1);
    assert(axis_count(h, h) == 1);
    let g = tile_grid(w, h, 1);
    assert(g.len() == 1);
    assert(g[0] == grid_tile(w, h, w, h, 0, 0));
}

/// Cuts a `width` by `height` raster into read windows for `scale_factor`.
///
/// The base window is `width / scale_factor` by `height / scale_factor`; the
/// last window of each row and column absorbs what remains of the raster.
pub fn partition(width: u32, height: u32, scale_factor: usize) -> (r: Result<Vec<Tile>, ExportError>)
    ensures
        scale_factor == 0 ==> r == Err::<Vec<Tile>, ExportError>(ExportError::InvalidScaleFactor),
        scale_factor >= 1 && !valid_scale(width as int, height as int, scale_factor as int)
            ==> r == Err::<Vec<Tile>, ExportError>(ExportError::DegenerateTileSize),
        valid_scale(width as int, height as int, scale_factor as int) ==> r is Ok,
        r matches Ok(v) ==> v@ == tile_grid(width as int, height as int, scale_factor as int),
{
    if scale_factor == 0 {
        return Err(ExportError::InvalidScaleFactor);
    }
    let bw_wide: usize = (width as usize) / scale_factor;
    let bh_wide: usize = (height as usize) / scale_factor;
    if bw_wide == 0 || bh_wide == 0 {
        return Err(ExportError::DegenerateTileSize);
    }
    proof {
        lemma_div_basics(width as int);
        lemma_div_basics(height as int);
        lemma_div_is_ordered_by_denominator(width as int, 1, scale_factor as int);
        lemma_div_is_ordered_by_denominator(height as int, 1, scale_factor as int);
    }
    let bw: u32 = bw_wide as u32;
    let bh: u32 = bh_wide as u32;
    let nx: u32 = width / bw;
    let ny: u32 = height / bh;
    let ghost g = tile_grid(width as int, height as int, scale_factor as int);
    proof {
        lemma_tiles_fit(width as int, height as int, scale_factor as int);
        lemma_axis(width as int, bw as int);
        lemma_axis(height as int, bh as int);
    }
    let mut tiles: Vec<Tile> = Vec::new();
    let mut j: u32 = 0;
    while j < ny
        invariant
            0 <= j <= ny,
            nx >= 1,
            g.len() == nx * ny,
            tiles@.len() == j * nx,
            forall|q: int| 0 <= q < j * nx ==> #[trigger] tiles@[q] == g[q],
            j * nx <= g.len(),
            g == tile_grid(width as int, height as int, scale_factor as int),
            bw == base_size(width as int, scale_factor as int),
            bh == base_size(height as int, scale_factor as int),
            nx == axis_count(width as int, bw as int),
            ny == axis_count(height as int, bh as int),
            bw >= 1,
            bh >= 1,
            forall|k: int| 0 <= k < nx ==> 0 <= #[trigger] (k * bw) <= width,
            forall|k: int| 0 <= k < ny ==> 0 <= #[trigger] (k * bh) <= height,
            forall|k: int| 0 <= k < nx ==> #[trigger] (k * bw) + axis_len(width as int, bw as int, k) <= width,
            forall|k: int| 0 <= k < ny ==> #[trigger] (k * bh) + axis_len(height as int, bh as int, k) <= height,
        decreases ny - j,
    {
        let y_offset: u32 = j * bh;
        let tile_h: u32 = if j + 1 == ny { height - y_offset } else { bh };
        let mut i: u32 = 0;
        while i < nx
            invariant
                0 <= i <= nx,
                0 <= j < ny,
                nx >= 1,
                g.len() == nx * ny,
                tiles@.len() == j * nx + i,
                forall|q: int| 0 <= q < j * nx + i ==> #[trigger] tiles@[q] == g[q],
                j * nx + i <= g.len(),
                g == tile_grid(width as int, height as int, scale_factor as int),
                bw == base_size(width as int, scale_factor as int),
                bh == base_size(height as int, scale_factor as int),
                nx == axis_count(width as int, bw as int),
                ny == axis_count(height as int, bh as int),
                y_offset == j * bh,
                tile_h == axis_len(height as int, bh as int, j as int),
                forall|k: int| 0 <= k < nx ==> 0 <= #[trigger] (k * bw) <= width,
                forall|k: int| 0 <= k < nx ==> #[trigger] (k * bw) + axis_len(width as int, bw as int, k) <= width,
            decreases nx - i,
        {
            assert(0 <= i * bw <= width);
            let x_offset: u32 = i * bw;
            let tile_w: u32 = if i + 1 == nx { width - x_offset } else { bw };
            let tile = Tile { x_offset, y_offset, width: tile_w, height: tile_h };
            proof {
                lemma_index_join(i as int, j as int, nx as int, ny as int);
                assert(tile == g[j * nx + i]);
            }
            tiles.push(tile);
            i = i + 1;
        }
        assert((j + 1) * nx == j * nx + nx) by (nonlinear_arith);
        j = j + 1;
    }
    assert(ny * nx == nx * ny) by (nonlinear_arith);
    assert(tiles@ =~= g);
    Ok(tiles)
}

} // verus!
