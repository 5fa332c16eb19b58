//! What a rendered tile shows: a window on one plane.
//!
//! The plane is the material's field. Tile `(x, y)` shows the part of it that
//! starts `x` tiles to the right and `y` tiles down, a row of the tile along
//! a row of the plane, so tiles side by side and tiles on top of each other
//! are parts of a larger picture.

use vstd::arithmetic::div_mod::*;
use vstd::arithmetic::power2::*;
use vstd::prelude::*;

use crate::exact;
use crate::exact::Lat;
use crate::grid;
use crate::lattice;
use crate::material::{Material, Tile, TileId};
use crate::math;
use crate::seam;
use crate::smoothness;

verus! {

/// Where the sample in column `c` and row `r` of a tile stands.
pub proof fn lemma_sample_index(size: u32, c: u32, r: u32)
    requires
        c < size,
        r < size,
    ensures
        0 <= r * size + c < size * size,
        (r * size + c) % (size as int) == c,
        (r * size + c) / (size as int) == r,
{
    assert(0 <= r * size + c < size * size) by (nonlinear_arith)
        requires
            0 <= c < size,
            0 <= r < size,
    ;
    lemma_fundamental_div_mod_converse((r * size + c) as int, size as int, r as int, c as int);
}

/// The sample in column `c` and row `r` of a rendered tile, from the origins
/// that the tile's column and its row have.
proof fn lemma_rendered_from(
    m: Material,
    tile: TileId,
    size: u32,
    t: Tile,
    c: u32,
    r: u32,
    p: int,
    q: int,
)
    requires
        m.renders(tile, size, t),
        c < size,
        r < size,
        m.tile_origin(tile.x) == Lat::at(p),
        m.tile_origin(tile.y) == Lat::at(q),
    ensures
        ({
            let step = exact::pixel_step(m.frequency, size);
            t.data@[r * size + c] == exact::prepared(m).sampled(
                Lat::at(p + c * step),
                Lat::at(q + r * step),
            )
        }),
{
    let step = exact::pixel_step(m.frequency, size);
    let i = (r * size + c) as int;
    lemma_sample_index(size, c, r);
    lattice::lemma_advance_composes(0, p, c * step);
    lattice::lemma_advance_composes(0, q, r * step);
    assert(t.data@[i] == m.pixel(tile, size, i));
}

/// A rendered tile is a window on the plane: at a frequency of a whole number
/// of steps, the sample in column `c` and row `r` of tile `(x, y)` is the
/// material `x` tiles and `c` pixels to the right of the origin and `y` tiles
/// and `r` pixels below it.
pub proof fn lemma_rendered_window(
    m: Material,
    tile: TileId,
    size: u32,
    steps: int,
    t: Tile,
    c: u32,
    r: u32,
)
    requires
        m.renders(tile, size, t),
        grid::on_grid(m, tile.x, steps),
        grid::on_grid(m, tile.y, steps),
        c < size,
        r < size,
    ensures
        ({
            let step = exact::pixel_step(m.frequency, size);
            t.data@[r * size + c] == exact::prepared(m).sampled(
                Lat::at(tile.x * steps + c * step),
                Lat::at(tile.y * steps + r * step),
            )
        }),
{
    grid::lemma_tile_origin(m, tile.x, steps);
    grid::lemma_tile_origin(m, tile.y, steps);
    lemma_rendered_from(m, tile, size, t, c, r, tile.x * steps, tile.y * steps);
}

/// The window at any finite frequency: it starts where the tile's column and
/// row put it, up to a step and three parts in 2^53 along each axis.
pub proof fn lemma_rendered_window_close(
    m: Material,
    tile: TileId,
    size: u32,
    t: Tile,
    c: u32,
    r: u32,
) -> (o: (int, int))
    requires
        m.renders(tile, size, t),
        m.frequency.biased() != 255,
        smoothness::distance(tile.x * seam::weight(m.frequency)) <= pow2(211),
        smoothness::distance(tile.y * seam::weight(m.frequency)) <= pow2(211),
        c < size,
        r < size,
    ensures
        ({
            let step = exact::pixel_step(m.frequency, size);
            t.data@[r * size + c] == exact::prepared(m).sampled(
                Lat::at(o.0 + c * step),
                Lat::at(o.1 + r * step),
            )
        }),
        ({
            let x = tile.x * seam::weight(m.frequency);
            smoothness::distance(o.0 * pow2(122) - x) * pow2(53) <= 3 * smoothness::distance(x)
                + pow2(175)
        }),
        ({
            let y = tile.y * seam::weight(m.frequency);
            smoothness::distance(o.1 * pow2(122) - y) * pow2(53) <= 3 * smoothness::distance(y)
                + pow2(175)
        }),
{
    let p = seam::lemma_origin_close(m, tile.x);
    let q = seam::lemma_origin_close(m, tile.y);
    lemma_rendered_from(m, tile, size, t, c, r, p, q);
    (p, q)
}

/// Tiles go on where others end: a tile at twice the frequency and twice the
/// size shows four tiles, two side by side and two on top of each other. Tile
/// `(2x + a, 2y + b)` is the part of it that starts `a` tiles to the right
/// and `b` tiles down.
pub proof fn lemma_four_tiles_make_one(
    m: Material,
    wide: Material,
    big: TileId,
    part: TileId,
    size: u32,
    z: nat,
    step: int,
    u: Tile,
    t: Tile,
    c: u32,
    r: u32,
)
    requires
        size == pow2(z),
        2 * size <= u32::MAX,
        math::fits_i32(step),
        grid::worth_steps(m.frequency, size * step),
        grid::worth_steps(wide.frequency, 2 * size * step),
        wide == (Material { frequency: wide.frequency, ..m }),
        0 <= part.x - 2 * big.x <= 1,
        0 <= part.y - 2 * big.y <= 1,
        grid::on_grid(wide, big.x, 2 * size * step),
        grid::on_grid(wide, big.y, 2 * size * step),
        grid::on_grid(m, part.x, size * step),
        grid::on_grid(m, part.y, size * step),
        wide.renders(big, (2 * size) as u32, u),
        m.renders(part, size, t),
        c < size,
        r < size,
    ensures
        ({
            let (a, b) = (part.x - 2 * big.x, part.y - 2 * big.y);
            u.data@[(b * size + r) * (2 * size) + (a * size + c)] == t.data@[r * size + c]
        }),
{
    let (a, b) = (part.x - 2 * big.x, part.y - 2 * big.y);
    let steps = size * step;
    assert(2 * size * step == 2 * steps) by (nonlinear_arith)
        requires
            steps == size * step,
    ;
    lemma_pow2_unfold(z + 1);
    grid::lemma_even_step(m.frequency, size, z, step);
    grid::lemma_even_step(wide.frequency, (2 * size) as u32, z + 1, step);
    let (gc, gr) = ((a * size + c) as u32, (b * size + r) as u32);
    assert(0 <= a * size + c < 2 * size && 0 <= b * size + r < 2 * size) by (nonlinear_arith)
        requires
            0 <= a <= 1,
            0 <= b <= 1,
            0 <= c < size,
            0 <= r < size,
    ;
    lemma_rendered_window(m, part, size, steps, t, c, r);
    lemma_rendered_window(wide, big, (2 * size) as u32, 2 * steps, u, gc, gr);
    lemma_same_place(big.x as int, a, size as int, c as int, step);
    lemma_same_place(big.y as int, b, size as int, r as int, step);
    assert(exact::prepared(wide) == exact::prepared(m));
}

/// The same place of the plane, counted in large tiles and in small ones.
proof fn lemma_same_place(x: int, a: int, size: int, c: int, step: int)
    ensures
        x * (2 * (size * step)) + (a * size + c) * step == (2 * x + a) * (size * step) + c * step,
{
    let steps = size * step;
    assert(x * (2 * steps) == (2 * x) * steps) by (nonlinear_arith);
    assert((2 * x + a) * steps == (2 * x) * steps + a * steps) by (nonlinear_arith);
    assert((a * size + c) * step == a * steps + c * step) by (nonlinear_arith)
        requires
            steps == size * step,
    ;
}

/// Where the pixels divide the frequency evenly, the columns and the rows of
/// a tile go on in the tiles to the right of it and below it: column `n` of
/// the one is column `size + n` of the other, and row `n` is row `size + n`.
pub proof fn lemma_rows_and_columns_go_on(
    m: Material,
    tile: TileId,
    size: u32,
    steps: int,
    c: u32,
    r: u32,
)
    requires
        c < size,
        r < size,
        tile.x < i64::MAX,
        tile.y < i64::MAX,
        size * exact::pixel_step(m.frequency, size) == steps,
        grid::on_grid(m, tile.x, steps),
        grid::on_grid(m, tile.y, steps),
        grid::on_grid(m, (tile.x + 1) as i64, steps),
        grid::on_grid(m, (tile.y + 1) as i64, steps),
    ensures
        ({
            let step = exact::pixel_step(m.frequency, size);
            let i = r * size + c;
            let right = TileId { x: (tile.x + 1) as i64, y: tile.y };
            let below = TileId { x: tile.x, y: (tile.y + 1) as i64 };
            &&& m.pixel_x(right, size, i) == Lat::at(tile.x * steps + (size + c) * step)
            &&& m.pixel_y(right, size, i) == m.pixel_y(tile, size, i)
            &&& m.pixel_y(below, size, i) == Lat::at(tile.y * steps + (size + r) * step)
            &&& m.pixel_x(below, size, i) == m.pixel_x(tile, size, i)
        }),
{
    let step = exact::pixel_step(m.frequency, size);
    lemma_sample_index(size, c, r);
    grid::lemma_tile_origin(m, (tile.x + 1) as i64, steps);
    grid::lemma_tile_origin(m, (tile.y + 1) as i64, steps);
    lattice::lemma_advance_composes(0, (tile.x + 1) * steps, c * step);
    lattice::lemma_advance_composes(0, (tile.y + 1) * steps, r * step);
    assert((tile.x + 1) * steps + c * step == tile.x * steps + (size + c) * step)
        by (nonlinear_arith)
        requires
            size * step == steps,
    ;
    assert((tile.y + 1) * steps + r * step == tile.y * steps + (size + r) * step)
        by (nonlinear_arith)
        requires
            size * step == steps,
    ;
}

/// A tile can be rendered if it has fewer than 2^16 rows and the format holds
/// the sample in each column of each of them.
pub proof fn lemma_tile_fits_throughout(m: Material, tile: TileId, size: u32)
    ensures
        m.tile_fits(tile, size) <==> size < 0x1_0000 && forall|c: u32, r: u32|
            c < size && r < size ==> #[trigger] sample_fits(m, tile, size, c, r),
{
    let s = size as int;
    if size >= 0x1_0000 {
        assert(s * s >= 0x1_0000_0000) by (nonlinear_arith)
            requires
                s >= 0x1_0000,
        ;
    } else {
        assert(0 <= s * s <= 0xffff * 0xffff) by (nonlinear_arith)
            requires
                0 <= s < 0x1_0000,
        ;
        if m.tile_fits(tile, size) {
            assert forall|c: u32, r: u32| c < size && r < size implies #[trigger] sample_fits(
                m,
                tile,
                size,
                c,
                r,
            ) by {
                lemma_sample_index(size, c, r);
                assert(m.pixel_fits(tile, size, r * size + c));
            }
        }
        if forall|c: u32, r: u32|
            c < size && r < size ==> #[trigger] sample_fits(m, tile, size, c, r) {
            assert forall|i: int| 0 <= i < s * s implies #[trigger] m.pixel_fits(tile, size, i) by {
                lemma_fundamental_div_mod(i, s);
                lemma_mod_bound(i, s);
                assert(0 <= i / s < s) by (nonlinear_arith)
                    requires
                        0 <= i < s * s,
                        i == s * (i / s) + i % s,
                        0 <= i % s < s,
                ;
                assert(sample_fits(m, tile, size, (i % s) as u32, (i / s) as u32));
            }
        }
    }
}

/// The format holds the sample in column `c` and row `r` of a tile.
pub open spec fn sample_fits(m: Material, tile: TileId, size: u32, c: u32, r: u32) -> bool {
    let step = exact::pixel_step(m.frequency, size);
    exact::prepared(m).fits(
        Lat::at(m.tile_origin(tile.x).position() + c * step),
        Lat::at(m.tile_origin(tile.y).position() + r * step),
    )
}

} // verus!
