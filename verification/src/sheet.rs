//! Several tiles on one image, in rows and columns.

use vstd::arithmetic::div_mod::*;
use vstd::prelude::*;

use crate::material::Tile;
use crate::png;

verus! {

/// The length of `n` tiles of `size` pixels with `gap` pixels between them.
pub open spec fn extent(n: int, size: int, gap: int) -> int {
    n * size + (n - 1) * gap
}

/// Tiles that can be laid out in columns: they fill the rows, and each holds
/// a sample for each of as many pixels as the others.
pub open spec fn alike(tiles: Seq<Tile>, columns: int) -> bool {
    &&& columns > 0
    &&& tiles.len() > 0
    &&& tiles.len() as int % columns == 0
    &&& forall|i: int|
        0 <= i < tiles.len() ==> (#[trigger] tiles[i]).wf() && tiles[i].size == tiles[0].size
}

/// The byte at column `x` and row `y` of the image: a quantised sample, or
/// white between the tiles.
pub open spec fn sheet_pixel(tiles: Seq<Tile>, columns: int, gap: int, x: int, y: int) -> u8 {
    let size = tiles[0].size as int;
    let pitch = size + gap;
    let tile = tiles[(y / pitch) * columns + x / pitch];
    if x % pitch < size && y % pitch < size {
        png::quantised(tile.data@[(y % pitch) * size + x % pitch]) as u8
    } else {
        255
    }
}

/// A pixel short of the extent of `n` tiles belongs to one of them, or to the
/// gap after it.
pub proof fn lemma_tile_along(x: int, n: int, size: int, gap: int)
    requires
        0 <= x < extent(n, size, gap),
        n > 0,
        size >= 0,
        gap >= 0,
    ensures
        size + gap > 0,
        0 <= x / (size + gap) < n,
        0 <= x % (size + gap) < size + gap,
{
    let pitch = size + gap;
    assert(extent(n, size, gap) == n * pitch - gap) by (nonlinear_arith)
        requires
            extent(n, size, gap) == n * size + (n - 1) * gap,
            pitch == size + gap,
    ;
    assert(pitch > 0) by (nonlinear_arith)
        requires
            0 < n * pitch - gap,
            n > 0,
            pitch >= 0,
            gap >= 0,
    ;
    let q = x / pitch;
    lemma_fundamental_div_mod(x, pitch);
    lemma_mod_bound(x, pitch);
    lemma_div_pos_is_pos(x, pitch);
    assert(q < n) by (nonlinear_arith)
        requires
            x == pitch * q + x % pitch,
            x % pitch >= 0,
            x < n * pitch,
            pitch > 0,
    ;
}

/// The sample that a pixel shows exists.
proof fn lemma_sample_exists(i: int, k: int, columns: int, n: int, j: int, l: int, size: int)
    requires
        columns > 0,
        n % columns == 0,
        0 <= i < columns,
        0 <= k < n / columns,
        size >= 0,
    ensures
        0 <= k * columns <= k * columns + i < n,
        0 <= j < size && 0 <= l < size ==> 0 <= l * size + j < size * size,
{
    lemma_fundamental_div_mod(n, columns);
    let rows = n / columns;
    assert(0 <= k * columns && k * columns + i < columns * rows) by (nonlinear_arith)
        requires
            0 <= i < columns,
            0 <= k < rows,
    ;
    if 0 <= j < size && 0 <= l < size {
        assert(0 <= l * size + j < size * size) by (nonlinear_arith)
            requires
                0 <= j < size,
                0 <= l < size,
        ;
    }
}

/// Lay tiles out in rows of `columns`, `gap` white pixels apart, as one
/// greyscale image: its width, its height and its pixels.
pub fn sheet(tiles: &[Tile], columns: u32, gap: u32) -> (r: (u32, u32, Vec<u8>))
    requires
        alike(tiles@, columns as int),
        ({
            let size = tiles@[0].size as int;
            let w = extent(columns as int, size, gap as int);
            let h = extent(tiles@.len() as int / columns as int, size, gap as int);
            w <= u32::MAX && h <= u32::MAX && w * h <= u32::MAX
        }),
    ensures
        ({
            let size = tiles@[0].size as int;
            &&& r.0 == extent(columns as int, size, gap as int)
            &&& r.1 == extent(tiles@.len() as int / columns as int, size, gap as int)
            &&& r.2@.len() == r.0 * r.1
            &&& forall|p: int|
                0 <= p < r.2@.len() ==> #[trigger] r.2@[p] == sheet_pixel(
                    tiles@,
                    columns as int,
                    gap as int,
                    p % (r.0 as int),
                    p / (r.0 as int),
                )
        }),
{
    let size: u32 = tiles[0].size;
    let count: usize = tiles.len();
    let rows: usize = count / (columns as usize);
    let ghost (n, s, g, c) = (tiles@.len() as int, size as int, gap as int, columns as int);
    proof {
        lemma_fundamental_div_mod(n, c);
        assert(n / c > 0) by (nonlinear_arith)
            requires
                n == c * (n / c),
                n > 0,
                c > 0,
        ;
        lemma_extent_parts(c, s, g);
        lemma_extent_parts(n / c, s, g);
        let (w, h) = (extent(c, s, g), extent(n / c, s, g));
        assert(s * s <= w * h) by (nonlinear_arith)
            requires
                0 <= s <= w,
                s <= h,
        ;
    }
    let width: u32 = across(columns as usize, size, gap);
    let height: u32 = across(rows, size, gap);
    let total: u32 = width * height;
    let mut px: Vec<u8> = Vec::new();
    let mut p: u32 = 0;
    while p < total
        invariant
            alike(tiles@, c),
            n == count == tiles@.len(),
            s * s <= u32::MAX,
            s == size == tiles@[0].size,
            g == gap,
            c == columns,
            rows == n / c,
            rows > 0,
            width == extent(c, s, g),
            height == extent(n / c, s, g),
            total == width * height,
            p <= total,
            px@.len() == p,
            forall|q: int|
                0 <= q < p ==> #[trigger] px@[q] == sheet_pixel(
                    tiles@,
                    c,
                    g,
                    q % (width as int),
                    q / (width as int),
                ),
        decreases total - p,
    {
        assert(width > 0 && p / width < height) by (nonlinear_arith)
            requires
                0 <= p < width * height,
                width >= 0,
                height >= 0,
        ;
        let (x, y) = (p % width, p / width);
        proof {
            lemma_mod_bound(p as int, width as int);
            lemma_tile_along(x as int, c, s, g);
            lemma_tile_along(y as int, n / c, s, g);
        }
        let pitch: u64 = size as u64 + gap as u64;
        let (i, j) = (x as u64 / pitch, x as u64 % pitch);
        let (k, l) = (y as u64 / pitch, y as u64 % pitch);
        proof {
            lemma_sample_exists(i as int, k as int, c, n, j as int, l as int, s);
        }
        let shade: u8 = if j < size as u64 && l < size as u64 {
            let tile: &Tile = &tiles[(k * columns as u64 + i) as usize];
            assert(tile.wf() && tile.size == size);
            png::quantise(tile.get(j as u32, l as u32))
        } else {
            255
        };
        px.push(shade);
        p = p + 1;
    }
    (width, height, px)
}

/// Both parts of an extent are within it.
proof fn lemma_extent_parts(n: int, size: int, gap: int)
    requires
        n > 0,
        size >= 0,
        gap >= 0,
    ensures
        size <= n * size <= extent(n, size, gap),
        0 <= (n - 1) * gap <= extent(n, size, gap),
{
    assert(size <= n * size && 0 <= (n - 1) * gap) by (nonlinear_arith)
        requires
            n > 0,
            size >= 0,
            gap >= 0,
    ;
}

/// Measure the extent of `n` tiles.
fn across(n: usize, size: u32, gap: u32) -> (r: u32)
    requires
        n > 0,
        extent(n as int, size as int, gap as int) <= u32::MAX,
    ensures
        r == extent(n as int, size as int, gap as int),
{
    proof {
        lemma_extent_parts(n as int, size as int, gap as int);
    }
    ((n as u128) * (size as u128) + (n as u128 - 1) * (gap as u128)) as u32
}

} // verus!
