//! The plane of tiles: what holds of every tile, and of two tiles at once.

use vstd::prelude::*;

use crate::exact;
use crate::exact::{Lat, Prepared};
use crate::fixed;
use crate::fixed::ONE;
use crate::lattice;
use crate::material::{Material, Tile, TileId};
use crate::math;
use crate::noise::Basis;
use crate::ranges;

verus! {

impl Material {
    /// The knobs that are converted to fixed point are small enough for
    /// every sum to fit: a warp of at most 14, a pivot in `[0, 1]`, and a
    /// contrast of at most 14, or of at most 7 over cellular noise.
    pub open spec fn moderate(self) -> bool {
        let (warp, contrast, pivot) = (
            fixed::converted(self.warp),
            fixed::converted(self.contrast),
            fixed::converted(self.pivot),
        );
        let limit = if self.basis is Worley {
            7 * ONE
        } else {
            14 * ONE
        };
        &&& -14 * ONE <= warp <= 14 * ONE
        &&& 0 <= pivot <= ONE
        &&& -limit <= contrast <= limit
    }
}

/// Lightness in `[0, 1]`, up to what a basis leaves it by.
pub open spec fn light_over(b: Basis, v: int) -> bool {
    match b {
        Basis::Value => 0 <= v <= ONE,
        Basis::Gradient => -ranges::gradient_slack() <= v <= ONE + ranges::gradient_slack(),
        Basis::Worley => -ONE <= v <= ONE + ONE / 2,
    }
}

/// With the right reciprocal, the lightness is in its basis's range.
proof fn lemma_prepared_lightness(p: Prepared, lx: Lat, ly: Lat)
    requires
        p.recip == exact::norm_recip(p.octaves),
    ensures
        light_over(p.basis, p.lightness(lx, ly)),
{
    if p.pattern is Fractal {
        ranges::lemma_fractal_range(p.basis, lx, ly, p.octaves, p.seed);
    } else if p.pattern is Ridged {
        ranges::lemma_ridged_range(p.basis, lx, ly, p.octaves, p.sharpness, p.seed);
    } else {
        let (dx, dy) = p.displacement(lx, ly);
        ranges::lemma_fractal_range(
            p.basis,
            Lat::at(lx.position() + dx),
            Lat::at(ly.position() + dy),
            p.octaves,
            p.seed,
        );
    }
}

/// The lightness of a material is in `[0, 1]`, up to what its basis leaves
/// it by.
pub proof fn lemma_lightness_range(m: Material, lx: Lat, ly: Lat)
    ensures
        light_over(m.basis, exact::prepared(m).lightness(lx, ly)),
{
    exact::lemma_norm_recip(m.octaves);
    lemma_prepared_lightness(exact::prepared(m), lx, ly);
}

/// The warp fields are in `[-1, 1]`.
proof fn lemma_warp_fields_range(m: Material, lx: Lat, ly: Lat)
    ensures
        ({
            let (wx, wy) = exact::prepared(m).warp_fields(lx, ly);
            -ONE <= wx <= ONE && -ONE <= wy <= ONE
        }),
{
    exact::lemma_norm_recip(2);
    let (x0, y0) = (
        Lat::at(lx.position() + exact::WARP_OFFSETS[0]),
        Lat::at(ly.position() + exact::WARP_OFFSETS[1]),
    );
    let (x1, y1) = (
        Lat::at(lx.position() + exact::WARP_OFFSETS[2]),
        Lat::at(ly.position() + exact::WARP_OFFSETS[3]),
    );
    let (s0, s1) = (m.seed ^ 0x5f35_6495, m.seed ^ 0x3c6e_f372);
    ranges::lemma_fractal_range(Basis::Value, x0, y0, 2, s0);
    ranges::lemma_fractal_range(Basis::Value, x1, y1, 2, s1);
}

/// The domain is displaced by at most the warp strength.
pub proof fn lemma_displacement_range(m: Material, lx: Lat, ly: Lat)
    ensures
        ({
            let p = exact::prepared(m);
            let w = fixed::magnitude_of(fixed::converted(m.warp));
            let (dx, dy) = p.displacement(lx, ly);
            fixed::converted(m.warp) > i32::MIN ==> {
                &&& p.warp_unwrapped(lx, ly)
                &&& -w <= dx <= w
                &&& -w <= dy <= w
            }
        }),
{
    let p = exact::prepared(m);
    let (wx, wy) = p.warp_fields(lx, ly);
    lemma_warp_fields_range(m, lx, ly);
    if p.warp > i32::MIN {
        lemma_warp_product(p.warp as int, wx);
        lemma_warp_product(p.warp as int, wy);
    }
}

/// A warp strength times a field in `[-1, 1]` does not wrap around.
proof fn lemma_warp_product(a: int, v: int)
    requires
        i32::MIN < a <= i32::MAX,
        -ONE <= v <= ONE,
    ensures
        math::fits_i32(fixed::product(a, v)),
        -fixed::magnitude_of(a) <= fixed::times(a, v) <= fixed::magnitude_of(a),
{
    fixed::lemma_product_shrinks(v, a);
    fixed::lemma_product_commutes(v, a);
}

/// A moderate material can be sampled everywhere, and no product wraps
/// around.
pub proof fn lemma_moderate_fits(m: Material, lx: Lat, ly: Lat)
    requires
        m.moderate(),
        lx.wf(),
        ly.wf(),
    ensures
        exact::prepared(m).fits(lx, ly),
        exact::prepared(m).unwrapped(lx, ly),
{
    let p = exact::prepared(m);
    lemma_displacement_range(m, lx, ly);
    lemma_lightness_range(m, lx, ly);
    let d = p.lightness(lx, ly) - p.pivot;
    let c = p.contrast as int;
    fixed::lemma_product_is_truncated(d, c);
    let limit = 15 * ONE - ONE / 2;
    assert(-(limit * ONE) <= d * c <= limit * ONE) by (nonlinear_arith)
        requires
            (-(2 * ONE) <= d <= 2 * ONE && -(7 * ONE) <= c <= 7 * ONE) || (-(ONE + 40) <= d <= ONE
                + 40 && -(14 * ONE) <= c <= 14 * ONE),
            limit == 15 * ONE - ONE / 2,
            ONE == 134_217_728,
    ;
    assert(-limit <= fixed::product(d, c) <= limit);
}

/// Every tile of a moderate material can be rendered, as long as its pixels
/// can be counted.
pub proof fn lemma_moderate_tile_fits(m: Material, tile: TileId, size: u32)
    requires
        m.moderate(),
        size * size <= u32::MAX,
    ensures
        m.tile_fits(tile, size),
{
    assert forall|i: int| 0 <= i < size * size implies #[trigger] m.pixel_fits(
        tile,
        size,
        i,
    ) by {
        let step = exact::pixel_step(m.frequency, size);
        lattice::lemma_at_stands_for(
            m.tile_origin(tile.x).position() + (i % (size as int)) * step,
        );
        lattice::lemma_at_stands_for(
            m.tile_origin(tile.y).position() + (i / (size as int)) * step,
        );
        lemma_moderate_fits(m, m.pixel_x(tile, size, i), m.pixel_y(tile, size, i));
    }
}

/// A sample is a number in `[0, 1]`, wherever it is taken.
pub proof fn lemma_sample_in_unit(p: Prepared, lx: Lat, ly: Lat)
    ensures
        p.sampled(lx, ly).bits <= 0x3f80_0000,
{
    fixed::lemma_unit_to_f32(p.tone(lx, ly));
}

/// Every pixel of a rendered tile is a number in `[0, 1]`.
pub proof fn lemma_rendered_in_unit(m: Material, tile: TileId, size: u32, t: Tile)
    requires
        m.renders(tile, size, t),
    ensures
        forall|i: int| 0 <= i < t.data@.len() ==> (#[trigger] t.data@[i]).bits <= 0x3f80_0000,
{
    assert forall|i: int| 0 <= i < t.data@.len() implies (#[trigger] t.data@[i]).bits
        <= 0x3f80_0000 by {
        lemma_sample_in_unit(
            exact::prepared(m),
            m.pixel_x(tile, size, i),
            m.pixel_y(tile, size, i),
        );
    }
}

/// A tile is addressed, not reached: two renderings of the same tile are the
/// same, whatever was rendered before them.
pub proof fn lemma_render_unique(m: Material, tile: TileId, size: u32, a: Tile, b: Tile)
    requires
        m.renders(tile, size, a),
        m.renders(tile, size, b),
    ensures
        a.size == b.size,
        a.data@ == b.data@,
{
    assert(a.data@ =~= b.data@);
}

/// Tiles whose origins are the same coordinate are the same picture.
pub proof fn lemma_render_aliases(m: Material, ta: TileId, tb: TileId, size: u32, a: Tile, b: Tile)
    requires
        m.renders(ta, size, a),
        m.renders(tb, size, b),
        m.tile_origin(ta.x) == m.tile_origin(tb.x),
        m.tile_origin(ta.y) == m.tile_origin(tb.y),
    ensures
        a.data@ == b.data@,
{
    assert forall|i: int| 0 <= i < a.data@.len() implies a.data@[i] == b.data@[i] by {
        assert(m.pixel(ta, size, i) == m.pixel(tb, size, i));
    }
    assert(a.data@ =~= b.data@);
}

} // verus!
