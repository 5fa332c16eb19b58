# tilekiln

Tile-addressable procedural textures in exact arithmetic, verified with
[Verus](https://github.com/verus-lang/verus).

A material is a small record of knobs. A tile of it is a pure function of the
material, the tile's index and its size, computed in Q4.27 integers, so every
machine renders the same bits and no tile depends on another having been
rendered.

## Layout

- `src/` is the verified library.
  - `fixed`, `lattice`, `hash`: fixed-point numbers, lattice coordinates and
    the hashes that the field is built from.
  - `exact`: noise, fractal sums, sampling and rendering.
  - `ieee`: the boundary with floating point. Numbers are held as bit
    patterns, and rounding is stated exactly.
  - `material`, `noise`, `features`, `analysis`: the knobs, and what a
    stability analysis decides.
  - `png`: a PNG writer. `png_reader` states a reader and proves that it gives
    every image back.
  - `sheet`: several tiles on one image.
  - `gpu`: what a compute device is told, and how its answer is read.
  - `quintic`, `ranges`, `continuity`, `cellular`, `smoothness`, `plane`,
    `grid`, `seam`: laws of the interpolant, the noise, the tiles, the plane
    they lie on and the joins between them.
- `tests/` runs the library, against the hardware's floating point where there
  is something to compare.
- `app/` is ordinary Rust around the library: the floating-point path, the
  measurements, the analysis, the compute device, and two programs: `gallery`
  and `which_knob_is_dangerous`.

## What is trusted

Two calls into `bytemuck`, both in `gpu`: one reads sixteen words as bytes, the
other reads bytes as words. Their contracts leave the machine's byte order
open.
