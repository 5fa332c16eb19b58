//! The noise primitives that a fractal sum can be built from.

use vstd::prelude::*;

verus! {

/// Which primitive a fractal sum is built from.
#[derive(Debug, Clone, Copy, PartialEq, Eq, Structural)]
pub enum Basis {
    /// Hashed scalars at lattice points. Cheap, blocky.
    Value,
    /// Perlin gradient noise. Smoother, the usual default.
    Gradient,
    /// Distance to the nearest feature point. Cellular.
    Worley,
}

} // verus!
